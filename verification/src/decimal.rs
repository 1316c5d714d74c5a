//! Numbers written as decimal digits, as the id counters are stored.

use vstd::prelude::*;

verus! {

/// The byte `0`.
pub const DIGIT_ZERO: u8 = 48;

/// The decimal digits of `n`, without leading zeros; `0` for zero.
pub open spec fn digits_of(n: nat) -> Seq<u8>
    decreases n,
{
    if n < 10 {
        seq![(DIGIT_ZERO + n) as u8]
    } else {
        digits_of(n / 10).push((DIGIT_ZERO + n % 10) as u8)
    }
}

/// The byte is a decimal digit.
pub open spec fn is_digit(byte: u8) -> bool {
    DIGIT_ZERO <= byte <= DIGIT_ZERO + 9
}

/// Every byte is a decimal digit.
pub open spec fn all_digits(bytes: Seq<u8>) -> bool {
    forall|i: int| 0 <= i < bytes.len() ==> is_digit(#[trigger] bytes[i])
}

/// The number that decimal digits spell, leading zeros allowed.
pub open spec fn value_of(digits: Seq<u8>) -> nat
    decreases digits.len(),
{
    if digits.len() == 0 {
        0
    } else {
        value_of(digits.drop_last()) * 10 + (digits.last() - DIGIT_ZERO) as nat
    }
}

/// The number that the bytes spell in decimal, if they are digits, at least one,
/// and the number fits in 32 bits.
pub open spec fn parsed(bytes: Seq<u8>) -> Option<u32> {
    if bytes.len() > 0 && all_digits(bytes) && value_of(bytes) <= u32::MAX {
        Some(value_of(bytes) as u32)
    } else {
        None
    }
}

/// The digits of a number spell the number.
pub proof fn lemma_value_of_digits(n: nat)
    ensures
        digits_of(n).len() > 0,
        all_digits(digits_of(n)),
        value_of(digits_of(n)) == n,
    decreases n,
{
    if n < 10 {
        let digits = digits_of(n);
        assert(digits.drop_last() =~= Seq::<u8>::empty());
        assert(value_of(digits.drop_last()) == 0);
    } else {
        lemma_value_of_digits(n / 10);
        let digits = digits_of(n);
        assert(digits.drop_last() =~= digits_of(n / 10));
        assert forall|i: int| 0 <= i < digits.len() implies is_digit(#[trigger] digits[i]) by {
            if i < digits.len() - 1 {
                assert(digits[i] == digits_of(n / 10)[i]);
            }
        }
    }
}

/// A stored counter is read back as it was written.
pub proof fn lemma_parsed_digits(n: u32)
    ensures
        parsed(digits_of(n as nat)) == Some(n),
{
    lemma_value_of_digits(n as nat);
}

/// Dropping digits from the end does not make the number larger.
proof fn lemma_value_grows(digits: Seq<u8>, i: int)
    requires
        0 <= i <= digits.len(),
        all_digits(digits),
    ensures
        value_of(digits.subrange(0, i)) <= value_of(digits),
    decreases digits.len() - i,
{
    if i == digits.len() {
        assert(digits.subrange(0, i) =~= digits);
    } else {
        let next = digits.subrange(0, i + 1);
        assert(next.drop_last() =~= digits.subrange(0, i));
        assert(is_digit(digits[i]));
        assert(next.last() == digits[i]);
        lemma_value_grows(digits, i + 1);
    }
}

/// Writes `n` in decimal.
pub fn to_decimal(n: u32) -> (digits: Vec<u8>)
    ensures
        digits@ == digits_of(n as nat),
{
    let mut reversed: Vec<u8> = Vec::new();
    let mut rest: u32 = n;
    // The digits come out last first.
    while rest >= 10
        invariant
            digits_of(n as nat) == digits_of(rest as nat) + reversed@.reverse(),
        decreases rest,
    {
        let digit: u8 = DIGIT_ZERO + (rest % 10) as u8;
        proof {
            let grown = reversed@.push(digit);
            assert(grown.reverse() =~= seq![digit] + reversed@.reverse());
            assert(digits_of(rest as nat) =~= digits_of((rest / 10) as nat) + seq![digit]);
            assert(digits_of(n as nat) =~= digits_of((rest / 10) as nat) + grown.reverse());
        }
        reversed.push(digit);
        rest = rest / 10;
    }
    let digit: u8 = DIGIT_ZERO + rest as u8;
    proof {
        let grown = reversed@.push(digit);
        assert(grown.reverse() =~= seq![digit] + reversed@.reverse());
        assert(digits_of(rest as nat) =~= seq![digit]);
        assert(digits_of(n as nat) =~= grown.reverse());
    }
    reversed.push(digit);
    let mut digits: Vec<u8> = Vec::new();
    let mut i: usize = reversed.len();
    while i > 0
        invariant
            i <= reversed.len(),
            digits@.len() == reversed.len() - i,
            forall|j: int| 0 <= j < digits@.len() ==> digits@[j] == reversed@[reversed.len() - 1 - j],
        decreases i,
    {
        i -= 1;
        digits.push(reversed[i]);
    }
    assert(digits@ =~= reversed@.reverse());
    digits
}

/// Reads a number written in decimal. Fails on no bytes, on a byte that is no
/// digit and on a number that does not fit in 32 bits.
pub fn parse_decimal(bytes: &[u8]) -> (n: Option<u32>)
    ensures
        n == parsed(bytes@),
{
    if bytes.len() == 0 {
        return None;
    }
    let mut value: u64 = 0;
    let mut i: usize = 0;
    assert(bytes@.subrange(0, 0) =~= Seq::<u8>::empty());
    while i < bytes.len()
        invariant
            i <= bytes.len(),
            bytes.len() > 0,
            all_digits(bytes@.subrange(0, i as int)),
            value == value_of(bytes@.subrange(0, i as int)),
            value <= u32::MAX,
        decreases bytes.len() - i,
    {
        let byte = bytes[i];
        let ghost next = bytes@.subrange(0, i as int + 1);
        proof {
            assert(next.drop_last() =~= bytes@.subrange(0, i as int));
            assert(next.last() == byte);
        }
        if byte < DIGIT_ZERO || byte > DIGIT_ZERO + 9 {
            assert(!is_digit(bytes@[i as int]));
            return None;
        }
        proof {
            assert forall|j: int| 0 <= j < next.len() implies is_digit(#[trigger] next[j]) by {
                if j < i {
                    assert(next[j] == bytes@.subrange(0, i as int)[j]);
                }
            }
        }
        value = value * 10 + (byte - DIGIT_ZERO) as u64;
        if value > 0xffff_ffff {
            proof {
                if all_digits(bytes@) {
                    lemma_value_grows(bytes@, i as int + 1);
                }
            }
            return None;
        }
        i += 1;
    }
    assert(bytes@.subrange(0, i as int) =~= bytes@);
    Some(value as u32)
}

} // verus!
