//! How the store merges operands into the value of a key.
//!
//! Term directories and deletion lists grow by concatenation, statistics by
//! addition; under every other key the last operand wins.

use crate::encoding::{be_i64, i64_of_be, read_i64_be, write_i64_be};
use crate::key::{append_bytes, TAG_DELETION_LIST, TAG_STATISTIC, TAG_TERM_DIRECTORY};
use crate::term::copy_bytes;
use vstd::prelude::*;

verus! {

/// The key is one of a term directory or of a deletion list.
pub open spec fn is_list_key(key: Seq<u8>) -> bool {
    key.len() > 0 && (key[0] == TAG_TERM_DIRECTORY || key[0] == TAG_DELETION_LIST)
}

/// The key is one of a statistic.
pub open spec fn is_counter_key(key: Seq<u8>) -> bool {
    key.len() > 0 && key[0] == TAG_STATISTIC
}

/// The operands one after the other.
pub open spec fn concat_all(operands: Seq<Seq<u8>>) -> Seq<u8>
    decreases operands.len(),
{
    if operands.len() == 0 {
        Seq::empty()
    } else {
        concat_all(operands.drop_last()) + operands.last()
    }
}

/// Every operand is a counter: eight bytes.
pub open spec fn all_counters(operands: Seq<Seq<u8>>) -> bool {
    forall|i: int| 0 <= i < operands.len() ==> (#[trigger] operands[i]).len() == 8
}

/// The sum of the operands, each read as a signed number, most significant byte first.
pub open spec fn counter_sum(operands: Seq<Seq<u8>>) -> int
    decreases operands.len(),
{
    if operands.len() == 0 {
        0
    } else {
        counter_sum(operands.drop_last()) + i64_of_be(operands.last())
    }
}

/// The value that is there, or no bytes.
pub open spec fn value_or_empty(existing: Option<Seq<u8>>) -> Seq<u8> {
    match existing {
        Some(value) => value,
        None => Seq::empty(),
    }
}

/// The value that is there, if any, before the operands.
pub open spec fn with_existing(existing: Option<Seq<u8>>, operands: Seq<Seq<u8>>) -> Seq<
    Seq<u8>,
> {
    match existing {
        Some(value) => seq![value] + operands,
        None => operands,
    }
}

/// The value of `key` after merging the operands into what is there. Nothing
/// where a statistic is not eight bytes or the sum does not fit in 64 bits.
pub open spec fn merged_value(
    key: Seq<u8>,
    existing: Option<Seq<u8>>,
    operands: Seq<Seq<u8>>,
) -> Option<Seq<u8>> {
    if is_list_key(key) {
        Some(value_or_empty(existing) + concat_all(operands))
    } else if is_counter_key(key) {
        let counters = with_existing(existing, operands);
        let sum = counter_sum(counters);
        if all_counters(counters) && i64::MIN <= sum <= i64::MAX {
            Some(be_i64(sum as i64))
        } else {
            None
        }
    } else if operands.len() > 0 {
        Some(operands.last())
    } else {
        Some(value_or_empty(existing))
    }
}

/// The operands as byte strings.
pub open spec fn operand_views(operands: Seq<Vec<u8>>) -> Seq<Seq<u8>> {
    Seq::new(operands.len(), |i: int| operands[i]@)
}

/// The view of an optional byte slice.
pub open spec fn optional_bytes(bytes: Option<&[u8]>) -> Option<Seq<u8>> {
    match bytes {
        Some(bytes) => Some(bytes@),
        None => None,
    }
}

/// The operands of two runs, one after the other, are those of the first run,
/// then those of the second.
pub proof fn lemma_concat_all(first: Seq<Seq<u8>>, second: Seq<Seq<u8>>)
    ensures
        concat_all(first + second) == concat_all(first) + concat_all(second),
    decreases second.len(),
{
    if second.len() == 0 {
        assert(first + second =~= first);
        assert(concat_all(first) + concat_all(second) =~= concat_all(first));
    } else {
        assert((first + second).drop_last() =~= first + second.drop_last());
        assert((first + second).last() == second.last());
        lemma_concat_all(first, second.drop_last());
        assert(concat_all(first + second) =~= concat_all(first) + concat_all(second));
    }
}

/// The sum of the counters of two runs is the sum of the two sums.
pub proof fn lemma_counter_sum(first: Seq<Seq<u8>>, second: Seq<Seq<u8>>)
    ensures
        counter_sum(first + second) == counter_sum(first) + counter_sum(second),
    decreases second.len(),
{
    if second.len() == 0 {
        assert(first + second =~= first);
    } else {
        assert((first + second).drop_last() =~= first + second.drop_last());
        assert((first + second).last() == second.last());
        lemma_counter_sum(first, second.drop_last());
    }
}

/// Merging operands in two runs yields what merging them in one run yields,
/// wherever the first run yields a value: the store may merge as the operands
/// come or all at once.
pub proof fn lemma_merge_in_runs(
    key: Seq<u8>,
    existing: Option<Seq<u8>>,
    first: Seq<Seq<u8>>,
    second: Seq<Seq<u8>>,
)
    requires
        merged_value(key, existing, first) is Some,
    ensures
        merged_value(key, existing, first + second) == merged_value(
            key,
            merged_value(key, existing, first),
            second,
        ),
{
    let midway = merged_value(key, existing, first).unwrap();
    if is_list_key(key) {
        lemma_concat_all(first, second);
        assert(value_or_empty(existing) + concat_all(first + second) =~= midway + concat_all(
            second,
        ));
    } else if is_counter_key(key) {
        let before = with_existing(existing, first);
        let all = with_existing(existing, first + second);
        let after = with_existing(Some(midway), second);
        assert(all =~= before + second);
        assert(after =~= seq![midway] + second);
        lemma_counter_sum(before, second);
        lemma_counter_sum(seq![midway], second);
        lemma_counter_sum_front(midway, Seq::empty());
        assert(seq![midway] + Seq::<Seq<u8>>::empty() =~= seq![midway]);
        crate::encoding::lemma_decode_encode(0, 0, 0, counter_sum(before) as i64);
        assert(counter_sum(seq![midway]) == counter_sum(before));
        assert(all_counters(all) == all_counters(after)) by {
            if all_counters(all) {
                assert forall|i: int| 0 <= i < after.len() implies (#[trigger] after[i]).len()
                    == 8 by {
                    if i > 0 {
                        assert(after[i] == all[before.len() + i - 1]);
                    }
                }
            }
            if all_counters(after) {
                assert forall|i: int| 0 <= i < all.len() implies (#[trigger] all[i]).len()
                    == 8 by {
                    if i < before.len() {
                        assert(all[i] == before[i]);
                    } else {
                        assert(all[i] == after[i - before.len() + 1]);
                    }
                }
            }
        }
    } else {
        if second.len() > 0 {
            assert((first + second).last() == second.last());
        } else {
            assert(first + second =~= first);
        }
    }
}

proof fn lemma_counter_sum_front(first: Seq<u8>, operands: Seq<Seq<u8>>)
    ensures
        counter_sum(seq![first] + operands) == i64_of_be(first) + counter_sum(operands),
    decreases operands.len(),
{
    let all = seq![first] + operands;
    if operands.len() == 0 {
        assert(all.drop_last() =~= Seq::<Seq<u8>>::empty());
        assert(counter_sum(all.drop_last()) == 0);
    } else {
        assert(all.drop_last() =~= seq![first] + operands.drop_last());
        lemma_counter_sum_front(first, operands.drop_last());
    }
}

/// Merges the operands into the value of `key`, as the store asks when it reads
/// or compacts a key that was written by merges.
pub fn merge(key: &[u8], existing: Option<&[u8]>, operands: &Vec<Vec<u8>>) -> (merged: Option<
    Vec<u8>,
>)
    ensures
        match merged {
            Some(value) => merged_value(key@, optional_bytes(existing), operand_views(operands@))
                == Some(value@),
            None => merged_value(key@, optional_bytes(existing), operand_views(operands@))
                is None,
        },
{
    let ghost views = operand_views(operands@);
    if key.len() > 0 && (key[0] == TAG_TERM_DIRECTORY || key[0] == TAG_DELETION_LIST) {
        let mut value: Vec<u8> = match existing {
            Some(bytes) => copy_bytes(bytes),
            None => Vec::new(),
        };
        let mut i: usize = 0;
        assert(views.subrange(0, 0) =~= Seq::<Seq<u8>>::empty());
        while i < operands.len()
            invariant
                i <= operands.len(),
                views == operand_views(operands@),
                value@ == value_or_empty(optional_bytes(existing)) + concat_all(
                    views.subrange(0, i as int),
                ),
            decreases operands.len() - i,
        {
            proof {
                let next = views.subrange(0, i as int + 1);
                assert(next.drop_last() =~= views.subrange(0, i as int));
                assert(next.last() == operands@[i as int]@);
            }
            append_bytes(&mut value, operands[i].as_slice());
            i += 1;
        }
        assert(views.subrange(0, i as int) =~= views);
        Some(value)
    } else if key.len() > 0 && key[0] == TAG_STATISTIC {
        let ghost counters = with_existing(optional_bytes(existing), views);
        let mut sum: i128 = 0;
        match existing {
            Some(bytes) => {
                if bytes.len() != 8 {
                    assert(counters[0].len() != 8);
                    return None;
                }
                sum = read_i64_be(bytes) as i128;
                proof {
                    lemma_counter_sum_front(bytes@, Seq::empty());
                }
            },
            None => {},
        }
        let mut i: usize = 0;
        assert(views.subrange(0, 0) =~= Seq::<Seq<u8>>::empty());
        while i < operands.len()
            invariant
                i <= operands.len(),
                key@.len() > 0 && key@[0] == TAG_STATISTIC,
                views == operand_views(operands@),
                counters == with_existing(optional_bytes(existing), views),
                existing matches Some(bytes) ==> bytes@.len() == 8,
                forall|j: int| 0 <= j < i ==> (#[trigger] views[j]).len() == 8,
                sum == counter_sum(
                    with_existing(optional_bytes(existing), views.subrange(0, i as int)),
                ),
                -(i + 1) * 0x8000_0000_0000_0000 <= sum <= (i + 1) * 0x8000_0000_0000_0000,
            decreases operands.len() - i,
        {
            if operands[i].len() != 8 {
                proof {
                    let at = if existing is Some { i as int + 1 } else { i as int };
                    assert(counters[at] == views[i as int]);
                    assert(counters[at].len() != 8);
                }
                return None;
            }
            let operand = read_i64_be(operands[i].as_slice());
            proof {
                let before = with_existing(
                    optional_bytes(existing),
                    views.subrange(0, i as int),
                );
                let after = with_existing(
                    optional_bytes(existing),
                    views.subrange(0, i as int + 1),
                );
                assert(after.drop_last() =~= before);
                assert(after.last() == operands@[i as int]@);
            }
            sum = sum + operand as i128;
            i += 1;
        }
        proof {
            assert(views.subrange(0, i as int) =~= views);
            assert forall|j: int| 0 <= j < counters.len() implies (#[trigger] counters[j]).len()
                == 8 by {
                if existing is Some {
                    if j > 0 {
                        assert(counters[j] == views[j - 1]);
                    }
                } else {
                    assert(counters[j] == views[j]);
                }
            }
        }
        if sum < -0x8000_0000_0000_0000 || sum > 0x7fff_ffff_ffff_ffff {
            return None;
        }
        Some(write_i64_be(sum as i64))
    } else if operands.len() > 0 {
        let last = &operands[operands.len() - 1];
        assert(views.last() == last@);
        Some(copy_bytes(last.as_slice()))
    } else {
        match existing {
            Some(bytes) => Some(copy_bytes(bytes)),
            None => Some(Vec::new()),
        }
    }
}

} // verus!
