//! Sets of document ordinals.

use crate::bitmap::{
    ascending, bitmap_clone, bitmap_contains, bitmap_deserialize, bitmap_difference_with,
    bitmap_in_form, bitmap_insert, bitmap_intersect_with, bitmap_new, bitmap_serialize,
    bitmap_to_vec, bitmap_union_with, bitmap_values, deserialized_values, serialized_values,
};
use crate::decimal::{digits_of, is_digit, lemma_value_of_digits, to_decimal};
use crate::document::string_from_utf8;
use crate::encoding::{be_u16, read_u16_be, u16_of_be, write_u16_be};
use crate::key::append_bytes;
use roaring::RoaringBitmap;
use vstd::prelude::*;
use vstd::utf8::{
    decode_utf8_encode_utf8, encode_utf8, is_leading_byte_width_1, partial_valid_utf8,
    partial_valid_utf8_extend_ascii_block, valid_utf8,
};

verus! {

/// The `i`th ordinal spelled by a concatenation of two-byte big-endian ordinals.
pub open spec fn ordinal_at(bytes: Seq<u8>, i: int) -> u16 {
    u16_of_be(bytes.subrange(2 * i, 2 * i + 2))
}

/// The ordinals spelled by a concatenation of two-byte big-endian ordinals. A
/// trailing odd byte spells nothing.
pub open spec fn ordinals_of(bytes: Seq<u8>) -> Set<u16> {
    Set::new(|ord: u16| exists|i: int| 0 <= i && 2 * i + 2 <= bytes.len() && ordinal_at(bytes, i) == ord)
}

/// The concatenation of the two-byte big-endian encodings of the ordinals.
pub open spec fn ordinal_bytes(ords: Seq<u16>) -> Seq<u8>
    decreases ords.len(),
{
    if ords.len() == 0 {
        Seq::empty()
    } else {
        ordinal_bytes(ords.drop_last()) + be_u16(ords.last())
    }
}

/// Each ordinal is smaller than every ordinal behind it.
pub open spec fn increasing(ords: Seq<u16>) -> bool {
    forall|i: int, j: int| 0 <= i < j < ords.len() ==> ords[i] < ords[j]
}

/// `ords` lists `set`: every ordinal of it once, in ascending order.
pub open spec fn lists(ords: Seq<u16>, set: Set<u16>) -> bool {
    increasing(ords) && ords.to_set() == set
}

/// The ordinals of `set` in ascending order.
pub open spec fn listing_of(set: Set<u16>) -> Seq<u16> {
    choose|ords: Seq<u16>| lists(ords, set)
}

/// The ordinals in decimal, with a comma and a space between two.
pub open spec fn joined(ords: Seq<u16>) -> Seq<u8>
    decreases ords.len(),
{
    if ords.len() == 0 {
        Seq::empty()
    } else if ords.len() == 1 {
        digits_of(ords[0] as nat)
    } else {
        joined(ords.drop_last()) + seq![COMMA, SPACE] + digits_of(ords.last() as nat)
    }
}

/// The text that shows a list of ordinals, as bytes: the ordinals in decimal
/// in square brackets, with a comma and a space between two.
pub open spec fn shown(ords: Seq<u16>) -> Seq<u8> {
    seq![BRACKET_OPEN] + joined(ords) + seq![BRACKET_CLOSE]
}

/// The byte `[`.
pub const BRACKET_OPEN: u8 = 91;

/// The byte `]`.
pub const BRACKET_CLOSE: u8 = 93;

/// The byte `,`.
pub const COMMA: u8 = 44;

/// The byte of a space.
pub const SPACE: u8 = 32;

/// Bytes below 128 are text, each byte a character.
proof fn lemma_ascii_is_text(bytes: Seq<u8>)
    requires
        forall|i: int| 0 <= i < bytes.len() ==> #[trigger] bytes[i] < 128,
    ensures
        valid_utf8(bytes),
{
    assert(bytes.subrange(0, 0) =~= Seq::<u8>::empty());
    assert(partial_valid_utf8(bytes, 0));
    assert forall|i: int| 0 <= 0 <= i < bytes.len() <= bytes.len() implies #[trigger] is_leading_byte_width_1(
        bytes[i],
    ) by {
        assert(bytes[i] < 128);
    }
    partial_valid_utf8_extend_ascii_block(bytes, 0, bytes.len() as int);
    assert(bytes.subrange(0, bytes.len() as int) =~= bytes);
}

/// A set of document ordinals of one segment.
pub struct DocIdSet {
    data: RoaringBitmap,
}

impl DocIdSet {
    #[verifier::type_invariant]
    spec fn in_range(self) -> bool {
        &&& bitmap_in_form(self.data)
        &&& forall|value: u32| bitmap_values(self.data).contains(value) ==> value <= 0xffff
    }

    /// The ordinals in the set.
    pub closed spec fn view(&self) -> Set<u16> {
        Set::new(|ord: u16| bitmap_values(self.data).contains(ord as u32))
    }

    /// The ordinals of the set as 32-bit numbers.
    pub open spec fn values(&self) -> Set<u32> {
        Set::new(|value: u32| value <= 0xffff && self@.contains(value as u16))
    }

    /// `ords` lists the set: every ordinal of it once, in ascending order.
    pub open spec fn listed_by(&self, ords: Seq<u16>) -> bool {
        lists(ords, self@)
    }

    /// The ordinals of the set in ascending order.
    pub open spec fn listing(&self) -> Seq<u16> {
        listing_of(self@)
    }

    /// The empty set.
    pub fn new() -> (set: DocIdSet)
        ensures
            set@ == Set::<u16>::empty(),
    {
        let set = DocIdSet { data: bitmap_new() };
        assert(set@ =~= Set::<u16>::empty());
        set
    }

    /// Reads a concatenation of two-byte big-endian ordinals. A trailing odd byte
    /// is left out.
    pub fn from_bytes(data: Vec<u8>) -> (set: DocIdSet)
        ensures
            set@ == ordinals_of(data@),
    {
        let mut set = DocIdSet::new();
        let mut i: usize = 0;
        while data.len() - i >= 2
            invariant
                i <= data.len(),
                i % 2 == 0,
                set@ == Set::new(
                    |ord: u16|
                        exists|k: int| 0 <= k && 2 * k + 2 <= i && ordinal_at(data@, k) == ord,
                ),
            decreases data.len() - i,
        {
            let ord = read_u16_be(&data.as_slice()[i..i + 2]);
            let ghost before = set@;
            set.insert(ord);
            proof {
                let k0 = i as int / 2;
                assert(ordinal_at(data@, k0) == ord);
                let after = Set::new(
                    |ord: u16|
                        exists|k: int|
                            0 <= k && 2 * k + 2 <= i + 2 && ordinal_at(data@, k) == ord,
                );
                assert forall|o: u16| after.contains(o) <==> before.insert(ord).contains(o) by {
                    if after.contains(o) {
                        let k = choose|k: int|
                            0 <= k && 2 * k + 2 <= i + 2 && ordinal_at(data@, k) == o;
                        if k != k0 {
                            assert(2 * k + 2 <= i);
                        }
                    }
                    if before.contains(o) {
                        let k = choose|k: int|
                            0 <= k && 2 * k + 2 <= i && ordinal_at(data@, k) == o;
                        assert(2 * k + 2 <= i + 2);
                    }
                }
                assert(set@ =~= after);
            }
            i += 2;
        }
        proof {
            assert forall|o: u16| set@.contains(o) <==> ordinals_of(data@).contains(o) by {
                if ordinals_of(data@).contains(o) {
                    let k = choose|k: int|
                        0 <= k && 2 * k + 2 <= data@.len() && ordinal_at(data@, k) == o;
                    assert(2 * k + 2 <= i);
                }
            }
            assert(set@ =~= ordinals_of(data@));
        }
        set
    }

    /// Puts an ordinal into the set.
    pub fn insert(&mut self, doc_id: u16)
        ensures
            final(self)@ == old(self)@.insert(doc_id),
    {
        proof {
            use_type_invariant(&*self);
        }
        // The bitmap is taken out while it changes, so that the set is never seen
        // half-changed.
        let mut data = bitmap_new();
        core::mem::swap(&mut self.data, &mut data);
        bitmap_insert(&mut data, doc_id as u32);
        core::mem::swap(&mut self.data, &mut data);
        assert(self@ =~= old(self)@.insert(doc_id));
    }

    /// Whether the set holds the ordinal.
    pub fn contains_doc(&self, doc_id: u16) -> (held: bool)
        ensures
            held == self@.contains(doc_id),
    {
        proof {
            use_type_invariant(self);
        }
        bitmap_contains(&self.data, doc_id as u32)
    }

    /// The ordinals that either set holds.
    pub fn union(&self, other: &DocIdSet) -> (set: DocIdSet)
        ensures
            set@ == self@.union(other@),
    {
        proof {
            use_type_invariant(self);
            use_type_invariant(other);
        }
        let mut data = bitmap_clone(&self.data);
        bitmap_union_with(&mut data, &other.data);
        let set = DocIdSet { data };
        assert(set@ =~= self@.union(other@));
        set
    }

    /// The ordinals that both sets hold.
    pub fn intersection(&self, other: &DocIdSet) -> (set: DocIdSet)
        ensures
            set@ == self@.intersect(other@),
    {
        proof {
            use_type_invariant(self);
            use_type_invariant(other);
        }
        let mut data = bitmap_clone(&self.data);
        bitmap_intersect_with(&mut data, &other.data);
        let set = DocIdSet { data };
        assert(set@ =~= self@.intersect(other@));
        set
    }

    /// The ordinals of this set that `other` does not hold.
    pub fn exclusion(&self, other: &DocIdSet) -> (set: DocIdSet)
        ensures
            set@ == self@.difference(other@),
    {
        proof {
            use_type_invariant(self);
            use_type_invariant(other);
        }
        let mut data = bitmap_clone(&self.data);
        bitmap_difference_with(&mut data, &other.data);
        let set = DocIdSet { data };
        assert(set@ =~= self@.difference(other@));
        set
    }

    /// The ordinals of the set in ascending order.
    pub fn to_vec(&self) -> (ords: Vec<u16>)
        ensures
            self.listed_by(ords@),
            ords@ == self.listing(),
    {
        proof {
            use_type_invariant(self);
        }
        let values = bitmap_to_vec(&self.data);
        proof {
            assert forall|j: int| 0 <= j < values@.len() implies values@[j] <= 0xffff by {
                assert(values@.to_set().contains(values@[j]));
            }
        }
        let mut ords: Vec<u16> = Vec::new();
        let mut i: usize = 0;
        while i < values.len()
            invariant
                i <= values.len(),
                ords@.len() == i,
                forall|j: int| 0 <= j < i ==> ords@[j] as u32 == values@[j],
                forall|j: int| 0 <= j < values@.len() ==> values@[j] <= 0xffff,
            decreases values.len() - i,
        {
            ords.push(values[i] as u16);
            i += 1;
        }
        proof {
            assert forall|a: int, b: int| 0 <= a < b < ords@.len() implies ords@[a] < ords@[b] by {
                assert(values@[a] < values@[b]);
            }
            assert forall|o: u16| #[trigger] ords@.to_set().contains(o) <==> self@.contains(o) by {
                if ords@.to_set().contains(o) {
                    let j = choose|j: int| 0 <= j < ords@.len() && ords@[j] == o;
                    assert(values@.to_set().contains(values@[j]));
                }
                if self@.contains(o) {
                    assert(values@.to_set().contains(o as u32));
                    let j = choose|j: int| 0 <= j < values@.len() && values@[j] == o as u32;
                    assert(ords@[j] == o);
                }
            }
            assert(ords@.to_set() =~= self@);
            assert(self.listed_by(ords@));
            lemma_unique_listing(ords@, self.listing());
        }
        ords
    }

    /// The set as a concatenation of two-byte big-endian ordinals, in ascending order.
    pub fn to_bytes(&self) -> (bytes: Vec<u8>)
        ensures
            bytes@ == ordinal_bytes(self.listing()),
    {
        let ords = self.to_vec();
        let mut bytes: Vec<u8> = Vec::new();
        let mut i: usize = 0;
        while i < ords.len()
            invariant
                i <= ords.len(),
                bytes@ == ordinal_bytes(ords@.subrange(0, i as int)),
            decreases ords.len() - i,
        {
            let mut two = write_u16_be(ords[i]);
            proof {
                let next = ords@.subrange(0, i as int + 1);
                assert(next.drop_last() =~= ords@.subrange(0, i as int));
            }
            bytes.append(&mut two);
            i += 1;
        }
        assert(ords@.subrange(0, i as int) =~= ords@);
        bytes
    }

    /// The set in the format of the roaring crate. The bytes are read back as
    /// the set.
    pub fn serialize(&self) -> (bytes: Vec<u8>)
        ensures
            bytes@ == serialized_values(self.values()),
            DocIdSet::deserialized(bytes@) == Some(self@),
    {
        proof {
            use_type_invariant(self);
        }
        let bytes = bitmap_serialize(&self.data);
        proof {
            assert(self.values() =~= bitmap_values(self.data));
            let values = deserialized_values(bytes@).unwrap();
            assert forall|j: int| 0 <= j < values.len() implies values[j] <= 0xffff by {
                assert(values.to_set().contains(values[j]));
            }
            assert forall|o: u16|
                self@.contains(o) <==> DocIdSet::deserialized(bytes@).unwrap().contains(o) by {
                if self@.contains(o) {
                    assert(values.to_set().contains(o as u32));
                }
            }
            assert(DocIdSet::deserialized(bytes@).unwrap() =~= self@);
        }
        bytes
    }

    /// The set of the numbers, where every one of them is an ordinal.
    pub open spec fn of_values(values: Seq<u32>) -> Option<Set<u16>> {
        if forall|j: int| 0 <= j < values.len() ==> values[j] <= 0xffff {
            Some(Set::new(|ord: u16| values.contains(ord as u32)))
        } else {
            None
        }
    }

    /// The set that bytes in the format of the roaring crate spell: nothing where
    /// roaring refuses the bytes or reads a number that is no ordinal.
    pub open spec fn deserialized(bytes: Seq<u8>) -> Option<Set<u16>> {
        match deserialized_values(bytes) {
            Some(values) => DocIdSet::of_values(values),
            None => None,
        }
    }

    /// The set of the numbers. Fails exactly where one of them is no ordinal,
    /// that is, above 65535.
    pub fn from_values(values: &Vec<u32>) -> (set: Option<DocIdSet>)
        ensures
            match set {
                Some(set) => DocIdSet::of_values(values@) == Some(set@),
                None => DocIdSet::of_values(values@) is None,
            },
    {
        let mut set = DocIdSet::new();
        let mut i: usize = 0;
        while i < values.len()
            invariant
                i <= values.len(),
                forall|j: int| 0 <= j < i ==> values@[j] <= 0xffff,
                set@ == Set::new(|ord: u16| values@.subrange(0, i as int).contains(ord as u32)),
            decreases values.len() - i,
        {
            if values[i] > 0xffff {
                assert(values@[i as int] > 0xffff);
                return None;
            }
            let ghost before = set@;
            set.insert(values[i] as u16);
            proof {
                let head = values@.subrange(0, i as int);
                let next = values@.subrange(0, i as int + 1);
                assert(next =~= head.push(values@[i as int]));
                let grown = before.insert(values@[i as int] as u16);
                assert forall|o: u16| #[trigger] grown.contains(o) <==> next.contains(o as u32) by {
                    if next.contains(o as u32) {
                        let j = choose|j: int| 0 <= j < next.len() && next[j] == o as u32;
                        if j < i {
                            assert(head[j] == o as u32);
                        }
                    }
                    if head.contains(o as u32) {
                        let j = choose|j: int| 0 <= j < head.len() && head[j] == o as u32;
                        assert(next[j] == o as u32);
                    }
                    if o == values@[i as int] as u16 {
                        assert(next[i as int] == o as u32);
                    }
                }
                assert(set@ =~= Set::new(|ord: u16| next.contains(ord as u32)));
            }
            i += 1;
        }
        assert(values@.subrange(0, i as int) =~= values@);
        Some(set)
    }

    /// Reads a set in the format of the roaring crate.
    pub fn deserialize(bytes: &[u8]) -> (set: Option<DocIdSet>)
        ensures
            match set {
                Some(set) => DocIdSet::deserialized(bytes@) == Some(set@),
                None => DocIdSet::deserialized(bytes@) is None,
            },
    {
        match bitmap_deserialize(bytes) {
            None => None,
            Some(values) => DocIdSet::from_values(&values),
        }
    }

    /// The ordinals of the set in ascending order, as text for a reader: in
    /// decimal, in square brackets, with a comma and a space between two.
    pub fn to_debug_string(&self) -> (text: String)
        ensures
            encode_utf8(text@) == shown(self.listing()),
    {
        let ords = self.to_vec();
        let mut bytes: Vec<u8> = Vec::new();
        bytes.push(BRACKET_OPEN);
        let mut i: usize = 0;
        assert(ords@.subrange(0, 0) =~= Seq::<u16>::empty());
        assert(bytes@ =~= seq![BRACKET_OPEN] + joined(ords@.subrange(0, 0)));
        while i < ords.len()
            invariant
                i <= ords.len(),
                bytes@ == seq![BRACKET_OPEN] + joined(ords@.subrange(0, i as int)),
                forall|k: int| 0 <= k < bytes@.len() ==> #[trigger] bytes@[k] < 128,
            decreases ords.len() - i,
        {
            if i > 0 {
                bytes.push(COMMA);
                bytes.push(SPACE);
            }
            let digits = to_decimal(ords[i] as u32);
            let ghost before = bytes@;
            append_bytes(&mut bytes, digits.as_slice());
            proof {
                let done = ords@.subrange(0, i as int);
                let next = ords@.subrange(0, i + 1);
                assert(next.drop_last() =~= done);
                assert(next.last() == ords@[i as int]);
                lemma_value_of_digits(ords@[i as int] as nat);
                assert forall|k: int| 0 <= k < bytes@.len() implies #[trigger] bytes@[k] < 128 by {
                    if k >= before.len() {
                        assert(is_digit(digits@[k - before.len()]));
                    }
                }
                if i == 0 {
                    assert(joined(done) =~= Seq::<u8>::empty());
                    assert(bytes@ =~= seq![BRACKET_OPEN] + joined(next));
                } else {
                    assert(bytes@ =~= seq![BRACKET_OPEN] + (joined(done) + seq![COMMA, SPACE]
                        + digits@));
                }
            }
            i += 1;
        }
        bytes.push(BRACKET_CLOSE);
        proof {
            assert(ords@.subrange(0, i as int) =~= ords@);
            assert(bytes@ =~= shown(self.listing()));
            lemma_ascii_is_text(bytes@);
            decode_utf8_encode_utf8(bytes@);
        }
        match string_from_utf8(bytes.as_slice()) {
            Ok(text) => text,
            // Never taken: digits, brackets, commas and spaces are text.
            Err(_) => String::new(),
        }
    }

    /// The number of ordinals in the set.
    pub fn len(&self) -> (n: usize)
        ensures
            n == self.listing().len(),
            n <= 0x1_0000,
            self.listed_by(self.listing()),
    {
        let ords = self.to_vec();
        proof {
            lemma_listing_bound(ords@, ords@.len() as int);
        }
        ords.len()
    }
}

impl Clone for DocIdSet {
    fn clone(&self) -> (copy: DocIdSet)
        ensures
            copy@ == self@,
    {
        proof {
            use_type_invariant(self);
        }
        let copy = DocIdSet { data: bitmap_clone(&self.data) };
        assert(copy@ =~= self@);
        copy
    }
}

/// Ordinals spelled behind a whole number of ordinals are spelled beside them.
pub proof fn lemma_ordinals_concat(first: Seq<u8>, second: Seq<u8>)
    requires
        first.len() % 2 == 0,
    ensures
        ordinals_of(first + second) == ordinals_of(first).union(ordinals_of(second)),
{
    let all = first + second;
    let half = first.len() as int / 2;
    assert forall|ord: u16| #[trigger]
        ordinals_of(all).contains(ord) <==> ordinals_of(first).union(ordinals_of(second)).contains(
            ord,
        ) by {
        if ordinals_of(all).contains(ord) {
            let i = choose|i: int| 0 <= i && 2 * i + 2 <= all.len() && ordinal_at(all, i) == ord;
            if i < half {
                assert(all.subrange(2 * i, 2 * i + 2) =~= first.subrange(2 * i, 2 * i + 2));
                assert(ordinal_at(first, i) == ord);
            } else {
                let j = i - half;
                assert(all.subrange(2 * i, 2 * i + 2) =~= second.subrange(2 * j, 2 * j + 2));
                assert(ordinal_at(second, j) == ord);
            }
        }
        if ordinals_of(first).contains(ord) {
            let i = choose|i: int|
                0 <= i && 2 * i + 2 <= first.len() && ordinal_at(first, i) == ord;
            assert(all.subrange(2 * i, 2 * i + 2) =~= first.subrange(2 * i, 2 * i + 2));
            assert(ordinal_at(all, i) == ord);
        }
        if ordinals_of(second).contains(ord) {
            let j = choose|j: int|
                0 <= j && 2 * j + 2 <= second.len() && ordinal_at(second, j) == ord;
            let i = j + half;
            assert(all.subrange(2 * i, 2 * i + 2) =~= second.subrange(2 * j, 2 * j + 2));
            assert(ordinal_at(all, i) == ord);
        }
    }
    assert(ordinals_of(all) =~= ordinals_of(first).union(ordinals_of(second)));
}

/// The two bytes of an ordinal spell that ordinal alone.
pub proof fn lemma_ordinals_of_one(ord: u16)
    ensures
        ordinals_of(be_u16(ord)) == set![ord],
{
    let bytes = be_u16(ord);
    crate::encoding::lemma_decode_encode(ord, 0, 0, 0);
    assert(bytes.subrange(0, 2) =~= bytes);
    assert(ordinal_at(bytes, 0) == ord);
    assert forall|o: u16| #[trigger] ordinals_of(bytes).contains(o) <==> set![ord].contains(
        o,
    ) by {
        if ordinals_of(bytes).contains(o) {
            let i = choose|i: int| 0 <= i && 2 * i + 2 <= bytes.len() && ordinal_at(bytes, i) == o;
            assert(i == 0);
        }
    }
    assert(ordinals_of(bytes) =~= set![ord]);
}

/// An ascending listing is no longer than there are ordinals.
pub proof fn lemma_listing_bound(ords: Seq<u16>, n: int)
    requires
        increasing(ords),
        0 <= n <= ords.len(),
    ensures
        n > 0 ==> ords[n - 1] >= n - 1,
        n <= 0x1_0000,
    decreases n,
{
    if n > 1 {
        lemma_listing_bound(ords, n - 1);
        assert(ords[n - 2] < ords[n - 1]);
    }
}

/// A set has one ascending listing.
pub proof fn lemma_unique_listing(a: Seq<u16>, b: Seq<u16>)
    requires
        increasing(a),
        increasing(b),
        a.to_set() == b.to_set(),
    ensures
        a == b,
    decreases a.len(),
{
    if a.len() == 0 {
        if b.len() > 0 {
            assert(b.to_set().contains(b[0]));
            assert(a.to_set().contains(b[0]));
        }
        assert(a =~= b);
    } else {
        assert(a.to_set().contains(a.last()));
        assert(b.to_set().contains(a.last()));
        let jb = choose|j: int| 0 <= j < b.len() && b[j] == a.last();
        assert(b.to_set().contains(b.last()));
        assert(a.to_set().contains(b.last()));
        let ja = choose|j: int| 0 <= j < a.len() && a[j] == b.last();
        assert(a.last() == b.last());
        let a0 = a.drop_last();
        let b0 = b.drop_last();
        assert forall|o: u16| a0.to_set().contains(o) <==> b0.to_set().contains(o) by {
            if a0.to_set().contains(o) {
                let j = choose|j: int| 0 <= j < a0.len() && a0[j] == o;
                assert(a[j] == o);
                assert(a.to_set().contains(o));
                assert(b.to_set().contains(o));
                let k = choose|k: int| 0 <= k < b.len() && b[k] == o;
                assert(k < b.len() - 1);
                assert(b0[k] == o);
            }
            if b0.to_set().contains(o) {
                let j = choose|j: int| 0 <= j < b0.len() && b0[j] == o;
                assert(b[j] == o);
                assert(b.to_set().contains(o));
                assert(a.to_set().contains(o));
                let k = choose|k: int| 0 <= k < a.len() && a[k] == o;
                assert(k < a.len() - 1);
                assert(a0[k] == o);
            }
        }
        assert(a0.to_set() =~= b0.to_set());
        lemma_unique_listing(a0, b0);
        assert(a =~= a0.push(a.last()));
        assert(b =~= b0.push(b.last()));
    }
}

} // verus!
