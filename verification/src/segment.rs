//! Segments as they are read: views on the entries of a store.

use crate::assoc::bytes_eq;
use crate::doc_id_set::{DocIdSet, ordinals_of};
use crate::document::{DocId, SegmentId};
use crate::encoding::{be_u16, be_u32, i64_of_be, read_i64_be};
use crate::key::{append_bytes, Key, KeyModel, StatisticKey, TAG_FIELD_VALUE, TAG_STATISTIC};
use crate::schema::FieldId;
use crate::term::{copy_bytes, TermId};
use crate::write_batch::{stored, StoreModel};
use vstd::prelude::*;

verus! {

/// The key of a statistic of a segment, the statistic given by its name.
pub open spec fn statistic_key(segment: u32, name: Seq<u8>) -> Seq<u8> {
    seq![TAG_STATISTIC] + be_u32(segment) + name
}

/// The key of a value kept for a field of a document, the kind given by its name.
pub open spec fn stored_value_key(segment: u32, ord: u16, field: FieldId, kind: Seq<u8>) -> Seq<
    u8,
> {
    seq![TAG_FIELD_VALUE] + be_u32(segment) + be_u16(ord) + be_u16(field.0) + kind
}

/// The bytes of the key of a statistic of a segment, the statistic given by its
/// name.
pub fn statistic_key_bytes(segment: u32, stat_name: &[u8]) -> (key: Vec<u8>)
    ensures
        key@ == statistic_key(segment, stat_name@),
{
    let mut key: Vec<u8> = Vec::new();
    key.push(TAG_STATISTIC);
    let mut part = crate::encoding::write_u32_be(segment);
    key.append(&mut part);
    append_bytes(&mut key, stat_name);
    assert(key@ =~= statistic_key(segment, stat_name@));
    key
}

/// The bytes of the key of a value kept for a field of a document, the kind
/// given by its name.
pub fn stored_value_key_bytes(segment: u32, doc_ord: u16, field_id: FieldId, value_type: &[u8]) -> (key:
    Vec<u8>)
    ensures
        key@ == stored_value_key(segment, doc_ord, field_id, value_type@),
{
    let mut key: Vec<u8> = Vec::new();
    key.push(TAG_FIELD_VALUE);
    let mut part = crate::encoding::write_u32_be(segment);
    key.append(&mut part);
    let mut part = crate::encoding::write_u16_be(doc_ord);
    key.append(&mut part);
    let mut part = crate::encoding::write_u16_be(field_id.0);
    key.append(&mut part);
    append_bytes(&mut key, value_type);
    assert(key@ =~= stored_value_key(segment, doc_ord, field_id, value_type@));
    key
}

/// The key of a term directory of a segment.
pub open spec fn term_directory_key(segment: u32, field: FieldId, term: TermId) -> Seq<u8> {
    (KeyModel::TermDirectory {
        field_id: field,
        term_id: term,
        segment_id: SegmentId(segment),
    }).encoding()
}

/// The key of the deletion list of a segment.
pub open spec fn deletion_list_key(segment: u32) -> Seq<u8> {
    (KeyModel::DeletedDocument { segment_id: SegmentId(segment) }).encoding()
}

/// The counter that a stored value stands for: nothing where there is no value
/// or the value is not of eight bytes.
pub open spec fn counter_in(value: Option<Seq<u8>>) -> Option<i64> {
    match value {
        Some(value) => if value.len() == 8 {
            Some(i64_of_be(value))
        } else {
            None
        },
        None => None,
    }
}

/// Reads a counter out of the value stored for it, if one is stored.
pub fn read_counter(value: Option<&[u8]>) -> (counter: Option<i64>)
    ensures
        counter == counter_in(crate::merge_operator::optional_bytes(value)),
{
    match value {
        Some(value) => {
            if value.len() == 8 {
                Some(read_i64_be(value))
            } else {
                None
            }
        },
        None => None,
    }
}

/// The statistic as the store has it: nothing where the key is absent or its
/// value is not a counter of eight bytes.
pub open spec fn statistic_in(store: StoreModel, segment: u32, name: Seq<u8>) -> Option<i64> {
    counter_in(stored(store, statistic_key(segment, name)))
}

/// The ordinals of the documents of the segment that have the term in the field,
/// as the store has them: none where the key is absent or its value is no set in
/// the format of the roaring crate.
pub open spec fn posting_in(store: StoreModel, segment: u32, field: FieldId, term: TermId) -> Set<
    u16,
> {
    match stored(store, term_directory_key(segment, field, term)) {
        Some(value) => match DocIdSet::deserialized(value) {
            Some(set) => set,
            None => Set::empty(),
        },
        None => Set::empty(),
    }
}

/// The ordinals of the deleted documents of the segment, as the store has them.
pub open spec fn deleted_in(store: StoreModel, segment: u32) -> Set<u16> {
    match stored(store, deletion_list_key(segment)) {
        Some(value) => ordinals_of(value),
        None => Set::empty(),
    }
}

/// A segment of an index, for reading. It shows the entries of a store as they
/// were at one moment.
///
/// The methods that load fail where the store fails; what they return
/// otherwise is what the entries spell.
pub trait Segment {
    /// The entries that the segment shows. A segment that does not say what
    /// it shows shows what its loads return.
    open spec fn entries(&self) -> StoreModel {
        arbitrary()
    }

    /// The id of the segment: the one that `id` returns.
    open spec fn segment_id(&self) -> u32 {
        arbitrary()
    }

    /// The store behind the segment does not fail: every load succeeds. A
    /// segment that does not say so is not relied on.
    open spec fn reliable(&self) -> bool {
        false
    }

    fn load_statistic(&self, stat_name: &[u8]) -> (value: Result<Option<i64>, String>)
        ensures
            self.reliable() ==> value is Ok,
            value matches Ok(value) ==> value == statistic_in(
                self.entries(),
                self.segment_id(),
                stat_name@,
            ),
    ;

    fn load_stored_field_value_raw(&self, doc_ord: u16, field_id: FieldId, value_type: &[u8]) -> (value:
        Result<Option<Vec<u8>>, String>)
        ensures
            self.reliable() ==> value is Ok,
            value matches Ok(value) ==> (match value {
                Some(bytes) => stored(
                    self.entries(),
                    stored_value_key(self.segment_id(), doc_ord, field_id, value_type@),
                ) == Some(bytes@),
                None => stored(
                    self.entries(),
                    stored_value_key(self.segment_id(), doc_ord, field_id, value_type@),
                ) is None,
            }),
    ;

    fn load_term_directory(&self, field_id: FieldId, term_id: TermId) -> (directory: Result<
        Option<DocIdSet>,
        String,
    >)
        ensures
            self.reliable() ==> directory is Ok,
            directory matches Ok(directory) ==> (match directory {
                Some(set) => set@ == posting_in(
                    self.entries(),
                    self.segment_id(),
                    field_id,
                    term_id,
                ),
                None => posting_in(self.entries(), self.segment_id(), field_id, term_id)
                    == Set::<u16>::empty(),
            }),
    ;

    fn load_deletion_list(&self) -> (deleted: Result<Option<DocIdSet>, String>)
        ensures
            self.reliable() ==> deleted is Ok,
            deleted matches Ok(deleted) ==> (match deleted {
                Some(set) => set@ == deleted_in(self.entries(), self.segment_id()),
                None => deleted_in(self.entries(), self.segment_id()) == Set::<u16>::empty(),
            }),
    ;

    fn id(&self) -> (id: u32)
        ensures
            id == self.segment_id(),
    ;

    /// The id of the document at an ordinal of this segment.
    fn doc_id(&self, ord: u16) -> (doc_id: DocId)
        ensures
            doc_id == DocId(SegmentId(self.segment_id()), ord),
    {
        DocId::from_segment_ord(self.id(), ord)
    }
}

/// The map that a list of entries spells: each key to its value, the first
/// entry of a key counting.
pub open spec fn entries_map(entries: Seq<(Vec<u8>, Vec<u8>)>) -> StoreModel {
    Map::new(
        |key: Seq<u8>| exists|i: int| 0 <= i < entries.len() && (#[trigger] entries[i]).0@ == key,
        |key: Seq<u8>| entries[first_entry(entries, key)].1@,
    )
}

/// The place of the first entry of a key.
pub open spec fn first_entry(entries: Seq<(Vec<u8>, Vec<u8>)>, key: Seq<u8>) -> int {
    choose|i: int|
        0 <= i < entries.len() && (#[trigger] entries[i]).0@ == key && forall|j: int|
            0 <= j < i ==> (#[trigger] entries[j]).0@ != key
}

/// A segment over entries held in memory.
pub struct MemorySegment<'a> {
    id: u32,
    entries: &'a Vec<(Vec<u8>, Vec<u8>)>,
}

impl<'a> MemorySegment<'a> {
    /// The segment `id` over the given entries of a store. Of two entries with
    /// one key the first counts.
    pub fn new(id: u32, entries: &'a Vec<(Vec<u8>, Vec<u8>)>) -> (segment: MemorySegment<'a>)
        ensures
            segment.segment_id() == id,
            segment.entries() == entries_map(entries@),
    {
        MemorySegment { id, entries }
    }

    /// Whether the segment is live: its key among the active segments is present.
    pub fn is_active(&self) -> (active: bool)
        ensures
            active == self.entries().contains_key(
                (KeyModel::ActiveSegment { segment_id: SegmentId(self.segment_id()) }).encoding(),
            ),
    {
        let key = Key::active_segment(SegmentId(self.id)).to_bytes();
        self.get(&key).is_some()
    }

    /// The number of documents that the segment ever took, as its statistic
    /// has it: none where there is no count or the count is no number of
    /// documents.
    pub fn total_docs(&self) -> (count: u32)
        ensures
            count == crate::search::total_docs_in(self.entries(), self.segment_id()),
    {
        let mut key: Vec<u8> = Vec::new();
        key.push(TAG_STATISTIC);
        let mut segment = crate::encoding::write_u32_be(self.id);
        key.append(&mut segment);
        let name = StatisticKey::TotalDocs.to_bytes();
        append_bytes(&mut key, name.as_slice());
        assert(key@ =~= statistic_key(self.id, crate::key::name_total_docs()));
        match self.get(&key) {
            Some(value) => {
                if value.len() == 8 {
                    let count = read_i64_be(value.as_slice());
                    if 0 <= count && count <= 0x1_0000 {
                        count as u32
                    } else {
                        0
                    }
                } else {
                    0
                }
            },
            None => 0,
        }
    }

    /// The ordinals of the deleted documents of the segment.
    pub fn deleted(&self) -> (deleted: DocIdSet)
        ensures
            deleted@ == deleted_in(self.entries(), self.segment_id()),
    {
        let key = Key::deleted_document(DocId(SegmentId(self.id), 0)).to_bytes();
        match self.get(&key) {
            Some(value) => DocIdSet::from_bytes(copy_bytes(value.as_slice())),
            None => DocIdSet::new(),
        }
    }

    /// The ordinals of the documents of the segment that have the term in the
    /// field.
    pub fn posting(&self, field_id: FieldId, term_id: TermId) -> (posting: DocIdSet)
        ensures
            posting@ == posting_in(self.entries(), self.segment_id(), field_id, term_id),
    {
        let key = Key::term_directory(field_id, term_id, SegmentId(self.id)).to_bytes();
        match self.get(&key) {
            Some(value) => match DocIdSet::deserialize(value.as_slice()) {
                Some(set) => set,
                None => DocIdSet::new(),
            },
            None => DocIdSet::new(),
        }
    }

    /// The value of a key, if the key is present.
    pub fn get(&self, key: &Vec<u8>) -> (value: Option<&Vec<u8>>)
        ensures
            match value {
                Some(value) => stored(self.entries(), key@) == Some(value@),
                None => stored(self.entries(), key@) is None,
            },
    {
        let mut i: usize = 0;
        while i < self.entries.len()
            invariant
                i <= self.entries.len(),
                forall|j: int| 0 <= j < i ==> (#[trigger] self.entries@[j]).0@ != key@,
            decreases self.entries.len() - i,
        {
            if bytes_eq(self.entries[i].0.as_slice(), key.as_slice()) {
                proof {
                    let found = first_entry(self.entries@, key@);
                    assert(self.entries@[i as int].0@ == key@);
                    if found < i {
                        assert(self.entries@[found].0@ != key@);
                    }
                    if found > i {
                        assert(self.entries@[i as int].0@ != key@);
                    }
                }
                return Some(&self.entries[i].1);
            }
            i += 1;
        }
        None
    }
}

impl<'a> Segment for MemorySegment<'a> {
    closed spec fn entries(&self) -> StoreModel {
        entries_map(self.entries@)
    }

    closed spec fn segment_id(&self) -> u32 {
        self.id
    }

    open spec fn reliable(&self) -> bool {
        true
    }

    fn load_statistic(&self, stat_name: &[u8]) -> (value: Result<Option<i64>, String>) {
        let key = statistic_key_bytes(self.id, stat_name);
        match self.get(&key) {
            Some(value) => Ok(read_counter(Some(value.as_slice()))),
            None => Ok(read_counter(None)),
        }
    }

    fn load_stored_field_value_raw(&self, doc_ord: u16, field_id: FieldId, value_type: &[u8]) -> (value:
        Result<Option<Vec<u8>>, String>) {
        let key = stored_value_key_bytes(self.id, doc_ord, field_id, value_type);
        match self.get(&key) {
            Some(value) => Ok(Some(copy_bytes(value.as_slice()))),
            None => Ok(None),
        }
    }

    fn load_term_directory(&self, field_id: FieldId, term_id: TermId) -> (directory: Result<
        Option<DocIdSet>,
        String,
    >) {
        let key = Key::term_directory(field_id, term_id, SegmentId(self.id)).to_bytes();
        match self.get(&key) {
            Some(value) => Ok(DocIdSet::deserialize(value.as_slice())),
            None => Ok(None),
        }
    }

    fn load_deletion_list(&self) -> (deleted: Result<Option<DocIdSet>, String>) {
        let key = Key::deleted_document(DocId(SegmentId(self.id), 0)).to_bytes();
        match self.get(&key) {
            Some(value) => Ok(Some(DocIdSet::from_bytes(copy_bytes(value.as_slice())))),
            None => Ok(None),
        }
    }

    fn id(&self) -> (id: u32) {
        self.id
    }
}

} // verus!
