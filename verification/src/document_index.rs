//! The index of unique keys: which document each key names.

use crate::assoc::{assoc_map, AssocVec, distinct_keys, lemma_assoc_entry, lemma_assoc_update};
use crate::doc_id_mapping::DocIdMapping;
use crate::doc_id_set::{
    DocIdSet, lemma_ordinals_concat, lemma_ordinals_of_one, listing_of, ordinal_bytes, ordinals_of,
};
use crate::document::{DocId, SegmentId};
use crate::encoding::{be_i64, be_u16, write_i64_be, write_u16_be};
use crate::key::{Key, KeyModel, StatisticKey, TAG_UNIQUE_KEY};
use crate::segment::{deleted_in, deletion_list_key};
use crate::term::copy_bytes;
use crate::write_batch::{apply_batch, apply_op, op_key, OpModel, stored, StoreModel, WriteBatch};
use vstd::prelude::*;

verus! {

/// The writes that record the deletion of a document: its ordinal joins the
/// deletion list of its segment, and the segment's count of deleted documents
/// grows by one.
pub open spec fn tombstone(doc_id: DocId) -> Seq<OpModel> {
    seq![
        OpModel::Merge {
            key: (KeyModel::DeletedDocument { segment_id: doc_id.0 }).encoding(),
            value: be_u16(doc_id.1),
        },
        OpModel::Merge {
            key: (KeyModel::Statistic {
                segment_id: doc_id.0,
                statistic: StatisticKey::DeletedDocs,
            }).encoding(),
            value: be_i64(1),
        },
    ]
}

/// The deletion list of the segment, where the store has one, spells a whole
/// number of ordinals.
pub open spec fn deletion_list_whole(store: StoreModel, segment: u32) -> bool {
    stored(store, deletion_list_key(segment)) matches Some(list) ==> list.len() % 2 == 0
}

/// Once the deletion of a document is recorded, the document is among the
/// deleted ones of its segment, every document that was deleted is deleted
/// still, and the deletion list still spells a whole number of ordinals.
pub proof fn lemma_tombstone_deletes(store: StoreModel, doc_id: DocId)
    requires
        deletion_list_whole(store, doc_id.0.0),
    ensures
        deleted_in(apply_batch(store, tombstone(doc_id)), doc_id.0.0) == deleted_in(
            store,
            doc_id.0.0,
        ).insert(doc_id.1),
        deletion_list_whole(apply_batch(store, tombstone(doc_id)), doc_id.0.0),
        forall|segment: u32|
            segment != doc_id.0.0 ==> stored(
                apply_batch(store, tombstone(doc_id)),
                #[trigger] deletion_list_key(segment),
            ) == stored(store, deletion_list_key(segment)),
{
    let ops = tombstone(doc_id);
    let key = deletion_list_key(doc_id.0.0);
    let first = ops[0];
    let second = ops[1];
    let after_first = apply_op(store, first);
    assert(Seq::<OpModel>::empty().push(first).push(second) =~= ops);
    crate::write_batch::lemma_apply_push(store, Seq::empty(), first);
    crate::write_batch::lemma_apply_push(store, Seq::<OpModel>::empty().push(first), second);
    assert(apply_batch(store, Seq::<OpModel>::empty()) == store);
    assert(apply_batch(store, ops) == apply_op(after_first, second));
    // The first write appends the ordinal to the list.
    let existing = stored(store, key);
    let operand = be_u16(doc_id.1);
    assert(key[0] == crate::key::TAG_DELETION_LIST);
    assert(seq![operand].drop_last() =~= Seq::<Seq<u8>>::empty());
    assert(crate::merge_operator::concat_all(seq![operand].drop_last()) =~= Seq::<u8>::empty());
    assert(crate::merge_operator::concat_all(seq![operand]) =~= operand);
    let list = crate::merge_operator::value_or_empty(existing);
    assert(after_first == store.insert(key, list + operand));
    lemma_ordinals_concat(list, operand);
    lemma_ordinals_of_one(doc_id.1);
    assert(deleted_in(store, doc_id.0.0) == ordinals_of(list)) by {
        if existing is None {
            assert(ordinals_of(Seq::<u8>::empty()) =~= Set::<u16>::empty());
        }
    }
    assert(ordinals_of(list).union(set![doc_id.1]) =~= ordinals_of(list).insert(doc_id.1));
    // The second write is about another key.
    let statistic = op_key(second);
    assert(statistic[0] == crate::key::TAG_STATISTIC);
    assert forall|segment: u32| statistic != #[trigger] deletion_list_key(segment) by {
        assert(deletion_list_key(segment)[0] == crate::key::TAG_DELETION_LIST);
    }
    let merged = crate::merge_operator::merged_value(
        statistic,
        stored(after_first, statistic),
        seq![be_i64(1)],
    );
    assert(stored(apply_op(after_first, second), key) == stored(after_first, key));
    assert forall|segment: u32| segment != doc_id.0.0 implies stored(
        apply_batch(store, ops),
        #[trigger] deletion_list_key(segment),
    ) == stored(store, deletion_list_key(segment)) by {
        let other = deletion_list_key(segment);
        if other == key {
            (KeyModel::DeletedDocument { segment_id: SegmentId(segment) }).lemma_encoding_injective(
                KeyModel::DeletedDocument { segment_id: doc_id.0 },
            );
        }
        assert(stored(after_first, other) == stored(store, other));
        assert(stored(apply_op(after_first, second), other) == stored(after_first, other));
    }
}

/// The write that stores which document a unique key names.
pub open spec fn location_put(key: Seq<u8>, doc_id: DocId) -> OpModel {
    OpModel::Put { key: (KeyModel::UniqueKey { key }).encoding(), value: doc_id.encoding() }
}

/// The entries of a scan that are read when the index is opened: those before
/// the first key that is not a unique key entry.
pub open spec fn scanned(entries: Seq<(Seq<u8>, Seq<u8>)>) -> Seq<(Seq<u8>, Seq<u8>)>
    decreases entries.len(),
{
    if entries.len() == 0 || !is_unique_key_entry(entries[0].0) {
        Seq::empty()
    } else {
        seq![entries[0]] + scanned(entries.drop_first())
    }
}

/// The key is that of a unique key entry.
pub open spec fn is_unique_key_entry(key: Seq<u8>) -> bool {
    key.len() > 0 && key[0] == TAG_UNIQUE_KEY
}

/// The index that a run of stored entries spells: each unique key to the
/// location in its value, a later entry replacing an earlier one of the same key.
pub open spec fn loaded(entries: Seq<(Seq<u8>, Seq<u8>)>) -> Map<Seq<u8>, DocId>
    decreases entries.len(),
{
    if entries.len() == 0 {
        Map::empty()
    } else {
        loaded(entries.drop_last()).insert(
            entries.last().0.subrange(1, entries.last().0.len() as int),
            DocId::decoding(entries.last().1).unwrap(),
        )
    }
}

/// Every value is a location.
pub open spec fn all_locations(entries: Seq<(Seq<u8>, Seq<u8>)>) -> bool {
    forall|i: int| 0 <= i < entries.len() ==> (#[trigger] entries[i]).1.len() == 6
}

/// The stored entries as byte strings.
pub open spec fn entry_views(entries: Seq<(Vec<u8>, Vec<u8>)>) -> Seq<(Seq<u8>, Seq<u8>)> {
    Seq::new(entries.len(), |i: int| (entries[i].0@, entries[i].1@))
}

/// Where a document is after a merge: at its new ordinal in the new segment if
/// the merge kept it, else where it was.
pub open spec fn relocated(doc_id: DocId, mapping: Map<DocId, u16>, dest: SegmentId) -> DocId {
    if mapping.contains_key(doc_id) {
        DocId(dest, mapping[doc_id])
    } else {
        doc_id
    }
}

/// The entries of the index after a merge: every key, naming its document where
/// that is after the merge.
pub open spec fn relocated_entries(
    entries: Seq<(Seq<u8>, DocId)>,
    mapping: Map<DocId, u16>,
    dest: SegmentId,
) -> Seq<(Seq<u8>, DocId)> {
    Seq::new(entries.len(), |i: int| (entries[i].0, relocated(entries[i].1, mapping, dest)))
}

/// The writes that store the new location of every key whose document a merge
/// kept, in the order of the entries.
pub open spec fn relocation_puts(
    entries: Seq<(Seq<u8>, DocId)>,
    mapping: Map<DocId, u16>,
    dest: SegmentId,
) -> Seq<OpModel>
    decreases entries.len(),
{
    if entries.len() == 0 {
        Seq::empty()
    } else {
        let before = relocation_puts(entries.drop_last(), mapping, dest);
        if mapping.contains_key(entries.last().1) {
            before.push(
                location_put(entries.last().0, relocated(entries.last().1, mapping, dest)),
            )
        } else {
            before
        }
    }
}

/// The new ordinals of those of the given documents of one segment that a merge kept.
pub open spec fn relocated_from(segment: u32, ords: Set<u16>, mapping: Map<DocId, u16>) -> Set<
    u16,
> {
    Set::new(
        |ord: u16|
            exists|source: u16|
                #[trigger] ords.contains(source) && mapping.contains_key(
                    DocId(SegmentId(segment), source),
                ) && mapping[DocId(SegmentId(segment), source)] == ord,
    )
}

/// The new ordinals of the documents that are deleted in the merged segments and
/// that the merge kept all the same: deletions that came while the merge ran.
pub open spec fn relocated_deletions(
    deletions: Seq<(u32, Set<u16>)>,
    mapping: Map<DocId, u16>,
) -> Set<u16>
    decreases deletions.len(),
{
    if deletions.len() == 0 {
        Set::empty()
    } else {
        relocated_deletions(deletions.drop_last(), mapping).union(
            relocated_from(deletions.last().0, deletions.last().1, mapping),
        )
    }
}

/// The deletion lists of segments as sets.
pub open spec fn deletion_views(deletions: Seq<(u32, DocIdSet)>) -> Seq<(u32, Set<u16>)> {
    Seq::new(deletions.len(), |i: int| (deletions[i].0, deletions[i].1@))
}

/// Which document each unique key names.
pub struct DocumentIndexManager {
    primary_key_index: AssocVec<Vec<u8>, DocId>,
}

impl DocumentIndexManager {
    /// The entries of the index, in the order in which the keys came.
    pub closed spec fn entries(&self) -> Seq<(Seq<u8>, DocId)> {
        self.primary_key_index.items()
    }

    /// No key has two entries.
    pub open spec fn wf(&self) -> bool {
        distinct_keys(self.entries())
    }

    /// The document that each key names.
    pub open spec fn view(&self) -> Map<Seq<u8>, DocId> {
        assoc_map(self.entries())
    }

    /// An index without keys.
    pub fn new() -> (index: DocumentIndexManager)
        ensures
            index.wf(),
            index.entries() == Seq::<(Seq<u8>, DocId)>::empty(),
            index@ == Map::<Seq<u8>, DocId>::empty(),
    {
        let index = DocumentIndexManager { primary_key_index: AssocVec::new() };
        assert(index@ =~= Map::<Seq<u8>, DocId>::empty());
        index
    }

    /// Loads the index from the stored entries that a scan from the first unique
    /// key entry on yields. Reading stops at the first key of another family.
    /// Fails where a value read is not a location.
    #[verifier::spinoff_prover]
    pub fn open(entries: &Vec<(Vec<u8>, Vec<u8>)>) -> (index: Option<DocumentIndexManager>)
        ensures
            index is Some <==> all_locations(scanned(entry_views(entries@))),
            index matches Some(index) ==> index.wf() && index@ == loaded(
                scanned(entry_views(entries@)),
            ),
    {
        let ghost views = entry_views(entries@);
        let mut index = DocumentIndexManager::new();
        let mut i: usize = 0;
        proof {
            assert(views.subrange(0, 0) =~= Seq::<(Seq<u8>, Seq<u8>)>::empty());
            assert(views.subrange(0, views.len() as int) =~= views);
        }
        while i < entries.len()
            invariant
                i <= entries.len(),
                views == entry_views(entries@),
                index.wf(),
                scanned(views) == views.subrange(0, i as int) + scanned(
                    views.subrange(i as int, views.len() as int),
                ),
                all_locations(views.subrange(0, i as int)),
                index@ == loaded(views.subrange(0, i as int)),
            decreases entries.len() - i,
        {
            let key = &entries[i].0;
            let value = &entries[i].1;
            let ghost rest = views.subrange(i as int, views.len() as int);
            let ghost head = views.subrange(0, i as int);
            proof {
                assert(rest[0] == views[i as int]);
                assert(rest.drop_first() =~= views.subrange(i as int + 1, views.len() as int));
            }
            if key.len() == 0 || key[0] != TAG_UNIQUE_KEY {
                proof {
                    assert(scanned(rest) =~= Seq::<(Seq<u8>, Seq<u8>)>::empty());
                    assert(scanned(views) =~= head);
                }
                return Some(index);
            }
            proof {
                let next = views.subrange(0, i as int + 1);
                assert(next =~= head + seq![views[i as int]]);
                assert(scanned(views) =~= next + scanned(
                    views.subrange(i as int + 1, views.len() as int),
                ));
                assert(next.drop_last() =~= head);
                assert(next.last() == views[i as int]);
            }
            match DocId::from_bytes(value.as_slice()) {
                None => {
                    proof {
                        assert(scanned(views)[i as int] == views[i as int]);
                        assert(scanned(views)[i as int].1.len() != 6);
                    }
                    return None;
                },
                Some(doc_id) => {
                    proof {
                        let next = views.subrange(0, i as int + 1);
                        assert forall|j: int| 0 <= j < next.len() implies (#[trigger] next[j]).1.len()
                            == 6 by {
                            if j < i {
                                assert(next[j] == head[j]);
                            }
                        }
                    }
                    let name = copy_bytes(&key.as_slice()[1..key.len()]);
                    index.set(name, doc_id);
                },
            }
            i += 1;
        }
        proof {
            assert(views.subrange(i as int, views.len() as int) =~= Seq::<
                (Seq<u8>, Seq<u8>),
            >::empty());
            assert(scanned(views) =~= views.subrange(0, i as int));
        }
        Some(index)
    }

    /// Makes `key` name `doc_id`, in the index alone; hands back the document
    /// that the key named before.
    fn set(&mut self, key: Vec<u8>, doc_id: DocId) -> (previous: Option<DocId>)
        requires
            old(self).wf(),
        ensures
            final(self).wf(),
            final(self)@ == old(self)@.insert(key@, doc_id),
            previous == (if old(self)@.contains_key(key@) {
                Some(old(self)@[key@])
            } else {
                None
            }),
            final(self).entries() == (match previous {
                Some(_) => old(self).entries().update(
                    crate::assoc::key_index(old(self).entries(), key@),
                    (key@, doc_id),
                ),
                None => old(self).entries().push((key@, doc_id)),
            }),
    {
        match self.primary_key_index.position(&key) {
            Some(i) => {
                proof {
                    lemma_assoc_entry(self.entries(), i as int);
                    lemma_assoc_update(self.entries(), i as int, doc_id);
                }
                let place = self.primary_key_index.value_mut(i);
                let previous = *place;
                *place = doc_id;
                Some(previous)
            },
            None => {
                self.primary_key_index.push(key, doc_id);
                None
            },
        }
    }

    /// Appends to the batch the writes that record the deletion of the document.
    /// Whether the document was there is not looked at.
    pub fn delete_document_by_ref_unchecked(write_batch: &mut WriteBatch, doc_ref: DocId)
        ensures
            final(write_batch)@ == old(write_batch)@ + tombstone(doc_ref),
    {
        let ordinal = write_u16_be(doc_ref.1);
        write_batch.merge(&Key::deleted_document(doc_ref), ordinal.as_slice());
        let one = write_i64_be(1);
        write_batch.merge(&Key::statistic(doc_ref.0, StatisticKey::DeletedDocs), one.as_slice());
        assert(write_batch@ =~= old(write_batch)@ + tombstone(doc_ref));
    }

    /// Makes `key` name `doc_ref`. Hands back the document that the key named
    /// before, if any, and the writes to commit: the key's new location and, where
    /// a document was replaced, the record of its deletion.
    ///
    /// The index of keys changes at once. Where the write of the batch can
    /// fail, `prepare_insert_or_replace` works the change out first.
    pub fn insert_or_replace_key(&mut self, key: &Vec<u8>, doc_ref: DocId) -> (result: (
        Option<DocId>,
        WriteBatch,
    ))
        requires
            old(self).wf(),
        ensures
            final(self).wf(),
            final(self)@ == old(self)@.insert(key@, doc_ref),
            result.0 == (if old(self)@.contains_key(key@) {
                Some(old(self)@[key@])
            } else {
                None
            }),
            result.1@ == seq![location_put(key@, doc_ref)] + (match result.0 {
                Some(previous) => tombstone(previous),
                None => Seq::empty(),
            }),
    {
        let mut write_batch = WriteBatch::new();
        let previous = self.set(copy_bytes(key.as_slice()), doc_ref);
        let location = doc_ref.to_bytes();
        write_batch.put(&Key::unique_key(key.as_slice()), location.as_slice());
        if let Some(previous_doc_ref) = previous {
            DocumentIndexManager::delete_document_by_ref_unchecked(
                &mut write_batch,
                previous_doc_ref,
            );
        }
        assert(write_batch@ =~= seq![location_put(key@, doc_ref)] + (match previous {
            Some(previous) => tombstone(previous),
            None => Seq::empty(),
        }));
        (previous, write_batch)
    }

    /// Takes `key` out of the index. Hands back the document that the key named,
    /// if any, and the writes to commit: the removal of the key's entry and the
    /// record of the document's deletion. Nothing is written where the key named
    /// no document.
    ///
    /// The index of keys changes at once. Where the write of the batch can
    /// fail, `prepare_delete` works the change out first.
    pub fn delete_document_by_key(&mut self, key: &Vec<u8>) -> (result: (
        Option<DocId>,
        WriteBatch,
    ))
        requires
            old(self).wf(),
        ensures
            final(self).wf(),
            final(self)@ == old(self)@.remove(key@),
            result.0 == (if old(self)@.contains_key(key@) {
                Some(old(self)@[key@])
            } else {
                None
            }),
            result.1@ == (match result.0 {
                Some(doc_id) => seq![
                    OpModel::Delete { key: (KeyModel::UniqueKey { key: key@ }).encoding() },
                ] + tombstone(doc_id),
                None => Seq::empty(),
            }),
    {
        let mut write_batch = WriteBatch::new();
        match self.primary_key_index.position(key) {
            Some(i) => {
                proof {
                    lemma_assoc_entry(self.entries(), i as int);
                }
                let entry = self.primary_key_index.remove_at(i);
                write_batch.delete(&Key::unique_key(key.as_slice()));
                DocumentIndexManager::delete_document_by_ref_unchecked(&mut write_batch, entry.1);
                assert(write_batch@ =~= seq![
                    OpModel::Delete { key: (KeyModel::UniqueKey { key: key@ }).encoding() },
                ] + tombstone(entry.1));
                (Some(entry.1), write_batch)
            },
            None => {
                assert(self@ =~= old(self)@.remove(key@));
                (None, write_batch)
            },
        }
    }

    /// Whether the key names a document.
    pub fn contains_document_key(&self, key: &Vec<u8>) -> (present: bool)
        ensures
            present == self@.contains_key(key@),
    {
        self.primary_key_index.position(key).is_some()
    }

    /// The document that `key` names, if it names one.
    pub fn get(&self, key: &Vec<u8>) -> (doc_id: Option<DocId>)
        requires
            self.wf(),
        ensures
            doc_id == (if self@.contains_key(key@) {
                Some(self@[key@])
            } else {
                None
            }),
    {
        match self.primary_key_index.position(key) {
            Some(i) => {
                proof {
                    lemma_assoc_entry(self.entries(), i as int);
                }
                Some(*self.primary_key_index.value_at(i))
            },
            None => None,
        }
    }

    /// Adds to `out` the new ordinals of those of the given documents of one
    /// merged segment that the merge kept.
    #[verifier::spinoff_prover]
    pub fn relocate_deletions(
        segment: u32,
        deleted: &DocIdSet,
        mapping: &DocIdMapping,
        out: &mut DocIdSet,
    )
        requires
            mapping.wf(),
        ensures
            final(out)@ == old(out)@.union(relocated_from(segment, deleted@, mapping@)),
    {
        let ords = deleted.to_vec();
        let mut j: usize = 0;
        assert(ords@.subrange(0, 0) =~= Seq::<u16>::empty());
        assert(out@ =~= old(out)@.union(
            relocated_from(segment, ords@.subrange(0, 0).to_set(), mapping@),
        ));
        while j < ords.len()
            invariant
                j <= ords.len(),
                mapping.wf(),
                out@ == old(out)@.union(
                    relocated_from(segment, ords@.subrange(0, j as int).to_set(), mapping@),
                ),
            decreases ords.len() - j,
        {
            let source = ords[j];
            let ghost done = ords@.subrange(0, j as int).to_set();
            let ghost next = ords@.subrange(0, j as int + 1).to_set();
            let ghost before = out@;
            proof {
                assert(ords@.subrange(0, j as int + 1) =~= ords@.subrange(0, j as int).push(
                    source,
                ));
                assert forall|o: u16| #[trigger] next.contains(o) <==> (o == source
                    || done.contains(o)) by {
                    let head = ords@.subrange(0, j as int);
                    let more = ords@.subrange(0, j as int + 1);
                    if more.contains(o) {
                        let k = choose|k: int| 0 <= k < more.len() && more[k] == o;
                        if k < j {
                            assert(head[k] == o);
                        }
                    }
                    if head.contains(o) {
                        let k = choose|k: int| 0 <= k < head.len() && head[k] == o;
                        assert(more[k] == o);
                    }
                    if o == source {
                        assert(more[j as int] == o);
                    }
                }
            }
            match mapping.get(DocId(SegmentId(segment), source)) {
                Some(ord) => {
                    out.insert(ord);
                    proof {
                        let grown = relocated_from(segment, next, mapping@);
                        let was = relocated_from(segment, done, mapping@);
                        assert forall|o: u16| #[trigger] grown.contains(o) <==> (o == ord
                            || was.contains(o)) by {
                            if grown.contains(o) {
                                let w = choose|w: u16|
                                    #[trigger] next.contains(w) && mapping@.contains_key(
                                        DocId(SegmentId(segment), w),
                                    ) && mapping@[DocId(SegmentId(segment), w)] == o;
                                if w != source {
                                    assert(done.contains(w));
                                }
                            }
                            if was.contains(o) {
                                let w = choose|w: u16|
                                    #[trigger] done.contains(w) && mapping@.contains_key(
                                        DocId(SegmentId(segment), w),
                                    ) && mapping@[DocId(SegmentId(segment), w)] == o;
                                assert(next.contains(w));
                            }
                            if o == ord {
                                assert(next.contains(source));
                            }
                        }
                        assert(out@ =~= old(out)@.union(grown));
                    }
                },
                None => {
                    proof {
                        let grown = relocated_from(segment, next, mapping@);
                        let was = relocated_from(segment, done, mapping@);
                        assert forall|o: u16| #[trigger] grown.contains(o) <==> was.contains(
                            o,
                        ) by {
                            if grown.contains(o) {
                                let w = choose|w: u16|
                                    #[trigger] next.contains(w) && mapping@.contains_key(
                                        DocId(SegmentId(segment), w),
                                    ) && mapping@[DocId(SegmentId(segment), w)] == o;
                                assert(done.contains(w));
                            }
                            if was.contains(o) {
                                let w = choose|w: u16|
                                    #[trigger] done.contains(w) && mapping@.contains_key(
                                        DocId(SegmentId(segment), w),
                                    ) && mapping@[DocId(SegmentId(segment), w)] == o;
                                assert(next.contains(w));
                            }
                        }
                        assert(grown =~= was);
                    }
                },
            }
            j += 1;
        }
        assert(ords@.subrange(0, j as int) =~= ords@);
    }

    /// Finishes a merge of segments. `write_batch` holds the writes of the new
    /// segment, `doc_ref_mapping` the new ordinal of each document kept, and
    /// `source_deletions` the deletion list of each merged segment as it is now.
    ///
    /// Every key whose document was kept is made to name the document's new
    /// place. The batch handed back is `write_batch`, then the new locations of
    /// those keys, then the deletion list of the new segment: the new ordinals
    /// of the kept documents that were deleted since.
    ///
    /// The index of keys changes at once. Where the write of the batch can
    /// fail, `prepare_segment_merge` works the change out first.
    #[verifier::spinoff_prover]
    pub fn commit_segment_merge(
        &mut self,
        write_batch: WriteBatch,
        source_deletions: &Vec<(u32, DocIdSet)>,
        dest_segment: u32,
        doc_ref_mapping: &DocIdMapping,
    ) -> (batch: WriteBatch)
        requires
            old(self).wf(),
            doc_ref_mapping.wf(),
        ensures
            final(self).wf(),
            final(self).entries() == relocated_entries(
                old(self).entries(),
                doc_ref_mapping@,
                SegmentId(dest_segment),
            ),
            batch@ == write_batch@ + relocation_puts(
                old(self).entries(),
                doc_ref_mapping@,
                SegmentId(dest_segment),
            ) + seq![
                OpModel::Put {
                    key: (KeyModel::DeletedDocument {
                        segment_id: SegmentId(dest_segment),
                    }).encoding(),
                    value: ordinal_bytes(
                        listing_of(
                            relocated_deletions(
                                deletion_views(source_deletions@),
                                doc_ref_mapping@,
                            ),
                        ),
                    ),
                },
            ],
    {
        let mut batch = write_batch;
        let ghost start = old(self).entries();
        let ghost mapping = doc_ref_mapping@;
        let ghost dest = SegmentId(dest_segment);

        // Keys whose documents were kept name the new locations.
        let mut i: usize = 0;
        assert(start.subrange(0, 0) =~= Seq::<(Seq<u8>, DocId)>::empty());
        assert(batch@ =~= write_batch@ + relocation_puts(start.subrange(0, 0), mapping, dest));
        while i < self.primary_key_index.len()
            invariant
                i <= self.entries().len(),
                start == old(self).entries(),
                mapping == doc_ref_mapping@,
                dest == SegmentId(dest_segment),
                doc_ref_mapping.wf(),
                self.entries().len() == start.len(),
                forall|j: int|
                    0 <= j < i ==> self.entries()[j] == relocated_entries(start, mapping, dest)[j],
                forall|j: int| i <= j < start.len() ==> self.entries()[j] == start[j],
                batch@ == write_batch@ + relocation_puts(
                    start.subrange(0, i as int),
                    mapping,
                    dest,
                ),
            decreases self.entries().len() - i,
        {
            let doc_ref = *self.primary_key_index.value_at(i);
            proof {
                let next = start.subrange(0, i as int + 1);
                assert(next.drop_last() =~= start.subrange(0, i as int));
                assert(next.last() == start[i as int]);
            }
            match doc_ref_mapping.get(doc_ref) {
                Some(new_doc_ord) => {
                    let new_doc_ref = DocId::from_segment_ord(dest_segment, new_doc_ord);
                    let location = new_doc_ref.to_bytes();
                    let key = Key::unique_key(self.primary_key_index.key_at(i).as_slice());
                    batch.put(&key, location.as_slice());
                    let place = self.primary_key_index.value_mut(i);
                    *place = new_doc_ref;
                    assert(batch@ =~= write_batch@ + relocation_puts(
                        start.subrange(0, i as int + 1),
                        mapping,
                        dest,
                    ));
                },
                None => {},
            }
            i += 1;
        }
        proof {
            assert(start.subrange(0, i as int) =~= start);
            assert(self.entries() =~= relocated_entries(start, mapping, dest));
            assert forall|a: int, b: int|
                0 <= a < self.entries().len() && 0 <= b < self.entries().len() && a
                    != b implies self.entries()[a].0 != self.entries()[b].0 by {
                assert(self.entries()[a].0 == start[a].0);
                assert(self.entries()[b].0 == start[b].0);
            }
        }

        // Deletions that came while the segments were merged are carried over.
        let ghost deletions = deletion_views(source_deletions@);
        let mut deletion_list = DocIdSet::new();
        let mut s: usize = 0;
        assert(deletions.subrange(0, 0) =~= Seq::<(u32, Set<u16>)>::empty());
        while s < source_deletions.len()
            invariant
                s <= source_deletions.len(),
                doc_ref_mapping.wf(),
                mapping == doc_ref_mapping@,
                deletions == deletion_views(source_deletions@),
                deletion_list@ == relocated_deletions(deletions.subrange(0, s as int), mapping),
            decreases source_deletions.len() - s,
        {
            proof {
                let next = deletions.subrange(0, s as int + 1);
                assert(next.drop_last() =~= deletions.subrange(0, s as int));
                assert(next.last() == deletions[s as int]);
            }
            DocumentIndexManager::relocate_deletions(
                source_deletions[s].0,
                &source_deletions[s].1,
                doc_ref_mapping,
                &mut deletion_list,
            );
            s += 1;
        }
        assert(deletions.subrange(0, s as int) =~= deletions);
        let deleted = deletion_list.to_bytes();
        batch.put(
            &Key::deleted_document(DocId::from_segment_ord(dest_segment, 0)),
            deleted.as_slice(),
        );
        batch
    }
}

impl Clone for DocumentIndexManager {
    /// Another index of the same keys and documents.
    fn clone(&self) -> (copy: DocumentIndexManager)
        ensures
            copy.entries() == self.entries(),
    {
        DocumentIndexManager { primary_key_index: self.primary_key_index.duplicate() }
    }
}

} // verus!
