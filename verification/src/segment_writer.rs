//! Writing a built segment: the batch that makes it part of the index.

use crate::bitmap::serialized_values;
use crate::doc_id_set::DocIdSet;
use crate::document::{DocId, SegmentId};
use crate::encoding::{be_i64, write_i64_be};
use crate::key::{Key, KeyModel, StatisticKey, ValueKind};
use crate::schema::FieldId;
use crate::segment_builder::{FieldTotals, LocalKind, SegmentBuilder, StoredValue};
use crate::term::TermId;
use crate::term_dictionary::{
    extends, fresh_count, grown_by, resolved_id, resolves, term_views, term_writes, TermDictionary,
};
use crate::write_batch::{OpModel, WriteBatch};
use vstd::prelude::*;

verus! {

/// The kind of a kept value with its term, if it has one, named by the id of the
/// term in the index.
pub open spec fn global_kind(kind: LocalKind, ids: Seq<TermId>) -> ValueKind {
    match kind {
        LocalKind::Value => ValueKind::Value,
        LocalKind::Length => ValueKind::Length,
        LocalKind::TermFrequency(id) => ValueKind::TermFrequency(ids[id as int]),
    }
}

/// The writes of one term directory: the directory itself, in the format of the
/// roaring crate, and the growth of the number of documents that have the term in
/// the field by the number of documents in the directory.
pub open spec fn directory_write(
    directory: ((u16, usize), DocIdSet),
    ids: Seq<TermId>,
    segment: SegmentId,
) -> Seq<OpModel> {
    seq![
        OpModel::Put {
            key: (KeyModel::TermDirectory {
                field_id: FieldId(directory.0.0),
                term_id: ids[directory.0.1 as int],
                segment_id: segment,
            }).encoding(),
            value: serialized_values(directory.1.values()),
        },
        OpModel::Merge {
            key: (KeyModel::Statistic {
                segment_id: segment,
                statistic: StatisticKey::TermDocFrequency(
                    FieldId(directory.0.0),
                    ids[directory.0.1 as int],
                ),
            }).encoding(),
            value: be_i64(directory.1.listing().len() as i64),
        },
    ]
}

/// The writes of the term directories, in their order.
pub open spec fn directory_writes(
    directories: Seq<((u16, usize), DocIdSet)>,
    ids: Seq<TermId>,
    segment: SegmentId,
) -> Seq<OpModel>
    decreases directories.len(),
{
    if directories.len() == 0 {
        Seq::empty()
    } else {
        directory_writes(directories.drop_last(), ids, segment) + directory_write(
            directories.last(),
            ids,
            segment,
        )
    }
}

/// The write of one kept value.
pub open spec fn stored_write(value: StoredValue, ids: Seq<TermId>, segment: SegmentId) -> OpModel {
    OpModel::Put {
        key: (KeyModel::DocumentFieldValue {
            doc_id: DocId(segment, value.ord),
            field_id: value.field,
            kind: global_kind(value.kind, ids),
        }).encoding(),
        value: value.value@,
    }
}

/// The writes of the kept values, in their order.
pub open spec fn stored_writes(
    stored: Seq<StoredValue>,
    ids: Seq<TermId>,
    segment: SegmentId,
) -> Seq<OpModel> {
    Seq::new(stored.len(), |i: int| stored_write(stored[i], ids, segment))
}

/// The writes of the totals of one field: the growth of its documents and of
/// its tokens.
pub open spec fn totals_write(totals: (u16, FieldTotals), segment: SegmentId) -> Seq<OpModel> {
    seq![
        OpModel::Merge {
            key: (KeyModel::Statistic {
                segment_id: segment,
                statistic: StatisticKey::TotalFieldDocs(FieldId(totals.0)),
            }).encoding(),
            value: be_i64(totals.1.docs),
        },
        OpModel::Merge {
            key: (KeyModel::Statistic {
                segment_id: segment,
                statistic: StatisticKey::TotalFieldTokens(FieldId(totals.0)),
            }).encoding(),
            value: be_i64(totals.1.tokens),
        },
    ]
}

/// The writes of the totals of the fields, in their order.
pub open spec fn totals_writes(totals: Seq<(u16, FieldTotals)>, segment: SegmentId) -> Seq<OpModel>
    decreases totals.len(),
{
    if totals.len() == 0 {
        Seq::empty()
    } else {
        totals_writes(totals.drop_last(), segment) + totals_write(totals.last(), segment)
    }
}

/// The write that counts the documents of the segment.
pub open spec fn total_docs_write(doc_count: nat, segment: SegmentId) -> OpModel {
    OpModel::Merge {
        key: (KeyModel::Statistic {
            segment_id: segment,
            statistic: StatisticKey::TotalDocs,
        }).encoding(),
        value: be_i64(doc_count as i64),
    }
}

/// The write that makes the segment live. It comes last: with it the segment
/// becomes part of the index.
pub open spec fn activation(segment: SegmentId) -> OpModel {
    OpModel::Put {
        key: (KeyModel::ActiveSegment { segment_id: segment }).encoding(),
        value: Seq::empty(),
    }
}

/// The writes of a segment, given the ids of its terms: the term directories,
/// the kept values, the statistics, and the activation.
pub open spec fn segment_writes(
    builder: SegmentBuilder,
    ids: Seq<TermId>,
    segment: SegmentId,
) -> Seq<OpModel> {
    directory_writes(builder.directories(), ids, segment) + stored_writes(
        builder.stored_values(),
        ids,
        segment,
    ) + seq![total_docs_write(builder.doc_count(), segment)] + totals_writes(
        builder.totals(),
        segment,
    ) + seq![activation(segment)]
}

/// The ids of the terms once all have one.
pub open spec fn resolved_ids(
    known: Map<Seq<u8>, TermId>,
    next_id: u32,
    terms: Seq<Seq<u8>>,
) -> Seq<TermId> {
    Seq::new(terms.len(), |i: int| resolved_id(known, next_id, terms, i))
}

/// Appends the writes of the term directories.
fn write_directories(
    builder: &SegmentBuilder,
    ids: &Vec<TermId>,
    segment_id: SegmentId,
    batch: &mut WriteBatch,
)
    requires
        builder.wf(),
        ids@.len() == builder.terms().len(),
    ensures
        final(batch)@ == old(batch)@ + directory_writes(builder.directories(), ids@, segment_id),
{
    let ghost start = batch@;
    let ghost directories = builder.directories();
    let mut i: usize = 0;
    assert(directories.subrange(0, 0) =~= Seq::<((u16, usize), DocIdSet)>::empty());
    assert(batch@ =~= start + directory_writes(directories.subrange(0, 0), ids@, segment_id));
    while i < builder.directory_count()
        invariant
            i <= directories.len(),
            directories == builder.directories(),
            builder.wf(),
            ids@.len() == builder.terms().len(),
            batch@ == start + directory_writes(directories.subrange(0, i as int), ids@, segment_id),
        decreases directories.len() - i,
    {
        let directory = builder.directory(i);
        let ghost before = batch@;
        proof {
            let next = directories.subrange(0, i as int + 1);
            assert(next.drop_last() =~= directories.subrange(0, i as int));
            assert(next.last() == directories[i as int]);
            assert(directories[i as int].0.1 < builder.terms().len());
        }
        let term_id = ids[directory.1];
        let serialized = directory.2.serialize();
        batch.put(&Key::term_directory(directory.0, term_id, segment_id), serialized.as_slice());
        let frequency = write_i64_be(directory.2.len() as i64);
        batch.merge(
            &Key::statistic(segment_id, StatisticKey::TermDocFrequency(directory.0, term_id)),
            frequency.as_slice(),
        );
        assert(batch@ =~= before + directory_write(directories[i as int], ids@, segment_id));
        i += 1;
    }
    assert(directories.subrange(0, i as int) =~= directories);
}

/// Appends the writes of the kept values.
fn write_stored(
    builder: &SegmentBuilder,
    ids: &Vec<TermId>,
    segment_id: SegmentId,
    batch: &mut WriteBatch,
)
    requires
        builder.wf(),
        ids@.len() == builder.terms().len(),
    ensures
        final(batch)@ == old(batch)@ + stored_writes(builder.stored_values(), ids@, segment_id),
{
    let ghost stored = builder.stored_values();
    let ghost start = batch@;
    let ghost all = stored_writes(stored, ids@, segment_id);
    let mut k: usize = 0;
    assert(batch@ =~= start + all.subrange(0, 0));
    while k < builder.stored_count()
        invariant
            k <= stored.len(),
            stored == builder.stored_values(),
            all == stored_writes(stored, ids@, segment_id),
            builder.wf(),
            ids@.len() == builder.terms().len(),
            batch@ == start + all.subrange(0, k as int),
        decreases stored.len() - k,
    {
        let value = builder.stored_at(k);
        let kind = match value.kind {
            LocalKind::Value => ValueKind::Value,
            LocalKind::Length => ValueKind::Length,
            LocalKind::TermFrequency(id) => {
                assert(stored[k as int].kind == LocalKind::TermFrequency(id));
                ValueKind::TermFrequency(ids[id])
            },
        };
        batch.put(
            &Key::stored_value(DocId(segment_id, value.ord), value.field, kind),
            value.value.as_slice(),
        );
        assert(all.subrange(0, k as int + 1) =~= all.subrange(0, k as int).push(all[k as int]));
        k += 1;
    }
    assert(all.subrange(0, k as int) =~= all);
}

/// Appends the writes of the number of documents and of the totals of the fields.
fn write_statistics(builder: &SegmentBuilder, segment_id: SegmentId, batch: &mut WriteBatch)
    ensures
        final(batch)@ == old(batch)@ + seq![total_docs_write(builder.doc_count(), segment_id)]
            + totals_writes(builder.totals(), segment_id),
{
    let total = write_i64_be(builder.documents() as i64);
    batch.merge(&Key::statistic(segment_id, StatisticKey::TotalDocs), total.as_slice());
    let ghost totals = builder.totals();
    let ghost start = batch@;
    assert(start =~= old(batch)@ + seq![total_docs_write(builder.doc_count(), segment_id)]);
    let mut t: usize = 0;
    assert(totals.subrange(0, 0) =~= Seq::<(u16, FieldTotals)>::empty());
    assert(batch@ =~= start + totals_writes(totals.subrange(0, 0), segment_id));
    while t < builder.totals_count()
        invariant
            t <= totals.len(),
            totals == builder.totals(),
            batch@ == start + totals_writes(totals.subrange(0, t as int), segment_id),
        decreases totals.len() - t,
    {
        let field_totals = builder.totals_at(t);
        let ghost before = batch@;
        proof {
            let next = totals.subrange(0, t as int + 1);
            assert(next.drop_last() =~= totals.subrange(0, t as int));
            assert(next.last() == totals[t as int]);
        }
        let docs = write_i64_be(field_totals.1.docs);
        batch.merge(
            &Key::statistic(segment_id, StatisticKey::TotalFieldDocs(field_totals.0)),
            docs.as_slice(),
        );
        let tokens = write_i64_be(field_totals.1.tokens);
        batch.merge(
            &Key::statistic(segment_id, StatisticKey::TotalFieldTokens(field_totals.0)),
            tokens.as_slice(),
        );
        assert(batch@ =~= before + totals_write(totals[t as int], segment_id));
        t += 1;
    }
    assert(totals.subrange(0, t as int) =~= totals);
}

/// The batch that writes the built segment under the id `segment_id`.
///
/// The terms of the segment get their ids from the dictionary, new terms new
/// ones; the batch records the new terms, then writes the term directories, the
/// kept values and the statistics, and last makes the segment live. Fails,
/// changing nothing, exactly where the dictionary has fewer ids left than the
/// segment has terms.
#[verifier::spinoff_prover]
pub fn write_segment(
    builder: &SegmentBuilder,
    segment_id: SegmentId,
    dictionary: &mut TermDictionary,
) -> (batch: Option<WriteBatch>)
    requires
        builder.wf(),
        old(dictionary).wf(),
    ensures
        final(dictionary).wf(),
        batch is Some <==> old(dictionary).next_id() + builder.terms().len() <= u32::MAX,
        match batch {
            Some(batch) => {
                let ids = resolved_ids(
                    old(dictionary)@,
                    old(dictionary).next_id(),
                    builder.terms(),
                );
                &&& batch@ == term_writes(
                    old(dictionary)@,
                    old(dictionary).next_id(),
                    builder.terms(),
                ) + segment_writes(*builder, ids, segment_id)
                &&& resolves(final(dictionary)@, builder.terms(), ids, builder.terms().len() as int)
                &&& extends(old(dictionary)@, final(dictionary)@)
                &&& grown_by(
                    old(dictionary)@,
                    final(dictionary)@,
                    builder.terms(),
                    builder.terms().len() as int,
                )
                &&& final(dictionary).next_id() == old(dictionary).next_id() + fresh_count(
                    old(dictionary)@,
                    builder.terms(),
                )
            },
            None => {
                &&& final(dictionary).entries() == old(dictionary).entries()
                &&& final(dictionary).next_id() == old(dictionary).next_id()
            },
        },
{
    let mut batch = WriteBatch::new();
    let terms = builder.term_list();
    assert(term_views(terms@) =~= builder.terms());
    let ids = match dictionary.resolve_all(terms, &mut batch) {
        Some(ids) => ids,
        None => {
            return None;
        },
    };
    let ghost resolved = resolved_ids(old(dictionary)@, old(dictionary).next_id(), builder.terms());
    assert(ids@ =~= resolved);
    let ghost recorded = batch@;
    write_directories(builder, &ids, segment_id, &mut batch);
    write_stored(builder, &ids, segment_id, &mut batch);
    write_statistics(builder, segment_id, &mut batch);
    // The segment goes live with the last write.
    let nothing: Vec<u8> = Vec::new();
    batch.put(&Key::active_segment(segment_id), nothing.as_slice());
    assert(batch@ =~= recorded + segment_writes(*builder, resolved, segment_id));
    Some(batch)
}

} // verus!
