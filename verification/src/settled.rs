//! What holds of every store that the index writes, and that every batch of
//! the index keeps: no entry is of a segment whose id was not handed out yet,
//! and every deletion list spells a whole number of ordinals.

use crate::doc_id_set::ordinal_bytes;
use crate::document::{DocId, SegmentId};
use crate::document_index::{
    deletion_list_whole, location_put, relocated, relocation_puts, tombstone,
};
use crate::key::{KeyModel, TAG_DELETION_LIST};
use crate::schema::FieldId;
use crate::segment::{deletion_list_key, term_directory_key};
use crate::segment_builder::{FieldTotals, StoredValue};
use crate::segment_ops::{merged_directory_write, MergeModel, purge_write, purge_writes};
use crate::segment_writer::{
    activation, directory_write, directory_writes, stored_write, stored_writes, total_docs_write,
    totals_write, totals_writes,
};
use crate::term::TermId;
use crate::term_dictionary::{fresh_count, term_creation, term_writes};
use crate::write_batch::{
    apply_batch, apply_op, lemma_apply_push, op_key, OpModel, stored, StoreModel,
};
use vstd::prelude::*;

verus! {

/// The segment that a key is of, for a key that is of a segment.
pub open spec fn model_segment(key: KeyModel) -> Option<u32> {
    match key {
        KeyModel::ActiveSegment { segment_id } => Some(segment_id.0),
        KeyModel::DocumentFieldValue { doc_id, .. } => Some(doc_id.0.0),
        KeyModel::DeletedDocument { segment_id } => Some(segment_id.0),
        KeyModel::TermDirectory { segment_id, .. } => Some(segment_id.0),
        KeyModel::Statistic { segment_id, .. } => Some(segment_id.0),
        _ => None,
    }
}

/// The segment that the bytes of a key are of, if they are of one.
pub open spec fn key_segment(key: Seq<u8>) -> Option<u32> {
    match KeyModel::decoding(key) {
        Some(key) => model_segment(key),
        None => None,
    }
}

/// The key is of no segment or of one below `next`.
pub open spec fn below(key: Seq<u8>, next: u32) -> bool {
    key_segment(key) matches Some(segment) ==> segment < next
}

/// The key is that of a deletion list.
pub open spec fn is_deletion_list(key: Seq<u8>) -> bool {
    KeyModel::decoding(key) matches Some(KeyModel::DeletedDocument { .. })
}

/// The store is one that the index wrote while `next` was the id of its next
/// segment: every entry of a segment is of a segment below `next`, and every
/// deletion list spells a whole number of ordinals.
pub open spec fn settled(store: StoreModel, next: u32) -> bool {
    &&& forall|key: Seq<u8>| store.contains_key(key) ==> #[trigger] below(key, next)
    &&& forall|segment: u32| #[trigger] deletion_list_whole(store, segment)
}

/// A write that keeps a store settled: it removes, or it writes under a key
/// below `next`, and to a deletion list a whole number of ordinals.
pub open spec fn tame_op(op: OpModel, next: u32) -> bool {
    match op {
        OpModel::Delete { .. } => true,
        OpModel::Put { key, value } => below(key, next) && (is_deletion_list(key) ==> value.len()
            % 2 == 0),
        OpModel::Merge { key, value } => below(key, next) && (is_deletion_list(key)
            ==> value.len() % 2 == 0),
    }
}

/// Every write keeps a store settled.
pub open spec fn tame(ops: Seq<OpModel>, next: u32) -> bool {
    forall|i: int| 0 <= i < ops.len() ==> tame_op(#[trigger] ops[i], next)
}

/// The segment of the bytes of a key is the segment of the key.
pub proof fn lemma_segment_of_key(key: KeyModel)
    ensures
        key_segment(key.encoding()) == model_segment(key),
        is_deletion_list(key.encoding()) == (key is DeletedDocument),
{
    key.lemma_decoding_of_encoding();
}

/// A write that puts under a key of no segment, or of a segment below `next`
/// and no deletion list, is tame.
pub proof fn lemma_tame_put(key: KeyModel, value: Seq<u8>, next: u32)
    requires
        model_segment(key) matches Some(segment) ==> segment < next,
        key is DeletedDocument ==> value.len() % 2 == 0,
    ensures
        tame_op(OpModel::Put { key: key.encoding(), value }, next),
        tame_op(OpModel::Merge { key: key.encoding(), value }, next),
{
    lemma_segment_of_key(key);
}

/// Tame writes, one after the other, are tame.
pub proof fn lemma_tame_concat(first: Seq<OpModel>, second: Seq<OpModel>, next: u32)
    requires
        tame(first, next),
        tame(second, next),
    ensures
        tame(first + second, next),
{
    assert forall|i: int| 0 <= i < (first + second).len() implies tame_op(
        #[trigger] (first + second)[i],
        next,
    ) by {
        if i < first.len() {
            assert((first + second)[i] == first[i]);
        } else {
            assert((first + second)[i] == second[i - first.len()]);
        }
    }
}

/// What is tame below an id is tame below a later one.
pub proof fn lemma_tame_later(ops: Seq<OpModel>, next: u32, later: u32)
    requires
        tame(ops, next),
        next <= later,
    ensures
        tame(ops, later),
{
    assert forall|i: int| 0 <= i < ops.len() implies tame_op(#[trigger] ops[i], later) by {
        assert(tame_op(ops[i], next));
    }
}

/// A tame write keeps a settled store settled.
pub proof fn lemma_tame_op_keeps(store: StoreModel, op: OpModel, next: u32)
    requires
        settled(store, next),
        tame_op(op, next),
    ensures
        settled(apply_op(store, op), next),
{
    let after = apply_op(store, op);
    let about = op_key(op);
    assert forall|key: Seq<u8>| after.contains_key(key) implies #[trigger] below(key, next) by {
        if !store.contains_key(key) {
            assert(key == about);
        }
    }
    assert forall|segment: u32| #[trigger] deletion_list_whole(after, segment) by {
        let list = deletion_list_key(segment);
        assert(deletion_list_whole(store, segment));
        lemma_segment_of_key(KeyModel::DeletedDocument { segment_id: SegmentId(segment) });
        if list == about {
            assert(list[0] == TAG_DELETION_LIST);
            match op {
                OpModel::Merge { key, value } => {
                    let one = seq![value];
                    assert(one.drop_last() =~= Seq::<Seq<u8>>::empty());
                    assert(crate::merge_operator::concat_all(one.drop_last()) =~= Seq::<u8>::empty());
                    assert(one.last() == value);
                    assert(crate::merge_operator::concat_all(one) =~= value);
                },
                _ => {},
            }
        } else {
            assert(stored(after, list) == stored(store, list));
        }
    }
}

/// Tame writes keep a settled store settled, also where the id of the next
/// segment has grown.
pub proof fn lemma_tame_keeps(store: StoreModel, ops: Seq<OpModel>, before: u32, next: u32)
    requires
        settled(store, before),
        before <= next,
        tame(ops, next),
    ensures
        settled(apply_batch(store, ops), next),
    decreases ops.len(),
{
    if ops.len() == 0 {
        assert(apply_batch(store, ops) == store);
        assert forall|key: Seq<u8>| store.contains_key(key) implies #[trigger] below(key, next) by {
            assert(below(key, before));
        }
    } else {
        let fewer = ops.drop_last();
        assert forall|i: int| 0 <= i < fewer.len() implies tame_op(#[trigger] fewer[i], next) by {
            assert(fewer[i] == ops[i]);
        }
        lemma_tame_keeps(store, fewer, before, next);
        assert(ops =~= fewer.push(ops.last()));
        lemma_apply_push(store, fewer, ops.last());
        lemma_tame_op_keeps(apply_batch(store, fewer), ops.last(), next);
    }
}

/// A settled store has no entry under a key of the segment that comes next,
/// nor of a later one.
pub proof fn lemma_settled_lacks(store: StoreModel, next: u32, key: KeyModel)
    requires
        settled(store, next),
        model_segment(key) matches Some(segment) && segment >= next,
    ensures
        !store.contains_key(key.encoding()),
{
    lemma_segment_of_key(key);
    if store.contains_key(key.encoding()) {
        assert(below(key.encoding(), next));
    }
}

/// A settled store has nothing of the segment that comes next, nor of a later
/// one: no term directory, and no deletion list.
pub proof fn lemma_next_is_new(store: StoreModel, next: u32, segment: u32)
    requires
        settled(store, next),
        segment >= next,
    ensures
        forall|field: FieldId, term: TermId|
            !store.contains_key(#[trigger] term_directory_key(segment, field, term)),
        !store.contains_key(deletion_list_key(segment)),
{
    assert forall|field: FieldId, term: TermId|
        !store.contains_key(#[trigger] term_directory_key(segment, field, term)) by {
        let key = KeyModel::TermDirectory {
            field_id: field,
            term_id: term,
            segment_id: SegmentId(segment),
        };
        lemma_segment_of_key(key);
        if store.contains_key(key.encoding()) {
            assert(below(key.encoding(), next));
        }
    }
    let list = KeyModel::DeletedDocument { segment_id: SegmentId(segment) };
    lemma_segment_of_key(list);
    if store.contains_key(list.encoding()) {
        assert(below(list.encoding(), next));
    }
}

/// The record of the deletion of a document of a segment below `next` is tame.
pub proof fn lemma_tombstone_is_tame(doc_id: DocId, next: u32)
    requires
        doc_id.0.0 < next,
    ensures
        tame(tombstone(doc_id), next),
{
    let list = KeyModel::DeletedDocument { segment_id: doc_id.0 };
    let count = KeyModel::Statistic {
        segment_id: doc_id.0,
        statistic: crate::key::StatisticKey::DeletedDocs,
    };
    lemma_tame_put(list, crate::encoding::be_u16(doc_id.1), next);
    lemma_tame_put(count, crate::encoding::be_i64(1), next);
}

/// The writes that record new terms are tame.
pub proof fn lemma_term_writes_are_tame(
    known: Map<Seq<u8>, TermId>,
    next_id: u32,
    terms: Seq<Seq<u8>>,
    next: u32,
)
    ensures
        tame(term_writes(known, next_id, terms), next),
    decreases terms.len(),
{
    if terms.len() > 0 {
        lemma_term_writes_are_tame(known, next_id, terms.drop_last(), next);
        if !known.contains_key(terms.last()) {
            let id = (next_id + fresh_count(known, terms.drop_last())) as u32;
            let created = term_creation(terms.last(), id);
            lemma_tame_put(
                KeyModel::TermDictionary { term: terms.last() },
                crate::encoding::be_u32(id),
                next,
            );
            lemma_tame_put(
                KeyModel::Metadata { name: crate::key::name_next_term_dictionary_id() },
                crate::decimal::digits_of((id + 1) as nat),
                next,
            );
            lemma_tame_concat(term_writes(known, next_id, terms.drop_last()), created, next);
        }
    }
}

/// The writes of the term directories of a segment below `next` are tame.
pub proof fn lemma_directory_writes_are_tame(
    directories: Seq<((u16, usize), crate::doc_id_set::DocIdSet)>,
    ids: Seq<TermId>,
    segment: SegmentId,
    next: u32,
)
    requires
        segment.0 < next,
    ensures
        tame(directory_writes(directories, ids, segment), next),
    decreases directories.len(),
{
    if directories.len() > 0 {
        lemma_directory_writes_are_tame(directories.drop_last(), ids, segment, next);
        let last = directories.last();
        let written = directory_write(last, ids, segment);
        lemma_tame_put(
            KeyModel::TermDirectory {
                field_id: FieldId(last.0.0),
                term_id: ids[last.0.1 as int],
                segment_id: segment,
            },
            written[0].arrow_Put_value(),
            next,
        );
        lemma_tame_put(
            KeyModel::Statistic {
                segment_id: segment,
                statistic: crate::key::StatisticKey::TermDocFrequency(
                    FieldId(last.0.0),
                    ids[last.0.1 as int],
                ),
            },
            written[1].arrow_Merge_value(),
            next,
        );
        lemma_tame_concat(directory_writes(directories.drop_last(), ids, segment), written, next);
    }
}

/// The writes of the kept values of a segment below `next` are tame.
pub proof fn lemma_stored_writes_are_tame(
    values: Seq<StoredValue>,
    ids: Seq<TermId>,
    segment: SegmentId,
    next: u32,
)
    requires
        segment.0 < next,
    ensures
        tame(stored_writes(values, ids, segment), next),
{
    let writes = stored_writes(values, ids, segment);
    assert forall|i: int| 0 <= i < writes.len() implies tame_op(#[trigger] writes[i], next) by {
        let write = stored_write(values[i], ids, segment);
        lemma_tame_put(
            KeyModel::DocumentFieldValue {
                doc_id: DocId(segment, values[i].ord),
                field_id: values[i].field,
                kind: crate::segment_writer::global_kind(values[i].kind, ids),
            },
            write.arrow_Put_value(),
            next,
        );
    }
}

/// The writes of the totals of the fields of a segment below `next` are tame.
pub proof fn lemma_totals_writes_are_tame(
    totals: Seq<(u16, FieldTotals)>,
    segment: SegmentId,
    next: u32,
)
    requires
        segment.0 < next,
    ensures
        tame(totals_writes(totals, segment), next),
    decreases totals.len(),
{
    if totals.len() > 0 {
        lemma_totals_writes_are_tame(totals.drop_last(), segment, next);
        let last = totals.last();
        let written = totals_write(last, segment);
        lemma_tame_put(
            KeyModel::Statistic {
                segment_id: segment,
                statistic: crate::key::StatisticKey::TotalFieldDocs(FieldId(last.0)),
            },
            written[0].arrow_Merge_value(),
            next,
        );
        lemma_tame_put(
            KeyModel::Statistic {
                segment_id: segment,
                statistic: crate::key::StatisticKey::TotalFieldTokens(FieldId(last.0)),
            },
            written[1].arrow_Merge_value(),
            next,
        );
        lemma_tame_concat(totals_writes(totals.drop_last(), segment), written, next);
    }
}

/// The writes that put a document into the index in the segment `segment`,
/// in place of a document of an earlier segment or of none, are tame below the
/// id behind `segment`.
pub proof fn lemma_insertion_is_tame(
    builder: crate::segment_builder::SegmentBuilder,
    segment: u32,
    known: Map<Seq<u8>, TermId>,
    next_term_id: u32,
    key: Seq<u8>,
    previous: Option<DocId>,
)
    requires
        segment < u32::MAX,
        previous matches Some(document) ==> document.0.0 <= segment,
    ensures
        tame(
            crate::index::insertion(builder, segment, known, next_term_id, key, previous),
            (segment + 1) as u32,
        ),
{
    let next = (segment + 1) as u32;
    let dest = SegmentId(segment);
    let ids = crate::segment_writer::resolved_ids(known, next_term_id, builder.terms());
    let counter = seq![crate::index::segment_counter_put(next)];
    lemma_tame_put(
        KeyModel::Metadata { name: crate::key::name_next_segment_id() },
        crate::decimal::digits_of(next as nat),
        next,
    );
    assert(tame(counter, next));
    let terms = term_writes(known, next_term_id, builder.terms());
    lemma_term_writes_are_tame(known, next_term_id, builder.terms(), next);
    let directories = directory_writes(builder.directories(), ids, dest);
    lemma_directory_writes_are_tame(builder.directories(), ids, dest, next);
    let kept = stored_writes(builder.stored_values(), ids, dest);
    lemma_stored_writes_are_tame(builder.stored_values(), ids, dest, next);
    let total = seq![total_docs_write(builder.doc_count(), dest)];
    lemma_tame_put(
        KeyModel::Statistic { segment_id: dest, statistic: crate::key::StatisticKey::TotalDocs },
        crate::encoding::be_i64(builder.doc_count() as i64),
        next,
    );
    assert(tame(total, next));
    let totals = totals_writes(builder.totals(), dest);
    lemma_totals_writes_are_tame(builder.totals(), dest, next);
    let live = seq![activation(dest)];
    lemma_tame_put(KeyModel::ActiveSegment { segment_id: dest }, Seq::empty(), next);
    assert(tame(live, next));
    let place = seq![location_put(key, DocId(dest, 0))];
    lemma_tame_put(KeyModel::UniqueKey { key }, DocId(dest, 0).encoding(), next);
    assert(tame(place, next));
    let gone = match previous {
        Some(document) => tombstone(document),
        None => Seq::empty(),
    };
    match previous {
        Some(document) => {
            lemma_tombstone_is_tame(document, next);
        },
        None => {},
    }
    lemma_tame_concat(counter, terms, next);
    lemma_tame_concat(directories, kept, next);
    lemma_tame_concat(directories + kept, total, next);
    lemma_tame_concat(directories + kept + total, totals, next);
    lemma_tame_concat(directories + kept + total + totals, live, next);
    lemma_tame_concat(counter + terms, directories + kept + total + totals + live, next);
    lemma_tame_concat(
        counter + terms + (directories + kept + total + totals + live),
        place,
        next,
    );
    lemma_tame_concat(
        counter + terms + (directories + kept + total + totals + live) + place,
        gone,
        next,
    );
    assert(crate::index::insertion(builder, segment, known, next_term_id, key, previous)
        =~= counter + terms + (directories + kept + total + totals + live) + place + gone);
}

/// Every document that a key names is of a segment below `next`.
pub open spec fn named_below(keys: Map<Seq<u8>, DocId>, next: u32) -> bool {
    forall|key: Seq<u8>| keys.contains_key(key) ==> (#[trigger] keys[key]).0.0 < next
}

/// Putting a document into the index keeps the store settled: afterwards
/// every entry is of a segment below the id of the next segment, every deletion
/// list is whole, and every key names a document of such a segment.
pub proof fn lemma_insertion_keeps_settled(
    store: StoreModel,
    keys: Map<Seq<u8>, DocId>,
    batch: Seq<OpModel>,
    doc: crate::document::Document,
    segment: u32,
    known: Map<Seq<u8>, TermId>,
    next_term_id: u32,
)
    requires
        settled(store, segment),
        named_below(keys, segment),
        segment < u32::MAX,
        crate::index::inserts(
            batch,
            doc,
            segment,
            known,
            next_term_id,
            if keys.contains_key(doc.key_bytes()) {
                Some(keys[doc.key_bytes()])
            } else {
                None
            },
        ),
    ensures
        settled(apply_batch(store, batch), (segment + 1) as u32),
        named_below(
            keys.insert(doc.key_bytes(), DocId(SegmentId(segment), 0)),
            (segment + 1) as u32,
        ),
{
    let previous = if keys.contains_key(doc.key_bytes()) {
        Some(keys[doc.key_bytes()])
    } else {
        None
    };
    let builder = choose|builder: crate::segment_builder::SegmentBuilder| #[trigger]
        crate::index::holds_only(builder, doc) && batch == crate::index::insertion(
            builder,
            segment,
            known,
            next_term_id,
            doc.key_bytes(),
            previous,
        );
    lemma_insertion_is_tame(builder, segment, known, next_term_id, doc.key_bytes(), previous);
    lemma_tame_keeps(store, batch, segment, (segment + 1) as u32);
    let after = keys.insert(doc.key_bytes(), DocId(SegmentId(segment), 0));
    assert forall|key: Seq<u8>| after.contains_key(key) implies (#[trigger] after[key]).0.0 < segment
        + 1 by {
        if key != doc.key_bytes() {
            assert(keys.contains_key(key));
            assert(keys[key].0.0 < segment);
        }
    }
}

/// Taking a document out of the index by its key keeps the store settled.
pub proof fn lemma_removal_keeps_settled(
    store: StoreModel,
    keys: Map<Seq<u8>, DocId>,
    key: Seq<u8>,
    next: u32,
)
    requires
        settled(store, next),
        named_below(keys, next),
        keys.contains_key(key),
    ensures
        settled(apply_batch(store, crate::removal::removal(key, keys[key])), next),
        named_below(keys.remove(key), next),
        deletion_list_whole(store, keys[key].0.0),
{
    let first = seq![OpModel::Delete { key: (KeyModel::UniqueKey { key }).encoding() }];
    assert(tame(first, next));
    assert(keys[key].0.0 < next);
    lemma_tombstone_is_tame(keys[key], next);
    lemma_tame_concat(first, tombstone(keys[key]), next);
    lemma_tame_keeps(store, crate::removal::removal(key, keys[key]), next, next);
    assert forall|other: Seq<u8>| keys.remove(key).contains_key(other) implies (
    #[trigger] keys.remove(key)[other]).0.0 < next by {
        assert(keys.contains_key(other));
        assert(keys[other].0.0 < next);
    }
}

/// The writes that remove the entries of segments keep a store settled.
pub proof fn lemma_purge_keeps_settled(
    store: StoreModel,
    keys: Seq<Seq<u8>>,
    segments: Seq<u32>,
    n: int,
    next: u32,
)
    requires
        settled(store, next),
        0 <= n <= keys.len(),
    ensures
        settled(apply_batch(store, purge_writes(keys, segments, n)), next),
{
    lemma_purge_is_tame(keys, segments, n, next);
    lemma_tame_keeps(store, purge_writes(keys, segments, n), next, next);
}

/// Writes that remove are tame.
pub proof fn lemma_purge_is_tame(keys: Seq<Seq<u8>>, segments: Seq<u32>, n: int, next: u32)
    requires
        0 <= n <= keys.len(),
    ensures
        tame(purge_writes(keys, segments, n), next),
    decreases n,
{
    if n > 0 {
        lemma_purge_is_tame(keys, segments, n - 1, next);
        let last = purge_write(keys[n - 1], segments);
        assert(tame(last, next));
        lemma_tame_concat(purge_writes(keys, segments, n - 1), last, next);
    }
}

/// The writes of the merged term directories of a new segment below `next`
/// are tame.
pub proof fn lemma_merged_directories_are_tame(model: MergeModel, n: int, next: u32)
    requires
        model.dest.0 < next,
        0 <= n <= model.pairs().len(),
    ensures
        tame(model.directory_writes(n), next),
    decreases n,
{
    if n > 0 {
        lemma_merged_directories_are_tame(model, n - 1, next);
        let pair = model.pairs()[n - 1];
        let written = merged_directory_write(pair, model.posting(pair), model.dest);
        if written.len() > 0 {
            lemma_tame_put(
                KeyModel::TermDirectory {
                    field_id: pair.0,
                    term_id: pair.1,
                    segment_id: model.dest,
                },
                written[0].arrow_Put_value(),
                next,
            );
            lemma_tame_put(
                KeyModel::Statistic {
                    segment_id: model.dest,
                    statistic: crate::key::StatisticKey::TermDocFrequency(pair.0, pair.1),
                },
                written[1].arrow_Put_value(),
                next,
            );
        }
        lemma_tame_concat(model.directory_writes(n - 1), written, next);
    }
}

/// The writes that copy kept values into a new segment below `next` are tame.
pub proof fn lemma_copied_values_are_tame(model: MergeModel, n: int, next: u32)
    requires
        model.dest.0 < next,
        0 <= n <= model.entries.len(),
    ensures
        tame(model.copied_values(n), next),
    decreases n,
{
    if n > 0 {
        lemma_copied_values_are_tame(model, n - 1, next);
        let entry = model.entries[n - 1];
        let written = model.copied_value(entry);
        if written.len() > 0 {
            match KeyModel::decoding(entry.0) {
                Some(KeyModel::DocumentFieldValue { doc_id, field_id, kind }) => {
                    lemma_tame_put(
                        KeyModel::DocumentFieldValue {
                            doc_id: DocId(model.dest, model.mapping[doc_id]),
                            field_id,
                            kind,
                        },
                        entry.1,
                        next,
                    );
                },
                _ => {},
            }
        }
        lemma_tame_concat(model.copied_values(n - 1), written, next);
    }
}

/// The writes of the statistics of the fields of a new segment below `next`
/// are tame.
pub proof fn lemma_statistics_are_tame(model: MergeModel, n: int, next: u32)
    requires
        model.dest.0 < next,
        0 <= n <= model.pairs().len(),
    ensures
        tame(model.statistics_writes(n), next),
    decreases n,
{
    if n > 0 {
        lemma_statistics_are_tame(model, n - 1, next);
        if crate::segment_ops::first_of_field(model.pairs(), n - 1) {
            let field = model.pairs()[n - 1].0;
            let written = model.field_statistics(field);
            lemma_tame_put(
                KeyModel::Statistic {
                    segment_id: model.dest,
                    statistic: crate::key::StatisticKey::TotalFieldDocs(field),
                },
                written[0].arrow_Put_value(),
                next,
            );
            lemma_tame_put(
                KeyModel::Statistic {
                    segment_id: model.dest,
                    statistic: crate::key::StatisticKey::TotalFieldTokens(field),
                },
                written[1].arrow_Put_value(),
                next,
            );
            lemma_tame_concat(model.statistics_writes(n - 1), written, next);
        }
    }
}

/// The writes that take merged segments out of the live ones are tame.
pub proof fn lemma_deactivations_are_tame(model: MergeModel, n: int, next: u32)
    requires
        0 <= n <= model.segments.len(),
    ensures
        tame(model.deactivations(n), next),
    decreases n,
{
    if n > 0 {
        lemma_deactivations_are_tame(model, n - 1, next);
        let fewer = model.deactivations(n - 1);
        let all = model.deactivations(n);
        assert forall|i: int| 0 <= i < all.len() implies tame_op(#[trigger] all[i], next) by {
            if i < fewer.len() {
                assert(all[i] == fewer[i]);
            }
        }
    }
}

/// The writes that store the new places of keys in a new segment are tame.
pub proof fn lemma_relocation_is_tame(
    entries: Seq<(Seq<u8>, DocId)>,
    mapping: Map<DocId, u16>,
    dest: SegmentId,
    next: u32,
)
    ensures
        tame(relocation_puts(entries, mapping, dest), next),
    decreases entries.len(),
{
    if entries.len() > 0 {
        lemma_relocation_is_tame(entries.drop_last(), mapping, dest, next);
        let fewer = relocation_puts(entries.drop_last(), mapping, dest);
        let all = relocation_puts(entries, mapping, dest);
        if mapping.contains_key(entries.last().1) {
            lemma_tame_put(
                KeyModel::UniqueKey { key: entries.last().0 },
                relocated(entries.last().1, mapping, dest).encoding(),
                next,
            );
            assert forall|i: int| 0 <= i < all.len() implies tame_op(#[trigger] all[i], next) by {
                if i < fewer.len() {
                    assert(all[i] == fewer[i]);
                }
            }
        }
    }
}

/// A list of ordinals is two bytes for each.
pub proof fn lemma_ordinal_bytes_len(ords: Seq<u16>)
    ensures
        ordinal_bytes(ords).len() == 2 * ords.len(),
    decreases ords.len(),
{
    if ords.len() > 0 {
        lemma_ordinal_bytes_len(ords.drop_last());
    }
}

/// The writes of a merge into a new segment are tame below the id behind it:
/// the id that the next segment gets, the new segment in place of the merged
/// ones, the new places of the keys, and the deletion list of the new segment.
pub proof fn lemma_merge_is_tame(
    model: MergeModel,
    documents: nat,
    keys: Seq<(Seq<u8>, DocId)>,
    deleted: Seq<u16>,
)
    requires
        model.dest.0 < u32::MAX,
    ensures
        tame(
            seq![crate::index::segment_counter_put((model.dest.0 + 1) as u32)] + model.writes(
                documents,
            ) + relocation_puts(keys, model.mapping, model.dest) + seq![
                OpModel::Put {
                    key: deletion_list_key(model.dest.0),
                    value: ordinal_bytes(deleted),
                },
            ],
            (model.dest.0 + 1) as u32,
        ),
{
    let next = (model.dest.0 + 1) as u32;
    let counter = seq![crate::index::segment_counter_put(next)];
    lemma_tame_put(
        KeyModel::Metadata { name: crate::key::name_next_segment_id() },
        crate::decimal::digits_of(next as nat),
        next,
    );
    assert(tame(counter, next));
    let a = model.directory_writes(model.pairs().len() as int);
    lemma_merged_directories_are_tame(model, model.pairs().len() as int, next);
    let b = model.copied_values(model.entries.len() as int);
    lemma_copied_values_are_tame(model, model.entries.len() as int, next);
    let c = seq![model.total_docs_write(documents)];
    lemma_tame_put(
        KeyModel::Statistic {
            segment_id: model.dest,
            statistic: crate::key::StatisticKey::TotalDocs,
        },
        crate::encoding::be_i64(documents as i64),
        next,
    );
    assert(tame(c, next));
    let d = model.statistics_writes(model.pairs().len() as int);
    lemma_statistics_are_tame(model, model.pairs().len() as int, next);
    let e = seq![activation(model.dest)];
    lemma_tame_put(KeyModel::ActiveSegment { segment_id: model.dest }, Seq::empty(), next);
    assert(tame(e, next));
    let f = model.deactivations(model.segments.len() as int);
    lemma_deactivations_are_tame(model, model.segments.len() as int, next);
    let places = relocation_puts(keys, model.mapping, model.dest);
    lemma_relocation_is_tame(keys, model.mapping, model.dest, next);
    let list = seq![
        OpModel::Put { key: deletion_list_key(model.dest.0), value: ordinal_bytes(deleted) },
    ];
    lemma_ordinal_bytes_len(deleted);
    lemma_tame_put(
        KeyModel::DeletedDocument { segment_id: model.dest },
        ordinal_bytes(deleted),
        next,
    );
    assert(tame(list, next));
    lemma_tame_concat(a, b, next);
    lemma_tame_concat(a + b, c, next);
    lemma_tame_concat(a + b + c, d, next);
    lemma_tame_concat(a + b + c + d, e, next);
    lemma_tame_concat(a + b + c + d + e, f, next);
    assert(model.writes(documents) == a + b + c + d + e + f);
    lemma_tame_concat(counter, model.writes(documents), next);
    lemma_tame_concat(counter + model.writes(documents), places, next);
    lemma_tame_concat(counter + model.writes(documents) + places, list, next);
}

/// Every document that an entry of the index names is of a segment below `next`.
pub open spec fn entries_below(keys: Seq<(Seq<u8>, DocId)>, next: u32) -> bool {
    forall|i: int| 0 <= i < keys.len() ==> (#[trigger] keys[i]).1.0.0 < next
}

/// What holds of the entries of an index holds of the documents that its keys
/// name.
pub proof fn lemma_named_below(keys: Seq<(Seq<u8>, DocId)>, next: u32)
    requires
        entries_below(keys, next),
    ensures
        named_below(crate::assoc::assoc_map(keys), next),
{
    assert forall|key: Seq<u8>| crate::assoc::assoc_map(keys).contains_key(key) implies (
    #[trigger] crate::assoc::assoc_map(keys)[key]).0.0 < next by {
        let i = crate::assoc::key_index(keys, key);
        assert(keys[i].1.0.0 < next);
    }
}

/// A merge keeps the store settled: afterwards every entry is of a segment
/// below the id of the next segment, every deletion list is whole, and every
/// entry of the index names a document of such a segment.
pub proof fn lemma_merge_keeps_settled(
    store: StoreModel,
    model: MergeModel,
    documents: nat,
    keys: Seq<(Seq<u8>, DocId)>,
    deleted: Seq<u16>,
)
    requires
        settled(store, model.dest.0),
        entries_below(keys, model.dest.0),
        model.dest.0 < u32::MAX,
    ensures
        settled(
            apply_batch(
                store,
                seq![crate::index::segment_counter_put((model.dest.0 + 1) as u32)] + model.writes(
                    documents,
                ) + relocation_puts(keys, model.mapping, model.dest) + seq![
                    OpModel::Put {
                        key: deletion_list_key(model.dest.0),
                        value: ordinal_bytes(deleted),
                    },
                ],
            ),
            (model.dest.0 + 1) as u32,
        ),
        entries_below(
            crate::document_index::relocated_entries(keys, model.mapping, model.dest),
            (model.dest.0 + 1) as u32,
        ),
{
    let next = (model.dest.0 + 1) as u32;
    lemma_merge_is_tame(model, documents, keys, deleted);
    let batch = seq![crate::index::segment_counter_put(next)] + model.writes(documents)
        + relocation_puts(keys, model.mapping, model.dest) + seq![
        OpModel::Put { key: deletion_list_key(model.dest.0), value: ordinal_bytes(deleted) },
    ];
    lemma_tame_keeps(store, batch, model.dest.0, next);
    let moved = crate::document_index::relocated_entries(keys, model.mapping, model.dest);
    assert forall|i: int| 0 <= i < moved.len() implies (#[trigger] moved[i]).1.0.0 < next by {
        assert(keys[i].1.0.0 < model.dest.0);
    }
}

/// The writes that start the store of a new index, and those that add a field
/// or mark one as deleted, keep a store settled: they are about no segment.
pub proof fn lemma_field_writes_keep_settled(store: StoreModel, next: u32, field: u32, id: FieldId, definition: crate::schema::FieldDefinitionModel)
    requires
        settled(store, next),
    ensures
        settled(
            apply_batch(
                store,
                seq![
                    crate::index::field_counter_put(field),
                    crate::index::field_definition_put(id, definition),
                ],
            ),
            next,
        ),
        settled(
            apply_batch(store, seq![crate::index::field_definition_put(id, definition)]),
            next,
        ),
{
    lemma_tame_put(
        KeyModel::Metadata { name: crate::key::name_next_field_id() },
        crate::decimal::digits_of(field as nat),
        next,
    );
    lemma_tame_put(KeyModel::FieldDefinition { field_id: id }, definition.encoding(), next);
    let both = seq![
        crate::index::field_counter_put(field),
        crate::index::field_definition_put(id, definition),
    ];
    let one = seq![crate::index::field_definition_put(id, definition)];
    assert(tame(both, next));
    assert(tame(one, next));
    lemma_tame_keeps(store, both, next, next);
    lemma_tame_keeps(store, one, next, next);
}

/// The store of a new index is settled: the writes that start it are about no
/// segment.
pub proof fn lemma_new_store_is_settled()
    ensures
        settled(
            apply_batch(
                Map::empty(),
                seq![
                    crate::index::field_counter_put(crate::schema::FIRST_FIELD_ID),
                    crate::index::segment_counter_put(crate::index::FIRST_SEGMENT_ID),
                    crate::index::term_counter_put(crate::index::FIRST_TERM_ID),
                ],
            ),
            crate::index::FIRST_SEGMENT_ID,
        ),
{
    let next = crate::index::FIRST_SEGMENT_ID;
    let store: StoreModel = Map::empty();
    assert(settled(store, next));
    lemma_tame_put(
        KeyModel::Metadata { name: crate::key::name_next_field_id() },
        crate::decimal::digits_of(crate::schema::FIRST_FIELD_ID as nat),
        next,
    );
    lemma_tame_put(
        KeyModel::Metadata { name: crate::key::name_next_segment_id() },
        crate::decimal::digits_of(crate::index::FIRST_SEGMENT_ID as nat),
        next,
    );
    lemma_tame_put(
        KeyModel::Metadata { name: crate::key::name_next_term_dictionary_id() },
        crate::decimal::digits_of(crate::index::FIRST_TERM_ID as nat),
        next,
    );
    let batch = seq![
        crate::index::field_counter_put(crate::schema::FIRST_FIELD_ID),
        crate::index::segment_counter_put(crate::index::FIRST_SEGMENT_ID),
        crate::index::term_counter_put(crate::index::FIRST_TERM_ID),
    ];
    assert(tame(batch, next));
    lemma_tame_keeps(store, batch, next, next);
}

/// In a settled store the segment that a merge makes is new.
pub proof fn lemma_settled_is_unused(model: MergeModel)
    requires
        settled(model.store, model.dest.0),
    ensures
        crate::merged::unused(model),
{
    lemma_next_is_new(model.store, model.dest.0, model.dest.0);
}

/// After a document is put into the index of a settled store in place of the
/// document that its key named: the document that was replaced is deleted,
/// the key names the new document, the new document is not deleted, and a
/// search of the new segment for a term in a field reads the new document
/// exactly where it has the term in the field. The store is settled still.
///
/// The sets of no ordinal and of the first ordinal alone must be read back as
/// written, which `write_small_sets` shows.
pub proof fn lemma_update_in_a_settled_store(
    store: StoreModel,
    keys: Map<Seq<u8>, DocId>,
    batch: Seq<OpModel>,
    doc: crate::document::Document,
    segment: u32,
    known: Map<Seq<u8>, TermId>,
    next_term_id: u32,
    terms: Seq<(Seq<u8>, TermId)>,
    next_after: u32,
    field: FieldId,
    term: Seq<u8>,
)
    requires
        settled(store, segment),
        named_below(keys, segment),
        segment < u32::MAX,
        keys.contains_key(doc.key_bytes()),
        crate::inserted::inserts_under(
            batch,
            doc,
            segment,
            known,
            next_term_id,
            Some(keys[doc.key_bytes()]),
            crate::assoc::assoc_map(terms),
            next_after,
        ),
        crate::inserted::one_term_each(crate::assoc::assoc_map(terms)),
        crate::inserted::is_read_back(set![0u16]),
        crate::inserted::is_read_back(Set::<u16>::empty()),
    ensures
        settled(apply_batch(store, batch), (segment + 1) as u32),
        crate::segment::deleted_in(apply_batch(store, batch), keys[doc.key_bytes()].0.0).contains(
            keys[doc.key_bytes()].1,
        ),
        crate::segment::deleted_in(apply_batch(store, batch), segment) == Set::<u16>::empty(),
        stored(apply_batch(store, batch), (KeyModel::UniqueKey { key: doc.key_bytes() }).encoding())
            == Some(DocId(SegmentId(segment), 0).encoding()),
        crate::search::term_matches(
            crate::merged::context_in(apply_batch(store, batch), segment, terms),
            field,
            term,
        ) == crate::segment_builder::only_if(doc.has_term(field, term), 0),
{
    let previous = keys[doc.key_bytes()];
    crate::inserted::lemma_inserts_under(
        batch,
        doc,
        segment,
        known,
        next_term_id,
        Some(previous),
        crate::assoc::assoc_map(terms),
        next_after,
    );
    lemma_insertion_keeps_settled(store, keys, batch, doc, segment, known, next_term_id);
    lemma_next_is_new(store, segment, segment);
    assert(deletion_list_whole(store, previous.0.0));
    crate::index::lemma_replacement(store, batch, doc, segment, known, next_term_id, previous);
    assert forall|id: TermId|
        stored(store, #[trigger] term_directory_key(segment, field, id)) is None by {}
    crate::inserted::lemma_search_finds_inserted(
        store,
        batch,
        doc,
        segment,
        known,
        next_term_id,
        Some(previous),
        terms,
        next_after,
        field,
        term,
    );
}

/// After the document of a key is taken out of the index of a settled store,
/// a search of its segment returns what it returned before without the
/// document, whatever the query, and a search of another segment what it
/// returned before. The store is settled still.
pub proof fn lemma_removal_in_a_settled_store(
    store: StoreModel,
    keys: Map<Seq<u8>, DocId>,
    key: Seq<u8>,
    next: u32,
    query: crate::query::Query,
    segment: u32,
    terms: Seq<(Seq<u8>, TermId)>,
)
    requires
        settled(store, next),
        named_below(keys, next),
        keys.contains_key(key),
    ensures
        settled(apply_batch(store, crate::removal::removal(key, keys[key])), next),
        crate::search::hits(
            query,
            crate::merged::context_in(
                apply_batch(store, crate::removal::removal(key, keys[key])),
                segment,
                terms,
            ),
        ) == (if segment == keys[key].0.0 {
            crate::search::hits(query, crate::merged::context_in(store, segment, terms)).remove(
                keys[key].1,
            )
        } else {
            crate::search::hits(query, crate::merged::context_in(store, segment, terms))
        }),
{
    lemma_removal_keeps_settled(store, keys, key, next);
    crate::removal::lemma_removal_keeps_the_rest(store, key, keys[key], query, segment, terms);
}

/// After a merge of segments of a settled store into the segment that comes
/// next, a search of the new segment finds the documents that the same search
/// found in the merged segments, at their new ordinals: no document is lost,
/// none comes back, and none is found that was not found before. And after the
/// entries of the merged segments are removed, the store has none of them.
///
/// That the merged term directories are read back is what `merge_segments`
/// says of every merge.
pub proof fn lemma_merge_in_a_settled_store(
    entries: Seq<(Vec<u8>, Vec<u8>)>,
    segments: Seq<u32>,
    dest: u32,
    query: crate::query::Query,
    terms: Seq<(Seq<u8>, TermId)>,
)
    requires
        settled(crate::segment::entries_map(entries), dest),
        crate::segment_ops::mergeable(
            crate::segment::entries_map(entries),
            segments,
            segments.len() as int,
        ),
        crate::segment_ops::live_documents(crate::segment::entries_map(entries), segments).len()
            <= 0x1_0000,
        crate::segment_ops::merge_model(
            entries,
            segments,
            crate::doc_id_mapping::mapping_of(
                crate::segment_ops::live_documents(crate::segment::entries_map(entries), segments),
            ),
            dest,
        ).all_readable(),
    ensures
        ({
            let model = crate::segment_ops::merge_model(
                entries,
                segments,
                crate::doc_id_mapping::mapping_of(
                    crate::segment_ops::live_documents(
                        crate::segment::entries_map(entries),
                        segments,
                    ),
                ),
                dest,
            );
            &&& crate::merged::sound(model)
            &&& crate::search::hits(
                query,
                crate::merged::context_in(crate::merged::merged_store(model), dest, terms),
            ) == crate::merged::moved(model, crate::merged::hits_before(query, model, terms))
        }),
{
    let store = crate::segment::entries_map(entries);
    let model = crate::segment_ops::merge_model(
        entries,
        segments,
        crate::doc_id_mapping::mapping_of(crate::segment_ops::live_documents(store, segments)),
        dest,
    );
    lemma_settled_is_unused(model);
    crate::merged::lemma_merge_is_sound(entries, segments, dest);
    lemma_next_is_new(store, dest, dest);
    crate::merged::lemma_merge_keeps_hits(query, model, terms);
}

} // verus!
