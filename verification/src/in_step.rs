//! The store and the index in step: what holds of them together after every
//! batch of the index, given that it held before. It is what the laws on
//! searching, replacing, removing and merging ask of the store, and what
//! bounds the counts of the segments.

use crate::active::{
    active_key, lemma_insertion_keeps_active, lemma_merge_keeps_active,
    lemma_purge_keeps_active, lemma_removal_keeps_active, named_active,
};
use crate::assoc::{assoc_map, distinct_keys, lemma_assoc_entry};
use crate::counts::{
    counted, deleted_docs, lemma_counted_in_bounds, lemma_field_writes_keep_counted,
    lemma_insertion_keeps_counted, lemma_merge_keeps_counted, lemma_moved_keys,
    lemma_new_store_is_counted, lemma_purge_keeps_counted, lemma_removal_keeps_counted,
    live_named, merge_batch, total_docs,
};
use crate::doc_id_mapping::mapping_of;
use crate::doc_id_set::listing_of;
use crate::document::{DocId, Document, SegmentId};
use crate::document_index::{relocated_deletions, relocated_entries};
use crate::key::KeyModel;
use crate::segment_ops::{
    deletions_in, is_active, live_documents, mergeable, MergeModel, purge_writes,
};
use crate::settled::{
    entries_below, lemma_field_writes_keep_settled, lemma_insertion_keeps_settled,
    lemma_merge_keeps_settled, lemma_named_below, lemma_new_store_is_settled,
    lemma_purge_keeps_settled, lemma_removal_keeps_settled, lemma_segment_of_key, named_below,
    settled,
};
use crate::term::TermId;
use crate::write_batch::{apply_batch, OpModel, StoreModel};
use vstd::prelude::*;

verus! {

/// The store and the index are in step: every entry of the store is of a
/// segment whose id was handed out; the deletion lists are whole; the counts
/// of every segment are those of its deletion list and of the documents it
/// took; and every key names a document that is not deleted, of a live
/// segment, that no other key names.
pub open spec fn in_step(store: StoreModel, keys: Map<Seq<u8>, DocId>, next: u32) -> bool {
    &&& settled(store, next)
    &&& named_below(keys, next)
    &&& counted(store, keys)
    &&& named_active(store, keys)
}

/// In a store that is in step with its index, no more documents of a segment
/// are counted as deleted than the segment took, and no segment took more
/// than a segment holds.
pub proof fn lemma_counts_of_a_store_in_step(
    store: StoreModel,
    keys: Map<Seq<u8>, DocId>,
    next: u32,
    segment: u32,
)
    requires
        in_step(store, keys, next),
    ensures
        0 <= deleted_docs(store, segment) <= total_docs(store, segment) <= 0x1_0000,
{
    lemma_counted_in_bounds(store, keys, segment);
}

/// The store of a new index is in step with it.
pub proof fn lemma_new_index_is_in_step()
    ensures
        in_step(
            apply_batch(
                Map::empty(),
                seq![
                    crate::index::field_counter_put(crate::schema::FIRST_FIELD_ID),
                    crate::index::segment_counter_put(crate::index::FIRST_SEGMENT_ID),
                    crate::index::term_counter_put(crate::index::FIRST_TERM_ID),
                ],
            ),
            Map::empty(),
            crate::index::FIRST_SEGMENT_ID,
        ),
{
    lemma_new_store_is_settled();
    lemma_new_store_is_counted();
}

/// Adding a field, and marking one as deleted, keeps store and index in step.
pub proof fn lemma_fields_keep_in_step(
    store: StoreModel,
    keys: Map<Seq<u8>, DocId>,
    next: u32,
    field: u32,
    id: crate::schema::FieldId,
    definition: crate::schema::FieldDefinitionModel,
)
    requires
        in_step(store, keys, next),
    ensures
        in_step(
            apply_batch(
                store,
                seq![
                    crate::index::field_counter_put(field),
                    crate::index::field_definition_put(id, definition),
                ],
            ),
            keys,
            next,
        ),
        in_step(
            apply_batch(store, seq![crate::index::field_definition_put(id, definition)]),
            keys,
            next,
        ),
{
    lemma_field_writes_keep_settled(store, next, field, id, definition);
    lemma_field_writes_keep_counted(store, keys, field, id, definition);
    let both = seq![
        crate::index::field_counter_put(field),
        crate::index::field_definition_put(id, definition),
    ];
    let one = seq![crate::index::field_definition_put(id, definition)];
    let none: Set<u32> = Set::empty();
    assert(crate::active::puts_only(both));
    assert(crate::active::puts_only(one));
    crate::active::lemma_puts_are_gentle(both, none);
    crate::active::lemma_puts_are_gentle(one, none);
    assert forall|key: Seq<u8>| keys.contains_key(key) implies is_active(
        apply_batch(store, both),
        (#[trigger] keys[key]).0.0,
    ) && is_active(apply_batch(store, one), keys[key].0.0) by {
        crate::active::lemma_gentle_keeps_active(store, both, none, keys[key].0.0);
        crate::active::lemma_gentle_keeps_active(store, one, none, keys[key].0.0);
    }
}

/// Putting a document into the index keeps store and index in step.
pub proof fn lemma_insertion_keeps_in_step(
    store: StoreModel,
    keys: Map<Seq<u8>, DocId>,
    batch: Seq<OpModel>,
    doc: Document,
    segment: u32,
    known: Map<Seq<u8>, TermId>,
    next_term_id: u32,
)
    requires
        in_step(store, keys, segment),
        segment < u32::MAX,
        crate::index::inserts(
            batch,
            doc,
            segment,
            known,
            next_term_id,
            if keys.contains_key(doc.key_bytes()) {
                Some(keys[doc.key_bytes()])
            } else {
                None
            },
        ),
    ensures
        in_step(
            apply_batch(store, batch),
            keys.insert(doc.key_bytes(), DocId(SegmentId(segment), 0)),
            (segment + 1) as u32,
        ),
{
    lemma_insertion_keeps_settled(store, keys, batch, doc, segment, known, next_term_id);
    lemma_insertion_keeps_counted(store, keys, batch, doc, segment, known, next_term_id);
    let previous = if keys.contains_key(doc.key_bytes()) {
        Some(keys[doc.key_bytes()])
    } else {
        None
    };
    let builder = choose|builder: crate::segment_builder::SegmentBuilder| #[trigger]
        crate::index::holds_only(builder, doc) && batch == crate::index::insertion(
            builder,
            segment,
            known,
            next_term_id,
            doc.key_bytes(),
            previous,
        );
    let grown = keys.insert(doc.key_bytes(), DocId(SegmentId(segment), 0));
    assert forall|key: Seq<u8>| grown.contains_key(key) implies is_active(
        apply_batch(store, batch),
        (#[trigger] grown[key]).0.0,
    ) by {
        if key != doc.key_bytes() {
            assert(keys.contains_key(key));
            assert(is_active(store, keys[key].0.0));
        }
        lemma_insertion_keeps_active(
            store,
            builder,
            segment,
            known,
            next_term_id,
            doc.key_bytes(),
            previous,
            grown[key].0.0,
        );
    }
}

/// Taking the document of a key out of the index keeps store and index in
/// step.
pub proof fn lemma_removal_keeps_in_step(
    store: StoreModel,
    keys: Map<Seq<u8>, DocId>,
    key: Seq<u8>,
    next: u32,
)
    requires
        in_step(store, keys, next),
        keys.contains_key(key),
    ensures
        in_step(apply_batch(store, crate::removal::removal(key, keys[key])), keys.remove(key), next),
{
    lemma_removal_keeps_settled(store, keys, key, next);
    lemma_removal_keeps_counted(store, keys, key);
    assert forall|other: Seq<u8>| keys.remove(key).contains_key(other) implies is_active(
        apply_batch(store, crate::removal::removal(key, keys[key])),
        (#[trigger] keys.remove(key)[other]).0.0,
    ) by {
        assert(keys.contains_key(other));
        assert(is_active(store, keys[other].0.0));
        lemma_removal_keeps_active(store, key, keys[key], keys[other].0.0);
    }
}

/// The entries of an index name documents of segments below `next` where its
/// keys do.
pub proof fn lemma_entries_below(index: Seq<(Seq<u8>, DocId)>, next: u32)
    requires
        distinct_keys(index),
        named_below(assoc_map(index), next),
    ensures
        entries_below(index, next),
{
    assert forall|i: int| 0 <= i < index.len() implies (#[trigger] index[i]).1.0.0 < next by {
        lemma_assoc_entry(index, i);
        assert(assoc_map(index)[index[i].0].0.0 < next);
    }
}

/// A merge keeps store and index in step: the documents that are left are
/// those of the new segment, the keys name them there, and the new segment is
/// live.
pub proof fn lemma_merge_keeps_in_step(model: MergeModel, index: Seq<(Seq<u8>, DocId)>)
    requires
        in_step(model.store, assoc_map(index), model.dest.0),
        distinct_keys(index),
        model.dest.0 < u32::MAX,
        mergeable(model.store, model.segments, model.segments.len() as int),
        model.mapping == mapping_of(live_documents(model.store, model.segments)),
        live_documents(model.store, model.segments).len() <= 0x1_0000,
    ensures
        in_step(
            apply_batch(
                model.store,
                merge_batch(
                    model,
                    live_documents(model.store, model.segments).len(),
                    index,
                    listing_of(
                        relocated_deletions(
                            deletions_in(model.store, model.segments),
                            model.mapping,
                        ),
                    ),
                ),
            ),
            assoc_map(relocated_entries(index, model.mapping, model.dest)),
            (model.dest.0 + 1) as u32,
        ),
{
    let store = model.store;
    let dest = model.dest.0;
    let keys = assoc_map(index);
    let live = live_documents(store, model.segments);
    let deleted = listing_of(
        relocated_deletions(deletions_in(store, model.segments), model.mapping),
    );
    let batch = merge_batch(model, live.len(), index, deleted);
    let after = apply_batch(store, batch);
    let moved = assoc_map(relocated_entries(index, model.mapping, model.dest));
    assert(model.segments.no_duplicates()) by {
        assert forall|a: int, b: int|
            0 <= a < model.segments.len() && 0 <= b < model.segments.len() && a
                != b implies model.segments[a] != model.segments[b] by {
            if a < b {
                assert(is_active(store, model.segments[b]));
            } else {
                assert(is_active(store, model.segments[a]));
            }
        }
    }
    // No merged segment is the new one: the merged ones are live.
    assert(!model.segments.contains(dest)) by {
        if model.segments.contains(dest) {
            let k = choose|k: int| 0 <= k < model.segments.len() && model.segments[k] == dest;
            assert(is_active(store, model.segments[k]));
            lemma_segment_of_key(KeyModel::ActiveSegment { segment_id: SegmentId(dest) });
            assert(crate::settled::below(active_key(dest), dest));
        }
    }
    lemma_entries_below(index, dest);
    lemma_merge_keeps_settled(store, model, live.len(), index, deleted);
    lemma_named_below(relocated_entries(index, model.mapping, model.dest), (dest + 1) as u32);
    lemma_merge_keeps_counted(model, index);
    crate::merged::lemma_live_documents(store, model.segments);
    assert forall|key: Seq<u8>| moved.contains_key(key) implies is_active(
        after,
        (#[trigger] moved[key]).0.0,
    ) by {
        lemma_moved_keys(index, model.mapping, model.dest, key);
        let named = keys[key];
        assert(keys.contains_key(key));
        if model.mapping.contains_key(named) {
            lemma_merge_keeps_active(store, model, live.len(), index, deleted, dest);
        } else {
            assert(is_active(store, named.0.0));
            assert(live_named(store, named));
            if model.segments.contains(named.0.0) {
                // A document of a merged segment that is not deleted is left.
                lemma_counted_in_bounds(store, keys, named.0.0);
                assert(named.1 < crate::search::total_docs_in(store, named.0.0));
                assert(!crate::segment::deleted_in(store, named.0.0).contains(named.1));
                assert(live.contains(DocId(SegmentId(named.0.0), named.1)));
            }
            lemma_merge_keeps_active(store, model, live.len(), index, deleted, named.0.0);
        }
    }
}

/// Removing all the entries of segments that are not live keeps store and
/// index in step: no key names a document of such a segment.
pub proof fn lemma_purge_keeps_in_step(
    store: StoreModel,
    keys: Map<Seq<u8>, DocId>,
    entries: Seq<Seq<u8>>,
    segments: Seq<u32>,
    next: u32,
)
    requires
        in_step(store, keys, next),
        forall|key: Seq<u8>| store.contains_key(key) ==> #[trigger] entries.contains(key),
        forall|i: int| 0 <= i < segments.len() ==> !is_active(store, #[trigger] segments[i]),
    ensures
        in_step(
            apply_batch(store, purge_writes(entries, segments, entries.len() as int)),
            keys,
            next,
        ),
        forall|key: Seq<u8>| keys.contains_key(key) ==> !segments.contains((#[trigger] keys[key]).0.0),
{
    let n = entries.len() as int;
    assert forall|key: Seq<u8>| keys.contains_key(key) implies !segments.contains(
        (#[trigger] keys[key]).0.0,
    ) by {
        assert(is_active(store, keys[key].0.0));
        if segments.contains(keys[key].0.0) {
            let i = choose|i: int| 0 <= i < segments.len() && segments[i] == keys[key].0.0;
            assert(!is_active(store, segments[i]));
        }
    }
    lemma_purge_keeps_settled(store, entries, segments, n, next);
    lemma_purge_keeps_counted(store, keys, entries, segments);
    assert forall|key: Seq<u8>| keys.contains_key(key) implies is_active(
        apply_batch(store, purge_writes(entries, segments, n)),
        (#[trigger] keys[key]).0.0,
    ) by {
        assert(is_active(store, keys[key].0.0));
        lemma_purge_keeps_active(store, entries, segments, n, keys[key].0.0);
    }
}

} // verus!
