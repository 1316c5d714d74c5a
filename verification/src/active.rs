//! The segments that are live in stores that the index writes: every key of
//! the index names a document of a live segment, so that no key names a
//! document of a segment whose entries may be removed.

use crate::counts::merge_batch;
use crate::document::{DocId, SegmentId};
use crate::document_index::{location_put, relocation_puts, tombstone};
use crate::key::KeyModel;
use crate::segment_builder::FieldTotals;
use crate::segment_ops::{is_active, merged_directory_write, MergeModel, purge_write, purge_writes};
use crate::segment_writer::{
    activation, directory_write, directory_writes, stored_writes, total_docs_write,
    totals_write, totals_writes,
};
use crate::term::TermId;
use crate::term_dictionary::{fresh_count, term_creation, term_writes};
use crate::write_batch::{
    apply_batch, lemma_apply_concat, lemma_apply_push, op_key, OpModel, StoreModel,
};
use vstd::prelude::*;

verus! {

/// The key that marks a segment as live.
pub open spec fn active_key(segment: u32) -> Seq<u8> {
    (KeyModel::ActiveSegment { segment_id: SegmentId(segment) }).encoding()
}

/// A write that takes no segment out of the live ones but one of `gone`.
pub open spec fn gentle_op(op: OpModel, gone: Set<u32>) -> bool {
    match op {
        OpModel::Delete { key } => forall|segment: u32|
            key == #[trigger] active_key(segment) ==> gone.contains(segment),
        _ => true,
    }
}

/// Writes that take no segment out of the live ones but those of `gone`.
pub open spec fn gentle(ops: Seq<OpModel>, gone: Set<u32>) -> bool {
    forall|i: int| 0 <= i < ops.len() ==> gentle_op(#[trigger] ops[i], gone)
}

/// Every write puts or merges; none removes.
pub open spec fn puts_only(ops: Seq<OpModel>) -> bool {
    forall|i: int| 0 <= i < ops.len() ==> !((#[trigger] ops[i]) is Delete)
}

/// Writes that remove nothing take no segment out of the live ones.
pub proof fn lemma_puts_are_gentle(ops: Seq<OpModel>, gone: Set<u32>)
    requires
        puts_only(ops),
    ensures
        gentle(ops, gone),
{
    assert forall|i: int| 0 <= i < ops.len() implies gentle_op(#[trigger] ops[i], gone) by {
        assert(!(ops[i] is Delete));
    }
}

/// Gentle writes, one after the other, are gentle.
pub proof fn lemma_gentle_concat(first: Seq<OpModel>, second: Seq<OpModel>, gone: Set<u32>)
    requires
        gentle(first, gone),
        gentle(second, gone),
    ensures
        gentle(first + second, gone),
{
    assert forall|i: int| 0 <= i < (first + second).len() implies gentle_op(
        #[trigger] (first + second)[i],
        gone,
    ) by {
        if i < first.len() {
            assert((first + second)[i] == first[i]);
        } else {
            assert((first + second)[i] == second[i - first.len()]);
        }
    }
}

/// Writes that remove nothing, one after the other, remove nothing.
pub proof fn lemma_puts_concat(first: Seq<OpModel>, second: Seq<OpModel>)
    requires
        puts_only(first),
        puts_only(second),
    ensures
        puts_only(first + second),
{
    assert forall|i: int| 0 <= i < (first + second).len() implies !((#[trigger] (first
        + second)[i]) is Delete) by {
        if i < first.len() {
            assert((first + second)[i] == first[i]);
        } else {
            assert((first + second)[i] == second[i - first.len()]);
        }
    }
}

/// A segment that is live, and not one of `gone`, is live after gentle writes.
pub proof fn lemma_gentle_keeps_active(
    store: StoreModel,
    ops: Seq<OpModel>,
    gone: Set<u32>,
    segment: u32,
)
    requires
        gentle(ops, gone),
        is_active(store, segment),
        !gone.contains(segment),
    ensures
        is_active(apply_batch(store, ops), segment),
    decreases ops.len(),
{
    if ops.len() > 0 {
        let fewer = ops.drop_last();
        assert forall|i: int| 0 <= i < fewer.len() implies gentle_op(#[trigger] fewer[i], gone) by {
            assert(fewer[i] == ops[i]);
        }
        lemma_gentle_keeps_active(store, fewer, gone, segment);
        assert(ops =~= fewer.push(ops.last()));
        lemma_apply_push(store, fewer, ops.last());
        assert(gentle_op(ops.last(), gone));
        let midway = apply_batch(store, fewer);
        assert(midway.contains_key(active_key(segment)));
        match ops.last() {
            OpModel::Delete { key } => {
                if key == active_key(segment) {
                    assert(gone.contains(segment));
                }
            },
            _ => {},
        }
    }
}

/// A segment that is made live is live after gentle writes that do not take
/// it out of the live ones.
pub proof fn lemma_activated(
    store: StoreModel,
    before: Seq<OpModel>,
    behind: Seq<OpModel>,
    gone: Set<u32>,
    segment: u32,
)
    requires
        gentle(behind, gone),
        !gone.contains(segment),
    ensures
        is_active(
            apply_batch(store, before.push(activation(SegmentId(segment))) + behind),
            segment,
        ),
{
    let put = activation(SegmentId(segment));
    lemma_apply_concat(store, before.push(put), behind);
    lemma_apply_push(store, before, put);
    let midway = apply_batch(store, before.push(put));
    assert(midway.contains_key(active_key(segment)));
    lemma_gentle_keeps_active(midway, behind, gone, segment);
}

/// The writes that record new terms remove nothing.
pub proof fn lemma_term_writes_put(known: Map<Seq<u8>, TermId>, next_id: u32, terms: Seq<Seq<u8>>)
    ensures
        puts_only(term_writes(known, next_id, terms)),
    decreases terms.len(),
{
    if terms.len() > 0 {
        lemma_term_writes_put(known, next_id, terms.drop_last());
        if !known.contains_key(terms.last()) {
            let id = (next_id + fresh_count(known, terms.drop_last())) as u32;
            let created = term_creation(terms.last(), id);
            assert(puts_only(created));
            lemma_puts_concat(term_writes(known, next_id, terms.drop_last()), created);
        }
    }
}

/// The writes of the term directories of a segment remove nothing.
pub proof fn lemma_directory_writes_put(
    directories: Seq<((u16, usize), crate::doc_id_set::DocIdSet)>,
    ids: Seq<TermId>,
    segment: SegmentId,
)
    ensures
        puts_only(directory_writes(directories, ids, segment)),
    decreases directories.len(),
{
    if directories.len() > 0 {
        lemma_directory_writes_put(directories.drop_last(), ids, segment);
        let written = directory_write(directories.last(), ids, segment);
        assert(puts_only(written));
        lemma_puts_concat(directory_writes(directories.drop_last(), ids, segment), written);
    }
}

/// The writes of the totals of the fields of a segment remove nothing.
pub proof fn lemma_totals_writes_put(totals: Seq<(u16, FieldTotals)>, segment: SegmentId)
    ensures
        puts_only(totals_writes(totals, segment)),
    decreases totals.len(),
{
    if totals.len() > 0 {
        lemma_totals_writes_put(totals.drop_last(), segment);
        let written = totals_write(totals.last(), segment);
        assert(puts_only(written));
        lemma_puts_concat(totals_writes(totals.drop_last(), segment), written);
    }
}

/// The writes that put a document into the index make its segment live and
/// take no segment out of the live ones.
pub proof fn lemma_insertion_keeps_active(
    store: StoreModel,
    builder: crate::segment_builder::SegmentBuilder,
    segment: u32,
    known: Map<Seq<u8>, TermId>,
    next_term_id: u32,
    key: Seq<u8>,
    previous: Option<DocId>,
    other: u32,
)
    requires
        other == segment || is_active(store, other),
    ensures
        is_active(
            apply_batch(
                store,
                crate::index::insertion(builder, segment, known, next_term_id, key, previous),
            ),
            other,
        ),
{
    let dest = SegmentId(segment);
    let none: Set<u32> = Set::empty();
    let ids = crate::segment_writer::resolved_ids(known, next_term_id, builder.terms());
    let counter = seq![crate::index::segment_counter_put((segment + 1) as u32)];
    assert(puts_only(counter));
    let terms = term_writes(known, next_term_id, builder.terms());
    lemma_term_writes_put(known, next_term_id, builder.terms());
    let directories = directory_writes(builder.directories(), ids, dest);
    lemma_directory_writes_put(builder.directories(), ids, dest);
    let kept = stored_writes(builder.stored_values(), ids, dest);
    assert(puts_only(kept));
    let total = seq![total_docs_write(builder.doc_count(), dest)];
    assert(puts_only(total));
    let totals = totals_writes(builder.totals(), dest);
    lemma_totals_writes_put(builder.totals(), dest);
    let place = seq![location_put(key, DocId(dest, 0))];
    assert(puts_only(place));
    let gone = match previous {
        Some(document) => tombstone(document),
        None => Seq::empty(),
    };
    assert(puts_only(gone));
    lemma_puts_concat(counter, terms);
    lemma_puts_concat(counter + terms, directories);
    lemma_puts_concat(counter + terms + directories, kept);
    lemma_puts_concat(counter + terms + directories + kept, total);
    lemma_puts_concat(counter + terms + directories + kept + total, totals);
    lemma_puts_concat(place, gone);
    let before = counter + terms + directories + kept + total + totals;
    let behind = place + gone;
    let batch = crate::index::insertion(builder, segment, known, next_term_id, key, previous);
    assert(batch =~= before.push(activation(dest)) + behind);
    lemma_puts_are_gentle(behind, none);
    if other == segment {
        lemma_activated(store, before, behind, none, segment);
    } else {
        let made = before.push(activation(dest));
        assert forall|i: int| 0 <= i < made.len() implies !((#[trigger] made[i]) is Delete) by {
            if i < before.len() {
                assert(made[i] == before[i]);
            }
        }
        lemma_puts_are_gentle(made, none);
        lemma_gentle_concat(before.push(activation(dest)), behind, none);
        lemma_gentle_keeps_active(store, batch, none, other);
    }
}

/// The writes of the merged term directories remove nothing.
pub proof fn lemma_merged_directories_put(model: MergeModel, n: int)
    requires
        0 <= n <= model.pairs().len(),
    ensures
        puts_only(model.directory_writes(n)),
    decreases n,
{
    if n > 0 {
        lemma_merged_directories_put(model, n - 1);
        let pair = model.pairs()[n - 1];
        let written = merged_directory_write(pair, model.posting(pair), model.dest);
        assert(puts_only(written));
        lemma_puts_concat(model.directory_writes(n - 1), written);
    }
}

/// The writes that copy kept values into a new segment remove nothing.
pub proof fn lemma_copied_values_put(model: MergeModel, n: int)
    requires
        0 <= n <= model.entries.len(),
    ensures
        puts_only(model.copied_values(n)),
    decreases n,
{
    if n > 0 {
        lemma_copied_values_put(model, n - 1);
        let written = model.copied_value(model.entries[n - 1]);
        assert(puts_only(written));
        lemma_puts_concat(model.copied_values(n - 1), written);
    }
}

/// The writes of the statistics of the fields of a new segment remove nothing.
pub proof fn lemma_statistics_put(model: MergeModel, n: int)
    requires
        0 <= n <= model.pairs().len(),
    ensures
        puts_only(model.statistics_writes(n)),
    decreases n,
{
    if n > 0 {
        lemma_statistics_put(model, n - 1);
        if crate::segment_ops::first_of_field(model.pairs(), n - 1) {
            let written = model.field_statistics(model.pairs()[n - 1].0);
            assert(puts_only(written));
            lemma_puts_concat(model.statistics_writes(n - 1), written);
        }
    }
}

/// The writes that store the new places of keys remove nothing.
pub proof fn lemma_relocation_puts(
    entries: Seq<(Seq<u8>, DocId)>,
    mapping: Map<DocId, u16>,
    dest: SegmentId,
)
    ensures
        puts_only(relocation_puts(entries, mapping, dest)),
    decreases entries.len(),
{
    if entries.len() > 0 {
        lemma_relocation_puts(entries.drop_last(), mapping, dest);
        let fewer = relocation_puts(entries.drop_last(), mapping, dest);
        let all = relocation_puts(entries, mapping, dest);
        if mapping.contains_key(entries.last().1) {
            assert forall|i: int| 0 <= i < all.len() implies !((#[trigger] all[i]) is Delete) by {
                if i < fewer.len() {
                    assert(all[i] == fewer[i]);
                }
            }
        }
    }
}

/// The segments merged.
pub open spec fn merged_set(model: MergeModel) -> Set<u32> {
    Set::new(|segment: u32| model.segments.contains(segment))
}

/// The writes that take merged segments out of the live ones take out no
/// other segment.
pub proof fn lemma_deactivations_are_gentle(model: MergeModel, n: int)
    requires
        0 <= n <= model.segments.len(),
    ensures
        gentle(model.deactivations(n), merged_set(model)),
    decreases n,
{
    if n > 0 {
        lemma_deactivations_are_gentle(model, n - 1);
        let fewer = model.deactivations(n - 1);
        let all = model.deactivations(n);
        assert forall|i: int| 0 <= i < all.len() implies gentle_op(
            #[trigger] all[i],
            merged_set(model),
        ) by {
            if i < fewer.len() {
                assert(all[i] == fewer[i]);
            } else {
                assert forall|segment: u32|
                    op_key(all[i]) == #[trigger] active_key(segment) implies merged_set(
                    model,
                ).contains(segment) by {
                    (KeyModel::ActiveSegment {
                        segment_id: SegmentId(model.segments[n - 1]),
                    }).lemma_encoding_injective(
                        KeyModel::ActiveSegment { segment_id: SegmentId(segment) },
                    );
                    assert(model.segments.contains(model.segments[n - 1]));
                }
            }
        }
    }
}

/// After a merge the new segment is live, and so is every segment that was
/// live and is not merged.
pub proof fn lemma_merge_keeps_active(
    store: StoreModel,
    model: MergeModel,
    documents: nat,
    index: Seq<(Seq<u8>, DocId)>,
    deleted: Seq<u16>,
    other: u32,
)
    requires
        !model.segments.contains(model.dest.0),
        other == model.dest.0 || (is_active(store, other) && !model.segments.contains(other)),
    ensures
        is_active(apply_batch(store, merge_batch(model, documents, index, deleted)), other),
{
    let gone = merged_set(model);
    let counter = seq![crate::index::segment_counter_put((model.dest.0 + 1) as u32)];
    assert(puts_only(counter));
    let a = model.directory_writes(model.pairs().len() as int);
    lemma_merged_directories_put(model, model.pairs().len() as int);
    let b = model.copied_values(model.entries.len() as int);
    lemma_copied_values_put(model, model.entries.len() as int);
    let c = seq![model.total_docs_write(documents)];
    assert(puts_only(c));
    let d = model.statistics_writes(model.pairs().len() as int);
    lemma_statistics_put(model, model.pairs().len() as int);
    let f = model.deactivations(model.segments.len() as int);
    lemma_deactivations_are_gentle(model, model.segments.len() as int);
    let places = relocation_puts(index, model.mapping, model.dest);
    lemma_relocation_puts(index, model.mapping, model.dest);
    let list = seq![
        OpModel::Put {
            key: crate::segment::deletion_list_key(model.dest.0),
            value: crate::doc_id_set::ordinal_bytes(deleted),
        },
    ];
    assert(puts_only(list));
    lemma_puts_concat(counter, a);
    lemma_puts_concat(counter + a, b);
    lemma_puts_concat(counter + a + b, c);
    lemma_puts_concat(counter + a + b + c, d);
    lemma_puts_concat(places, list);
    let before = counter + a + b + c + d;
    let behind = f + (places + list);
    lemma_puts_are_gentle(places + list, gone);
    lemma_gentle_concat(f, places + list, gone);
    let batch = merge_batch(model, documents, index, deleted);
    assert(batch =~= before.push(activation(model.dest)) + behind);
    if other == model.dest.0 {
        lemma_activated(store, before, behind, gone, model.dest.0);
    } else {
        let made = before.push(activation(model.dest));
        assert forall|i: int| 0 <= i < made.len() implies !((#[trigger] made[i]) is Delete) by {
            if i < before.len() {
                assert(made[i] == before[i]);
            }
        }
        lemma_puts_are_gentle(made, gone);
        lemma_gentle_concat(made, behind, gone);
        lemma_gentle_keeps_active(store, batch, gone, other);
    }
}

/// Taking a document out of the index takes no segment out of the live ones.
pub proof fn lemma_removal_keeps_active(store: StoreModel, key: Seq<u8>, doc: DocId, other: u32)
    requires
        is_active(store, other),
    ensures
        is_active(apply_batch(store, crate::removal::removal(key, doc)), other),
{
    let none: Set<u32> = Set::empty();
    let batch = crate::removal::removal(key, doc);
    assert forall|i: int| 0 <= i < batch.len() implies gentle_op(#[trigger] batch[i], none) by {
        if i == 0 {
            assert forall|segment: u32| op_key(batch[0]) == #[trigger] active_key(
                segment,
            ) implies none.contains(segment) by {
                assert(op_key(batch[0])[0] == crate::key::TAG_UNIQUE_KEY);
                assert(active_key(segment)[0] == crate::key::TAG_ACTIVE_SEGMENT);
            }
        }
    }
    lemma_gentle_keeps_active(store, batch, none, other);
}

/// Removing the entries of segments takes no segment out of the live ones.
pub proof fn lemma_purge_keeps_active(
    store: StoreModel,
    keys: Seq<Seq<u8>>,
    segments: Seq<u32>,
    n: int,
    other: u32,
)
    requires
        0 <= n <= keys.len(),
        is_active(store, other),
    ensures
        is_active(apply_batch(store, purge_writes(keys, segments, n)), other),
{
    let none: Set<u32> = Set::empty();
    lemma_purge_is_gentle(keys, segments, n);
    lemma_gentle_keeps_active(store, purge_writes(keys, segments, n), none, other);
}

/// The writes that remove the entries of segments remove no mark of a live
/// segment.
pub proof fn lemma_purge_is_gentle(keys: Seq<Seq<u8>>, segments: Seq<u32>, n: int)
    requires
        0 <= n <= keys.len(),
    ensures
        gentle(purge_writes(keys, segments, n), Set::empty()),
    decreases n,
{
    let none: Set<u32> = Set::empty();
    if n > 0 {
        lemma_purge_is_gentle(keys, segments, n - 1);
        let last = purge_write(keys[n - 1], segments);
        assert forall|i: int| 0 <= i < last.len() implies gentle_op(#[trigger] last[i], none) by {
            assert forall|segment: u32| op_key(last[i]) == #[trigger] active_key(
                segment,
            ) implies none.contains(segment) by {
                (KeyModel::ActiveSegment {
                    segment_id: SegmentId(segment),
                }).lemma_decoding_of_encoding();
            }
        }
        lemma_gentle_concat(purge_writes(keys, segments, n - 1), last, none);
    }
}

/// Every key names a document of a live segment.
pub open spec fn named_active(store: StoreModel, keys: Map<Seq<u8>, DocId>) -> bool {
    forall|key: Seq<u8>| keys.contains_key(key) ==> is_active(store, (#[trigger] keys[key]).0.0)
}

} // verus!
