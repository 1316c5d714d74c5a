//! What a merge leaves in the store: the new segment holds what was left of
//! the merged ones.

use crate::assoc::{assoc_map, distinct_keys, has_key};
use crate::doc_id_mapping::{mapping_of, position_of};
use crate::doc_id_set::{listing_of, lists};
use crate::document::{DocId, SegmentId};
use crate::document_index::relocated_from;
use crate::key::{
    KeyModel, StatisticKey, TAG_ACTIVE_SEGMENT, TAG_FIELD_VALUE, TAG_STATISTIC, TAG_TERM_DIRECTORY,
};
use crate::query::Query;
use crate::query::multi_term_selector::MultiTermSelector;
use crate::schema::FieldId;
use crate::search::{hits, matches_all, matches_any, SearchContext, selected_matches, total_docs_in};
use crate::segment::{deleted_in, deletion_list_key, posting_in, statistic_key, term_directory_key};
use crate::segment_ops::{
    directory_pair, is_active, lemma_live_below, lemma_pairs_of, live_documents, live_in,
    merged_directory_write, merged_posting, MergeModel, readable,
};
use crate::segment_writer::activation;
use crate::term::TermId;
use crate::write_batch::{
    apply_batch, lemma_apply_last_put, lemma_apply_untouched, lemma_other_families,
    lemma_touches_concat, op_key, OpModel, stored, StoreModel, touches, within_families,
};
use vstd::prelude::*;

verus! {

/// The keys of the entries, in their order.
pub open spec fn keys_of(entries: Seq<(Seq<u8>, Seq<u8>)>) -> Seq<Seq<u8>> {
    Seq::new(entries.len(), |i: int| entries[i].0)
}

/// The entries are those of the store: every key of the store is the key of an
/// entry.
pub open spec fn covers(model: MergeModel) -> bool {
    forall|key: Seq<u8>| #[trigger]
        model.store.contains_key(key) ==> exists|i: int|
            0 <= i < model.entries.len() && model.entries[i].0 == key
}

/// The new segment is new: the store has no term directory of it.
pub open spec fn unused(model: MergeModel) -> bool {
    forall|field: FieldId, term: TermId|
        !model.store.contains_key(#[trigger] term_directory_key(model.dest.0, field, term))
}

/// Term directories of different fields or terms have different keys.
pub proof fn lemma_directory_keys_differ(
    segment: u32,
    field: FieldId,
    term: TermId,
    other_field: FieldId,
    other_term: TermId,
)
    requires
        term_directory_key(segment, field, term) == term_directory_key(
            segment,
            other_field,
            other_term,
        ),
    ensures
        field == other_field,
        term == other_term,
{
    (KeyModel::TermDirectory {
        field_id: field,
        term_id: term,
        segment_id: SegmentId(segment),
    }).lemma_encoding_injective(
        KeyModel::TermDirectory {
            field_id: other_field,
            term_id: other_term,
            segment_id: SegmentId(segment),
        },
    );
}

/// The writes of the copied values are about kept values.
pub proof fn lemma_copied_values_families(model: MergeModel, n: int)
    requires
        0 <= n <= model.entries.len(),
    ensures
        within_families(model.copied_values(n), TAG_FIELD_VALUE, TAG_FIELD_VALUE),
    decreases n,
{
    if n > 0 {
        lemma_copied_values_families(model, n - 1);
        let before = model.copied_values(n - 1);
        let last = model.copied_value(model.entries[n - 1]);
        let all = model.copied_values(n);
        assert forall|k: int| 0 <= k < all.len() implies op_key(#[trigger] all[k]).len() > 0
            && op_key(all[k])[0] == TAG_FIELD_VALUE by {
            if k < before.len() {
                assert(all[k] == before[k]);
            } else {
                assert(all[k] == last[k - before.len()]);
            }
        }
    }
}

/// The writes of the statistics of the fields are about statistics.
pub proof fn lemma_statistics_writes_families(model: MergeModel, n: int)
    requires
        0 <= n <= model.pairs().len(),
    ensures
        within_families(model.statistics_writes(n), TAG_STATISTIC, TAG_STATISTIC),
    decreases n,
{
    if n > 0 {
        lemma_statistics_writes_families(model, n - 1);
        let before = model.statistics_writes(n - 1);
        let last = model.field_statistics(model.pairs()[n - 1].0);
        let all = model.statistics_writes(n);
        assert forall|k: int| 0 <= k < all.len() implies op_key(#[trigger] all[k]).len() > 0
            && op_key(all[k])[0] == TAG_STATISTIC by {
            if k < before.len() {
                assert(all[k] == before[k]);
            } else {
                assert(all[k] == last[k - before.len()]);
            }
        }
    }
}

/// The writes that take segments out of the live ones are about live segments.
pub proof fn lemma_deactivations_families(model: MergeModel, n: int)
    requires
        0 <= n <= model.segments.len(),
    ensures
        within_families(model.deactivations(n), TAG_ACTIVE_SEGMENT, TAG_ACTIVE_SEGMENT),
    decreases n,
{
    if n > 0 {
        lemma_deactivations_families(model, n - 1);
        let before = model.deactivations(n - 1);
        let all = model.deactivations(n);
        assert forall|k: int| 0 <= k < all.len() implies op_key(#[trigger] all[k]).len() > 0
            && op_key(all[k])[0] == TAG_ACTIVE_SEGMENT by {
            if k < before.len() {
                assert(all[k] == before[k]);
            }
        }
    }
}

/// What comes behind the merged term directories in the writes of a merge.
pub open spec fn behind_directories(model: MergeModel, documents: nat) -> Seq<OpModel> {
    model.copied_values(model.entries.len() as int) + seq![model.total_docs_write(documents)]
        + model.statistics_writes(model.pairs().len() as int) + seq![activation(model.dest)]
        + model.deactivations(model.segments.len() as int)
}

/// Nothing behind the merged term directories is about a term directory.
pub proof fn lemma_behind_directories(model: MergeModel, documents: nat, key: Seq<u8>)
    requires
        key.len() > 0,
        key[0] == TAG_TERM_DIRECTORY,
    ensures
        !touches(behind_directories(model, documents), key),
{
    let a = model.copied_values(model.entries.len() as int);
    let b = seq![model.total_docs_write(documents)];
    let c = model.statistics_writes(model.pairs().len() as int);
    let d = seq![activation(model.dest)];
    let e = model.deactivations(model.segments.len() as int);
    lemma_copied_values_families(model, model.entries.len() as int);
    lemma_statistics_writes_families(model, model.pairs().len() as int);
    lemma_deactivations_families(model, model.segments.len() as int);
    assert(within_families(b, TAG_STATISTIC, TAG_STATISTIC));
    assert(within_families(d, TAG_ACTIVE_SEGMENT, TAG_ACTIVE_SEGMENT));
    lemma_other_families(a, TAG_FIELD_VALUE, TAG_FIELD_VALUE, key);
    lemma_other_families(b, TAG_STATISTIC, TAG_STATISTIC, key);
    lemma_other_families(c, TAG_STATISTIC, TAG_STATISTIC, key);
    lemma_other_families(d, TAG_ACTIVE_SEGMENT, TAG_ACTIVE_SEGMENT, key);
    lemma_other_families(e, TAG_ACTIVE_SEGMENT, TAG_ACTIVE_SEGMENT, key);
    lemma_touches_concat(a, b, key);
    lemma_touches_concat(a + b, c, key);
    lemma_touches_concat(a + b + c, d, key);
    lemma_touches_concat(a + b + c + d, e, key);
}

/// The merged term directories of the pairs from `from` on, before `to`.
pub open spec fn directories_between(model: MergeModel, from: int, to: int) -> Seq<OpModel>
    decreases to - from,
{
    if to <= from {
        Seq::empty()
    } else {
        directories_between(model, from, to - 1) + merged_directory_write(
            model.pairs()[to - 1],
            model.posting(model.pairs()[to - 1]),
            model.dest,
        )
    }
}

/// The writes of the first pairs are those of fewer pairs, then those of the rest.
pub proof fn lemma_directories_split(model: MergeModel, from: int, to: int)
    requires
        0 <= from <= to,
    ensures
        model.directory_writes(to) == model.directory_writes(from) + directories_between(
            model,
            from,
            to,
        ),
    decreases to - from,
{
    if to > from {
        lemma_directories_split(model, from, to - 1);
        assert(model.directory_writes(to) =~= model.directory_writes(from) + directories_between(
            model,
            from,
            to,
        ));
    } else {
        assert(model.directory_writes(to) =~= model.directory_writes(from) + directories_between(
            model,
            from,
            to,
        ));
    }
}

/// The writes of the pairs from `from` on are not about the term directory of
/// a pair that is not among them.
pub proof fn lemma_directories_between(
    model: MergeModel,
    from: int,
    to: int,
    field: FieldId,
    term: TermId,
)
    requires
        0 <= from <= to <= model.pairs().len(),
        forall|j: int| from <= j < to ==> model.pairs()[j] != (field, term),
    ensures
        !touches(
            directories_between(model, from, to),
            term_directory_key(model.dest.0, field, term),
        ),
    decreases to - from,
{
    let key = term_directory_key(model.dest.0, field, term);
    if to > from {
        lemma_directories_between(model, from, to - 1, field, term);
        let pair = model.pairs()[to - 1];
        let last = merged_directory_write(pair, model.posting(pair), model.dest);
        if touches(last, key) {
            let k = choose|k: int| 0 <= k < last.len() && op_key(#[trigger] last[k]) == key;
            if k == 0 {
                lemma_directory_keys_differ(model.dest.0, pair.0, pair.1, field, term);
            } else {
                assert(op_key(last[k])[0] == TAG_STATISTIC);
            }
            assert(false);
        }
        lemma_touches_concat(directories_between(model, from, to - 1), last, key);
    }
}

/// Nothing is left of what is listed as nothing.
pub proof fn lemma_empty_listing(posting: Set<u16>)
    requires
        lists(listing_of(posting), posting),
        listing_of(posting).len() == 0,
    ensures
        posting == Set::<u16>::empty(),
{
    assert forall|ord: u16| !posting.contains(ord) by {
        if posting.contains(ord) {
            assert(listing_of(posting).to_set().contains(ord));
        }
    }
    assert(posting =~= Set::<u16>::empty());
}

/// The merged directory of a field and a term without directories is empty.
pub proof fn lemma_merged_nothing(
    store: StoreModel,
    segments: Seq<u32>,
    mapping: Map<DocId, u16>,
    field: FieldId,
    term: TermId,
)
    requires
        forall|i: int|
            0 <= i < segments.len() ==> posting_in(store, #[trigger] segments[i], field, term)
                == Set::<u16>::empty(),
    ensures
        merged_posting(store, segments, mapping, field, term) == Set::<u16>::empty(),
    decreases segments.len(),
{
    reveal(merged_posting);
    if segments.len() > 0 {
        let before = segments.drop_last();
        assert forall|i: int| 0 <= i < before.len() implies posting_in(
            store,
            #[trigger] before[i],
            field,
            term,
        ) == Set::<u16>::empty() by {
            assert(before[i] == segments[i]);
        }
        lemma_merged_nothing(store, before, mapping, field, term);
        assert(posting_in(store, segments[segments.len() - 1], field, term) == Set::<u16>::empty());
        let moved = relocated_from(segments.last(), Set::<u16>::empty(), mapping);
        assert(moved =~= Set::<u16>::empty());
        assert(Set::<u16>::empty().union(moved) =~= Set::<u16>::empty());
    }
}

/// After a merge, the term directory of the new segment for a field and a term
/// is the merged one: the documents of the merged segments that have the term
/// in the field and are left, at their new ordinals.
#[verifier::spinoff_prover]
pub proof fn lemma_merged_directories(
    model: MergeModel,
    documents: nat,
    field: FieldId,
    term: TermId,
)
    requires
        covers(model),
        unused(model),
        model.all_readable(),
    ensures
        posting_in(
            apply_batch(model.store, model.writes(documents)),
            model.dest.0,
            field,
            term,
        ) == merged_posting(model.store, model.segments, model.mapping, field, term),
{
    let key = term_directory_key(model.dest.0, field, term);
    let pairs = model.pairs();
    let count = pairs.len() as int;
    let after = apply_batch(model.store, model.writes(documents));
    let behind = behind_directories(model, documents);
    lemma_behind_directories(model, documents, key);
    lemma_pairs_of(keys_of(model.entries), model.segments);
    assert(keys_of(model.entries) =~= Seq::new(
        model.entries.len(),
        |i: int| model.entries[i].0,
    ));
    assert(model.writes(documents) =~= model.directory_writes(count) + behind);
    if pairs.contains((field, term)) {
        let at = choose|at: int| 0 <= at < pairs.len() && pairs[at] == (field, term);
        let posting = model.posting(pairs[at]);
        assert(readable(posting));
        assert forall|j: int| at + 1 <= j < count implies pairs[j] != (field, term) by {}
        lemma_directories_between(model, at + 1, count, field, term);
        lemma_directories_split(model, at + 1, count);
        let later = directories_between(model, at + 1, count);
        lemma_touches_concat(later, behind, key);
        if listing_of(posting).len() == 0 {
            lemma_empty_listing(posting);
            assert forall|j: int| 0 <= j < at implies pairs[j] != (field, term) by {}
            lemma_directories_between(model, 0, at, field, term);
            lemma_directories_split(model, 0, at);
            assert(model.directory_writes(0) =~= Seq::<OpModel>::empty());
            assert(model.directory_writes(at + 1) =~= model.directory_writes(at));
            lemma_touches_concat(model.directory_writes(at), later, key);
            lemma_touches_concat(model.directory_writes(at) + later, behind, key);
            assert(model.directory_writes(at) =~= directories_between(model, 0, at));
            lemma_apply_untouched(model.store, model.writes(documents), key);
        } else {
            let value = crate::bitmap::serialized_values(crate::segment_ops::values_of(posting));
            let put = OpModel::Put { key, value };
            let counted = merged_directory_write(pairs[at], posting, model.dest)[1];
            assert(model.directory_writes(at + 1) =~= model.directory_writes(at) + seq![put]
                + seq![counted]);
            assert(op_key(counted)[0] == TAG_STATISTIC);
            assert(within_families(seq![counted], TAG_STATISTIC, TAG_STATISTIC));
            lemma_other_families(seq![counted], TAG_STATISTIC, TAG_STATISTIC, key);
            lemma_touches_concat(seq![counted], later + behind, key);
            assert(model.writes(documents) =~= model.directory_writes(at) + seq![put] + (seq![
                counted,
            ] + (later + behind)));
            lemma_apply_last_put(
                model.store,
                model.directory_writes(at),
                key,
                value,
                seq![counted] + (later + behind),
            );
        }
    } else {
        assert forall|j: int| 0 <= j < count implies pairs[j] != (field, term) by {
            if pairs[j] == (field, term) {
                assert(pairs.contains((field, term)));
            }
        }
        lemma_directories_between(model, 0, count, field, term);
        lemma_directories_split(model, 0, count);
        assert(model.directory_writes(0) =~= Seq::<OpModel>::empty());
        assert(model.directory_writes(count) =~= directories_between(model, 0, count));
        lemma_touches_concat(model.directory_writes(count), behind, key);
        lemma_apply_untouched(model.store, model.writes(documents), key);
        // No merged segment has a directory for the field and the term.
        assert forall|i: int| 0 <= i < model.segments.len() implies posting_in(
            model.store,
            #[trigger] model.segments[i],
            field,
            term,
        ) == Set::<u16>::empty() by {
            let source = term_directory_key(model.segments[i], field, term);
            if model.store.contains_key(source) {
                let e = choose|e: int| 0 <= e < model.entries.len() && model.entries[e].0 == source;
                (KeyModel::TermDirectory {
                    field_id: field,
                    term_id: term,
                    segment_id: SegmentId(model.segments[i]),
                }).lemma_decoding_of_encoding();
                assert(model.segments.contains(model.segments[i]));
                assert(directory_pair(keys_of(model.entries)[e], model.segments) == Some(
                    (field, term),
                ));
                assert(pairs.contains((field, term)));
            }
        }
        lemma_merged_nothing(model.store, model.segments, model.mapping, field, term);
    }
}

/// The document at an ordinal of a merged segment is left and gets the new
/// ordinal.
pub open spec fn moves(model: MergeModel, segment: u32, ord: u16, new_ord: u16) -> bool {
    &&& model.segments.contains(segment)
    &&& model.mapping.contains_key(DocId(SegmentId(segment), ord))
    &&& model.mapping[DocId(SegmentId(segment), ord)] == new_ord
}

/// The new ordinals of the documents that are left, of those that the sets
/// hold for each merged segment.
pub open spec fn moved(model: MergeModel, sets: spec_fn(u32) -> Set<u16>) -> Set<u16> {
    Set::new(
        |new_ord: u16|
            exists|segment: u32, ord: u16|
                #[trigger] moves(model, segment, ord, new_ord) && sets(segment).contains(ord),
    )
}

/// No two documents get one new ordinal.
pub open spec fn one_to_one(model: MergeModel) -> bool {
    forall|segment: u32, ord: u16, other_segment: u32, other_ord: u16, new_ord: u16|
        #[trigger] moves(model, segment, ord, new_ord) && #[trigger] moves(
            model,
            other_segment,
            other_ord,
            new_ord,
        ) ==> segment == other_segment && ord == other_ord
}

/// The documents of either of two families, moved, are those of the one
/// family, moved, with those of the other, moved.
pub proof fn lemma_moved_union(
    model: MergeModel,
    both: spec_fn(u32) -> Set<u16>,
    first: spec_fn(u32) -> Set<u16>,
    second: spec_fn(u32) -> Set<u16>,
)
    requires
        forall|segment: u32| #[trigger] both(segment) == first(segment).union(second(segment)),
    ensures
        moved(model, both) == moved(model, first).union(moved(model, second)),
{
    assert forall|o: u16| #[trigger]
        moved(model, both).contains(o) <==> moved(model, first).union(
            moved(model, second),
        ).contains(o) by {
        if moved(model, both).contains(o) {
            let (s, x) = choose|s: u32, x: u16| #[trigger]
                moves(model, s, x, o) && both(s).contains(x);
            assert(first(s).union(second(s)).contains(x));
            if first(s).contains(x) {
                assert(moves(model, s, x, o) && first(s).contains(x));
            } else {
                assert(moves(model, s, x, o) && second(s).contains(x));
            }
        }
        if moved(model, first).contains(o) {
            let (s, x) = choose|s: u32, x: u16| #[trigger]
                moves(model, s, x, o) && first(s).contains(x);
            assert(both(s).contains(x));
            assert(moves(model, s, x, o) && both(s).contains(x));
        }
        if moved(model, second).contains(o) {
            let (s, x) = choose|s: u32, x: u16| #[trigger]
                moves(model, s, x, o) && second(s).contains(x);
            assert(both(s).contains(x));
            assert(moves(model, s, x, o) && both(s).contains(x));
        }
    }
    assert(moved(model, both) =~= moved(model, first).union(moved(model, second)));
}

/// The documents of both of two families, moved, are those of the one family,
/// moved, that are among those of the other, moved.
pub proof fn lemma_moved_intersect(
    model: MergeModel,
    both: spec_fn(u32) -> Set<u16>,
    first: spec_fn(u32) -> Set<u16>,
    second: spec_fn(u32) -> Set<u16>,
)
    requires
        one_to_one(model),
        forall|segment: u32| #[trigger] both(segment) == first(segment).intersect(second(segment)),
    ensures
        moved(model, both) == moved(model, first).intersect(moved(model, second)),
{
    assert forall|o: u16| #[trigger]
        moved(model, both).contains(o) <==> moved(model, first).intersect(
            moved(model, second),
        ).contains(o) by {
        if moved(model, both).contains(o) {
            let (s, x) = choose|s: u32, x: u16| #[trigger]
                moves(model, s, x, o) && both(s).contains(x);
            assert(first(s).intersect(second(s)).contains(x));
            assert(moves(model, s, x, o) && first(s).contains(x));
            assert(moves(model, s, x, o) && second(s).contains(x));
        }
        if moved(model, first).contains(o) && moved(model, second).contains(o) {
            let (s, x) = choose|s: u32, x: u16| #[trigger]
                moves(model, s, x, o) && first(s).contains(x);
            let (t, y) = choose|t: u32, y: u16| #[trigger]
                moves(model, t, y, o) && second(t).contains(y);
            assert(s == t && x == y);
            assert(both(s).contains(x));
            assert(moves(model, s, x, o) && both(s).contains(x));
        }
    }
    assert(moved(model, both) =~= moved(model, first).intersect(moved(model, second)));
}

/// The documents of one family and not of another, moved, are those of the
/// one family, moved, that are not among those of the other, moved.
pub proof fn lemma_moved_difference(
    model: MergeModel,
    both: spec_fn(u32) -> Set<u16>,
    first: spec_fn(u32) -> Set<u16>,
    second: spec_fn(u32) -> Set<u16>,
)
    requires
        one_to_one(model),
        forall|segment: u32| #[trigger] both(segment) == first(segment).difference(second(segment)),
    ensures
        moved(model, both) == moved(model, first).difference(moved(model, second)),
{
    assert forall|o: u16| #[trigger]
        moved(model, both).contains(o) <==> moved(model, first).difference(
            moved(model, second),
        ).contains(o) by {
        if moved(model, both).contains(o) {
            let (s, x) = choose|s: u32, x: u16| #[trigger]
                moves(model, s, x, o) && both(s).contains(x);
            assert(first(s).difference(second(s)).contains(x));
            assert(moves(model, s, x, o) && first(s).contains(x));
            if moved(model, second).contains(o) {
                let (t, y) = choose|t: u32, y: u16| #[trigger]
                    moves(model, t, y, o) && second(t).contains(y);
                assert(s == t && x == y);
            }
        }
        if moved(model, first).contains(o) && !moved(model, second).contains(o) {
            let (s, x) = choose|s: u32, x: u16| #[trigger]
                moves(model, s, x, o) && first(s).contains(x);
            if second(s).contains(x) {
                assert(moves(model, s, x, o) && second(s).contains(x));
            }
            assert(both(s).contains(x));
            assert(moves(model, s, x, o) && both(s).contains(x));
        }
    }
    assert(moved(model, both) =~= moved(model, first).difference(moved(model, second)));
}

/// Nothing, moved, is nothing.
pub proof fn lemma_moved_nothing(model: MergeModel, none: spec_fn(u32) -> Set<u16>)
    requires
        forall|segment: u32| #[trigger] none(segment) == Set::<u16>::empty(),
    ensures
        moved(model, none) == Set::<u16>::empty(),
{
    assert forall|o: u16| !moved(model, none).contains(o) by {
        if moved(model, none).contains(o) {
            let (s, x) = choose|s: u32, x: u16| #[trigger]
                moves(model, s, x, o) && none(s).contains(x);
            assert(none(s) == Set::<u16>::empty());
        }
    }
    assert(moved(model, none) =~= Set::<u16>::empty());
}

/// Families that hold the same documents of the merged segments hold the
/// same documents, moved.
pub proof fn lemma_moved_same(
    model: MergeModel,
    first: spec_fn(u32) -> Set<u16>,
    second: spec_fn(u32) -> Set<u16>,
)
    requires
        forall|segment: u32|
            model.segments.contains(segment) ==> #[trigger] first(segment) == second(segment),
    ensures
        moved(model, first) == moved(model, second),
{
    assert forall|o: u16| #[trigger]
        moved(model, first).contains(o) <==> moved(model, second).contains(o) by {
        if moved(model, first).contains(o) {
            let (s, x) = choose|s: u32, x: u16| #[trigger]
                moves(model, s, x, o) && first(s).contains(x);
            assert(first(s) == second(s));
            assert(moves(model, s, x, o) && second(s).contains(x));
        }
        if moved(model, second).contains(o) {
            let (s, x) = choose|s: u32, x: u16| #[trigger]
                moves(model, s, x, o) && second(s).contains(x);
            assert(first(s) == second(s));
            assert(moves(model, s, x, o) && first(s).contains(x));
        }
    }
    assert(moved(model, first) =~= moved(model, second));
}

/// The merged term directory of a field and a term holds the documents of
/// the term directories of the merged segments, moved.
pub proof fn lemma_merged_is_moved(model: MergeModel, field: FieldId, term: TermId, n: int)
    requires
        0 <= n <= model.segments.len(),
    ensures
        merged_posting(model.store, model.segments.subrange(0, n), model.mapping, field, term)
            == Set::new(
            |new_ord: u16|
                exists|segment: u32, ord: u16|
                    #[trigger] moves(model, segment, ord, new_ord) && model.segments.subrange(
                        0,
                        n,
                    ).contains(segment) && posting_in(model.store, segment, field, term).contains(
                        ord,
                    ),
        ),
    decreases n,
{
    reveal(merged_posting);
    let head = model.segments.subrange(0, n);
    let target = Set::new(
        |new_ord: u16|
            exists|segment: u32, ord: u16|
                #[trigger] moves(model, segment, ord, new_ord) && head.contains(segment)
                    && posting_in(model.store, segment, field, term).contains(ord),
    );
    let merged = merged_posting(model.store, head, model.mapping, field, term);
    if n == 0 {
        assert(head =~= Seq::<u32>::empty());
        assert(target =~= Set::<u16>::empty());
    } else {
        let fewer = model.segments.subrange(0, n - 1);
        let last = model.segments[n - 1];
        assert(head.drop_last() =~= fewer);
        assert(head.last() == last);
        lemma_merged_is_moved(model, field, term, n - 1);
        let before = merged_posting(model.store, fewer, model.mapping, field, term);
        let added = relocated_from(
            last,
            posting_in(model.store, last, field, term),
            model.mapping,
        );
        assert(merged == before.union(added));
        assert forall|o: u16| #[trigger] target.contains(o) <==> before.union(added).contains(
            o,
        ) by {
            if target.contains(o) {
                let (s, x) = choose|s: u32, x: u16| #[trigger]
                    moves(model, s, x, o) && head.contains(s) && posting_in(
                        model.store,
                        s,
                        field,
                        term,
                    ).contains(x);
                let i = choose|i: int| 0 <= i < head.len() && head[i] == s;
                if i < n - 1 {
                    assert(fewer[i] == s);
                    assert(moves(model, s, x, o) && fewer.contains(s) && posting_in(
                        model.store,
                        s,
                        field,
                        term,
                    ).contains(x));
                } else {
                    assert(s == last);
                    assert(posting_in(model.store, last, field, term).contains(x));
                    assert(added.contains(o));
                }
            }
            if before.contains(o) {
                let (s, x) = choose|s: u32, x: u16| #[trigger]
                    moves(model, s, x, o) && fewer.contains(s) && posting_in(
                        model.store,
                        s,
                        field,
                        term,
                    ).contains(x);
                let i = choose|i: int| 0 <= i < fewer.len() && fewer[i] == s;
                assert(head[i] == s);
                assert(moves(model, s, x, o) && head.contains(s) && posting_in(
                    model.store,
                    s,
                    field,
                    term,
                ).contains(x));
            }
            if added.contains(o) {
                let x = choose|x: u16|
                    #[trigger] posting_in(model.store, last, field, term).contains(x)
                        && model.mapping.contains_key(DocId(SegmentId(last), x))
                        && model.mapping[DocId(SegmentId(last), x)] == o;
                assert(model.segments[n - 1] == last);
                assert(head[n - 1] == last);
                assert(moves(model, last, x, o) && head.contains(last) && posting_in(
                    model.store,
                    last,
                    field,
                    term,
                ).contains(x));
            }
        }
        assert(target =~= before.union(added));
    }
}

/// The documents that are left of segments given once are documents of those
/// segments, below the counts of their segments and not deleted, each once;
/// and every such document is among them.
#[verifier::spinoff_prover]
pub proof fn lemma_live_documents(store: StoreModel, segments: Seq<u32>)
    requires
        segments.no_duplicates(),
    ensures
        live_documents(store, segments).no_duplicates(),
        forall|i: int|
            0 <= i < live_documents(store, segments).len() ==> {
                let doc = #[trigger] live_documents(store, segments)[i];
                &&& segments.contains(doc.0.0)
                &&& doc.1 < total_docs_in(store, doc.0.0)
                &&& !deleted_in(store, doc.0.0).contains(doc.1)
            },
        forall|segment: u32, ord: u16|
            segments.contains(segment) && ord < total_docs_in(store, segment) && !(
            #[trigger] deleted_in(store, segment).contains(ord)) ==> live_documents(
                store,
                segments,
            ).contains(DocId(SegmentId(segment), ord)),
    decreases segments.len(),
{
    if segments.len() > 0 {
        let fewer = segments.drop_last();
        let last = segments.last();
        let before = live_documents(store, fewer);
        let added = live_in(store, last);
        let all = live_documents(store, segments);
        assert(fewer.no_duplicates());
        lemma_live_documents(store, fewer);
        lemma_live_below(deleted_in(store, last), last, total_docs_in(store, last));
        assert forall|i: int| 0 <= i < all.len() implies {
            let doc = #[trigger] all[i];
            &&& segments.contains(doc.0.0)
            &&& doc.1 < total_docs_in(store, doc.0.0)
            &&& !deleted_in(store, doc.0.0).contains(doc.1)
        } by {
            if i < before.len() {
                assert(all[i] == before[i]);
                let j = choose|j: int| 0 <= j < fewer.len() && fewer[j] == before[i].0.0;
                assert(segments[j] == before[i].0.0);
            } else {
                assert(all[i] == added[i - before.len()]);
                assert(segments[segments.len() - 1] == last);
            }
        }
        assert forall|i: int, j: int| 0 <= i < all.len() && 0 <= j < all.len() && i
            != j implies all[i] != all[j] by {
            if i < before.len() && j < before.len() {
                assert(all[i] == before[i] && all[j] == before[j]);
            } else if i >= before.len() && j >= before.len() {
                assert(all[i] == added[i - before.len()] && all[j] == added[j - before.len()]);
            } else {
                let (low, high) = if i < j { (i, j) } else { (j, i) };
                assert(all[low] == before[low]);
                assert(all[high] == added[high - before.len()]);
                let k = choose|k: int| 0 <= k < fewer.len() && fewer[k] == before[low].0.0;
                assert(segments[k] != segments[segments.len() - 1]);
            }
        }
        assert forall|segment: u32, ord: u16|
            segments.contains(segment) && ord < total_docs_in(store, segment) && !(
            #[trigger] deleted_in(store, segment).contains(ord)) implies all.contains(
            DocId(SegmentId(segment), ord),
        ) by {
            let doc = DocId(SegmentId(segment), ord);
            let j = choose|j: int| 0 <= j < segments.len() && segments[j] == segment;
            if j < fewer.len() {
                assert(fewer[j] == segment);
                assert(before.contains(doc));
                let i = choose|i: int| 0 <= i < before.len() && before[i] == doc;
                assert(all[i] == doc);
            } else {
                assert(added.contains(doc));
                let i = choose|i: int| 0 <= i < added.len() && added[i] == doc;
                assert(all[before.len() + i] == doc);
            }
        }
    }
}

/// The documents that are left get the ordinals from zero on, in their order.
pub open spec fn keeps_live(model: MergeModel) -> bool {
    &&& model.segments.no_duplicates()
    &&& live_documents(model.store, model.segments).len() <= 0x1_0000
    &&& model.mapping == mapping_of(live_documents(model.store, model.segments))
}

/// Where the documents that are left get the ordinals from zero on, no two
/// get one ordinal; the documents moved are the documents left; and the new
/// ordinals are those below the number of documents left.
pub proof fn lemma_keeps_live(model: MergeModel)
    requires
        keeps_live(model),
    ensures
        one_to_one(model),
        forall|segment: u32, ord: u16, new_ord: u16| #[trigger]
            moves(model, segment, ord, new_ord) ==> ord < total_docs_in(model.store, segment)
                && !deleted_in(model.store, segment).contains(ord) && new_ord < live_documents(
                model.store,
                model.segments,
            ).len(),
        forall|new_ord: u16|
            new_ord < live_documents(model.store, model.segments).len() ==> moves(
                model,
                (#[trigger] live_documents(model.store, model.segments)[new_ord as int]).0.0,
                live_documents(model.store, model.segments)[new_ord as int].1,
                new_ord,
            ),
{
    let kept = live_documents(model.store, model.segments);
    lemma_live_documents(model.store, model.segments);
    assert forall|segment: u32, ord: u16, new_ord: u16| #[trigger]
        moves(model, segment, ord, new_ord) implies ord < total_docs_in(model.store, segment)
        && !deleted_in(model.store, segment).contains(ord) && new_ord < kept.len() && kept[new_ord as int]
        == DocId(SegmentId(segment), ord) by {
        let doc = DocId(SegmentId(segment), ord);
        assert(kept.contains(doc));
        let i = position_of(kept, doc);
        assert(kept[i] == doc);
    }
    assert forall|segment: u32, ord: u16, other_segment: u32, other_ord: u16, new_ord: u16|
        #[trigger] moves(model, segment, ord, new_ord) && #[trigger] moves(
            model,
            other_segment,
            other_ord,
            new_ord,
        ) implies segment == other_segment && ord == other_ord by {
        assert(kept[new_ord as int] == DocId(SegmentId(segment), ord));
        assert(kept[new_ord as int] == DocId(SegmentId(other_segment), other_ord));
    }
    assert forall|new_ord: u16| new_ord < kept.len() implies moves(
        model,
        (#[trigger] kept[new_ord as int]).0.0,
        kept[new_ord as int].1,
        new_ord,
    ) by {
        let doc = kept[new_ord as int];
        assert(kept.contains(doc));
        assert(position_of(kept, doc) == new_ord);
        assert(doc == DocId(SegmentId(doc.0.0), doc.1));
    }
}

/// After a merge, the new segment counts the documents that are left.
pub proof fn lemma_merged_total_docs(model: MergeModel, documents: nat)
    requires
        documents <= 0x1_0000,
    ensures
        total_docs_in(apply_batch(model.store, model.writes(documents)), model.dest.0)
            == documents,
{
    let key = statistic_key(model.dest.0, crate::key::name_total_docs());
    let total = KeyModel::Statistic { segment_id: model.dest, statistic: StatisticKey::TotalDocs };
    assert(total.encoding() =~= key);
    let value = crate::encoding::be_i64(documents as i64);
    crate::encoding::lemma_decode_encode(0, 0, 0, documents as i64);
    let a = model.directory_writes(model.pairs().len() as int) + model.copied_values(
        model.entries.len() as int,
    );
    let c = model.statistics_writes(model.pairs().len() as int);
    let d = seq![activation(model.dest)];
    let e = model.deactivations(model.segments.len() as int);
    lemma_statistics_other(model, model.pairs().len() as int);
    lemma_deactivations_families(model, model.segments.len() as int);
    assert(within_families(d, TAG_ACTIVE_SEGMENT, TAG_ACTIVE_SEGMENT));
    lemma_other_families(d, TAG_ACTIVE_SEGMENT, TAG_ACTIVE_SEGMENT, key);
    lemma_other_families(e, TAG_ACTIVE_SEGMENT, TAG_ACTIVE_SEGMENT, key);
    lemma_touches_concat(c, d, key);
    lemma_touches_concat(c + d, e, key);
    assert(model.writes(documents) =~= a + seq![OpModel::Put { key, value }] + (c + d + e));
    lemma_apply_last_put(model.store, a, key, value, c + d + e);
}

/// The writes of the statistics of the fields are not about the number of
/// documents.
pub proof fn lemma_statistics_other(model: MergeModel, n: int)
    requires
        0 <= n <= model.pairs().len(),
    ensures
        !touches(
            model.statistics_writes(n),
            (KeyModel::Statistic {
                segment_id: model.dest,
                statistic: StatisticKey::TotalDocs,
            }).encoding(),
        ),
    decreases n,
{
    let total = KeyModel::Statistic { segment_id: model.dest, statistic: StatisticKey::TotalDocs };
    if n > 0 {
        lemma_statistics_other(model, n - 1);
        let before = model.statistics_writes(n - 1);
        let field = model.pairs()[n - 1].0;
        let last = model.field_statistics(field);
        if touches(last, total.encoding()) {
            let k = choose|k: int| 0 <= k < last.len() && op_key(#[trigger] last[k])
                == total.encoding();
            if k == 0 {
                (KeyModel::Statistic {
                    segment_id: model.dest,
                    statistic: StatisticKey::TotalFieldDocs(field),
                }).lemma_encoding_injective(total);
            } else {
                (KeyModel::Statistic {
                    segment_id: model.dest,
                    statistic: StatisticKey::TotalFieldTokens(field),
                }).lemma_encoding_injective(total);
            }
        }
        if crate::segment_ops::first_of_field(model.pairs(), n - 1) {
            lemma_touches_concat(before, last, total.encoding());
        }
    }
}

/// What a query is evaluated on when a segment of a store is searched with
/// the given terms of the index.
pub open spec fn context_in(
    store: StoreModel,
    segment: u32,
    terms: Seq<(Seq<u8>, TermId)>,
) -> SearchContext {
    SearchContext { entries: store, segment, terms, total_docs: total_docs_in(store, segment) }
}

/// The store after the merge.
pub open spec fn merged_store(model: MergeModel) -> StoreModel {
    apply_batch(
        model.store,
        model.writes(live_documents(model.store, model.segments).len()),
    )
}

/// What the query matches in each of the merged segments before the merge.
pub open spec fn found_before(
    query: Query,
    model: MergeModel,
    terms: Seq<(Seq<u8>, TermId)>,
) -> spec_fn(u32) -> Set<u16> {
    |segment: u32| crate::search::matches(query, context_in(model.store, segment, terms))
}

/// What the first `n` queries all match in each of the merged segments.
pub open spec fn all_found_before(
    queries: Seq<Query>,
    n: int,
    model: MergeModel,
    terms: Seq<(Seq<u8>, TermId)>,
) -> spec_fn(u32) -> Set<u16> {
    |segment: u32| matches_all(queries, n, context_in(model.store, segment, terms))
}

/// What one of the first `n` queries matches in each of the merged segments.
pub open spec fn any_found_before(
    queries: Seq<Query>,
    n: int,
    model: MergeModel,
    terms: Seq<(Seq<u8>, TermId)>,
) -> spec_fn(u32) -> Set<u16> {
    |segment: u32| matches_any(queries, n, context_in(model.store, segment, terms))
}

/// The term directories of a field and a term in each of the merged segments.
pub open spec fn directories_before(model: MergeModel, field: FieldId, term: TermId) -> spec_fn(
    u32,
) -> Set<u16> {
    |segment: u32| posting_in(model.store, segment, field, term)
}

/// What the merge must be for what it leaves to be what was there: the
/// entries are those of the store, the new segment is new, the merged term
/// directories are read back as written, and the documents that are left get
/// the ordinals from zero on.
pub open spec fn sound(model: MergeModel) -> bool {
    covers(model) && unused(model) && model.all_readable() && keeps_live(model)
}

/// After a merge, the term directory of the new segment for a field and a
/// term holds the documents of the term directories of the merged segments,
/// moved.
pub proof fn lemma_directory_moved(model: MergeModel, field: FieldId, term: TermId)
    requires
        sound(model),
    ensures
        posting_in(merged_store(model), model.dest.0, field, term) == moved(
            model,
            directories_before(model, field, term),
        ),
{
    let documents = live_documents(model.store, model.segments).len();
    lemma_merged_directories(model, documents, field, term);
    lemma_merged_is_moved(model, field, term, model.segments.len() as int);
    assert(model.segments.subrange(0, model.segments.len() as int) =~= model.segments);
    let merged = merged_posting(model.store, model.segments, model.mapping, field, term);
    let target = moved(model, directories_before(model, field, term));
    assert forall|o: u16| #[trigger] merged.contains(o) <==> target.contains(o) by {
        if merged.contains(o) {
            let (s, x) = choose|s: u32, x: u16| #[trigger]
                moves(model, s, x, o) && model.segments.contains(s) && posting_in(
                    model.store,
                    s,
                    field,
                    term,
                ).contains(x);
            assert(moves(model, s, x, o) && directories_before(model, field, term)(s).contains(x));
        }
        if target.contains(o) {
            let (s, x) = choose|s: u32, x: u16| #[trigger]
                moves(model, s, x, o) && directories_before(model, field, term)(s).contains(x);
            assert(moves(model, s, x, o) && model.segments.contains(s) && posting_in(
                model.store,
                s,
                field,
                term,
            ).contains(x));
        }
    }
    assert(merged =~= target);
}

/// After a merge, the documents of the new segment that have one of the
/// first `n` chosen terms in the field are those of the merged segments, moved.
pub proof fn lemma_selected_moved(
    model: MergeModel,
    terms: Seq<(Seq<u8>, TermId)>,
    field: FieldId,
    selector: MultiTermSelector,
    n: int,
)
    requires
        sound(model),
        0 <= n <= terms.len(),
    ensures
        selected_matches(context_in(merged_store(model), model.dest.0, terms), field, selector, n)
            == moved(
            model,
            |segment: u32|
                selected_matches(context_in(model.store, segment, terms), field, selector, n),
        ),
    decreases n,
{
    let after = context_in(merged_store(model), model.dest.0, terms);
    let now = |segment: u32|
        selected_matches(context_in(model.store, segment, terms), field, selector, n);
    if n == 0 {
        lemma_moved_nothing(model, now);
    } else {
        let fewer = |segment: u32|
            selected_matches(context_in(model.store, segment, terms), field, selector, n - 1);
        lemma_selected_moved(model, terms, field, selector, n - 1);
        if selector.selects(terms[n - 1].0) {
            let added = directories_before(model, field, terms[n - 1].1);
            lemma_directory_moved(model, field, terms[n - 1].1);
            lemma_moved_union(model, now, fewer, added);
        } else {
            lemma_moved_same(model, now, fewer);
        }
    }
}

/// After a merge, a search of the new segment matches the documents that the
/// same search matched in the merged segments and that are left, at their
/// new ordinals.
#[verifier::spinoff_prover]
pub proof fn lemma_merge_keeps_matches(
    query: Query,
    model: MergeModel,
    terms: Seq<(Seq<u8>, TermId)>,
)
    requires
        sound(model),
    ensures
        crate::search::matches(query, context_in(merged_store(model), model.dest.0, terms))
            == moved(model, found_before(query, model, terms)),
    decreases query,
{
    let after = context_in(merged_store(model), model.dest.0, terms);
    let before = found_before(query, model, terms);
    let kept = live_documents(model.store, model.segments);
    lemma_keeps_live(model);
    match query {
        Query::All => {
            lemma_merged_total_docs(model, kept.len());
            let found = crate::search::matches(query, after);
            assert forall|o: u16| #[trigger] found.contains(o) <==> moved(model, before).contains(
                o,
            ) by {
                if found.contains(o) {
                    let doc = kept[o as int];
                    assert(moves(model, doc.0.0, doc.1, o));
                    assert(before(doc.0.0).contains(doc.1));
                }
                if moved(model, before).contains(o) {
                    let (s, x) = choose|s: u32, x: u16| #[trigger]
                        moves(model, s, x, o) && before(s).contains(x);
                }
            }
            assert(found =~= moved(model, before));
        },
        Query::Nothing => {
            lemma_moved_nothing(model, before);
        },
        Query::Term { field, term } => {
            if has_key(terms, term@) {
                let id = assoc_map(terms)[term@];
                lemma_directory_moved(model, field, id);
                lemma_moved_same(model, before, directories_before(model, field, id));
            } else {
                lemma_moved_nothing(model, before);
            }
        },
        Query::MultiTerm { field, term_selector } => {
            lemma_selected_moved(model, terms, field, term_selector, terms.len() as int);
            lemma_moved_same(
                model,
                before,
                |segment: u32|
                    selected_matches(
                        context_in(model.store, segment, terms),
                        field,
                        term_selector,
                        terms.len() as int,
                    ),
            );
        },
        Query::Conjunction { queries } => {
            if queries@.len() == 0 {
                lemma_moved_nothing(model, before);
            } else {
                lemma_all_moved(queries@, queries@.len() as int, model, terms);
                lemma_moved_same(
                    model,
                    before,
                    all_found_before(queries@, queries@.len() as int, model, terms),
                );
            }
        },
        Query::Disjunction { queries } => {
            lemma_any_moved(queries@, queries@.len() as int, model, terms);
            lemma_moved_same(
                model,
                before,
                any_found_before(queries@, queries@.len() as int, model, terms),
            );
        },
        Query::DisjunctionMax { queries } => {
            lemma_any_moved(queries@, queries@.len() as int, model, terms);
            lemma_moved_same(
                model,
                before,
                any_found_before(queries@, queries@.len() as int, model, terms),
            );
        },
        Query::Filter { query: inner, filter } => {
            lemma_merge_keeps_matches(*inner, model, terms);
            lemma_merge_keeps_matches(*filter, model, terms);
            lemma_moved_intersect(
                model,
                before,
                found_before(*inner, model, terms),
                found_before(*filter, model, terms),
            );
        },
        Query::Exclude { query: inner, exclude } => {
            lemma_merge_keeps_matches(*inner, model, terms);
            lemma_merge_keeps_matches(*exclude, model, terms);
            lemma_moved_difference(
                model,
                before,
                found_before(*inner, model, terms),
                found_before(*exclude, model, terms),
            );
        },
    }
}

/// After a merge, the documents of the new segment that match every one of
/// the first `n` queries are those of the merged segments, moved.
pub proof fn lemma_all_moved(
    queries: Seq<Query>,
    n: int,
    model: MergeModel,
    terms: Seq<(Seq<u8>, TermId)>,
)
    requires
        sound(model),
        1 <= n <= queries.len(),
    ensures
        matches_all(queries, n, context_in(merged_store(model), model.dest.0, terms)) == moved(
            model,
            all_found_before(queries, n, model, terms),
        ),
    decreases queries, n,
{
    let after = context_in(merged_store(model), model.dest.0, terms);
    let now = all_found_before(queries, n, model, terms);
    let last = found_before(queries[n - 1], model, terms);
    lemma_keeps_live(model);
    lemma_merge_keeps_matches(queries[n - 1], model, terms);
    if n == 1 {
        assert(matches_all(queries, 0, after) =~= Set::full());
        assert(matches_all(queries, 1, after) =~= crate::search::matches(queries[0], after));
        assert forall|segment: u32| #[trigger] now(segment) == last(segment) by {
            let context = context_in(model.store, segment, terms);
            assert(matches_all(queries, 0, context) =~= Set::full());
            assert(matches_all(queries, 1, context) =~= crate::search::matches(
                queries[0],
                context,
            ));
        }
        lemma_moved_same(model, now, last);
    } else {
        lemma_all_moved(queries, n - 1, model, terms);
        lemma_moved_intersect(model, now, all_found_before(queries, n - 1, model, terms), last);
    }
}

/// After a merge, the documents of the new segment that match one of the
/// first `n` queries are those of the merged segments, moved.
pub proof fn lemma_any_moved(
    queries: Seq<Query>,
    n: int,
    model: MergeModel,
    terms: Seq<(Seq<u8>, TermId)>,
)
    requires
        sound(model),
        0 <= n <= queries.len(),
    ensures
        matches_any(queries, n, context_in(merged_store(model), model.dest.0, terms)) == moved(
            model,
            any_found_before(queries, n, model, terms),
        ),
    decreases queries, n,
{
    let now = any_found_before(queries, n, model, terms);
    if n == 0 {
        lemma_moved_nothing(model, now);
    } else {
        lemma_any_moved(queries, n - 1, model, terms);
        lemma_merge_keeps_matches(queries[n - 1], model, terms);
        lemma_moved_union(
            model,
            now,
            any_found_before(queries, n - 1, model, terms),
            found_before(queries[n - 1], model, terms),
        );
    }
}

/// What the query finds in each of the merged segments before the merge:
/// what it matches, less what is deleted.
pub open spec fn hits_before(
    query: Query,
    model: MergeModel,
    terms: Seq<(Seq<u8>, TermId)>,
) -> spec_fn(u32) -> Set<u16> {
    |segment: u32| hits(query, context_in(model.store, segment, terms))
}

/// The writes of the merged term directories are about term directories and
/// statistics.
pub proof fn lemma_directory_writes_families(model: MergeModel, n: int)
    requires
        0 <= n <= model.pairs().len(),
    ensures
        within_families(model.directory_writes(n), TAG_TERM_DIRECTORY, TAG_STATISTIC),
    decreases n,
{
    if n > 0 {
        lemma_directory_writes_families(model, n - 1);
        let before = model.directory_writes(n - 1);
        let last = merged_directory_write(
            model.pairs()[n - 1],
            model.posting(model.pairs()[n - 1]),
            model.dest,
        );
        let all = model.directory_writes(n);
        assert forall|k: int| 0 <= k < all.len() implies op_key(#[trigger] all[k]).len() > 0 && (
        op_key(all[k])[0] == TAG_TERM_DIRECTORY || op_key(all[k])[0] == TAG_STATISTIC) by {
            if k < before.len() {
                assert(all[k] == before[k]);
            } else {
                assert(all[k] == last[k - before.len()]);
            }
        }
    }
}

/// A merge writes no deletion list.
pub proof fn lemma_merge_leaves_deletions(model: MergeModel, documents: nat, segment: u32)
    ensures
        stored(
            apply_batch(model.store, model.writes(documents)),
            deletion_list_key(segment),
        ) == stored(model.store, deletion_list_key(segment)),
{
    let key = deletion_list_key(segment);
    let a = model.directory_writes(model.pairs().len() as int);
    let b = model.copied_values(model.entries.len() as int);
    let c = seq![model.total_docs_write(documents)];
    let d = model.statistics_writes(model.pairs().len() as int);
    let e = seq![activation(model.dest)];
    let f = model.deactivations(model.segments.len() as int);
    lemma_directory_writes_families(model, model.pairs().len() as int);
    lemma_copied_values_families(model, model.entries.len() as int);
    lemma_statistics_writes_families(model, model.pairs().len() as int);
    lemma_deactivations_families(model, model.segments.len() as int);
    assert(within_families(c, TAG_STATISTIC, TAG_STATISTIC));
    assert(within_families(e, TAG_ACTIVE_SEGMENT, TAG_ACTIVE_SEGMENT));
    lemma_other_families(a, TAG_TERM_DIRECTORY, TAG_STATISTIC, key);
    lemma_other_families(b, TAG_FIELD_VALUE, TAG_FIELD_VALUE, key);
    lemma_other_families(c, TAG_STATISTIC, TAG_STATISTIC, key);
    lemma_other_families(d, TAG_STATISTIC, TAG_STATISTIC, key);
    lemma_other_families(e, TAG_ACTIVE_SEGMENT, TAG_ACTIVE_SEGMENT, key);
    lemma_other_families(f, TAG_ACTIVE_SEGMENT, TAG_ACTIVE_SEGMENT, key);
    lemma_touches_concat(a, b, key);
    lemma_touches_concat(a + b, c, key);
    lemma_touches_concat(a + b + c, d, key);
    lemma_touches_concat(a + b + c + d, e, key);
    lemma_touches_concat(a + b + c + d + e, f, key);
    lemma_apply_untouched(model.store, model.writes(documents), key);
}

/// After a merge, a search of the new segment finds the documents that the
/// same search found in the merged segments, at their new ordinals: no
/// document is lost, none comes back, and none is found that was not found
/// before.
#[verifier::spinoff_prover]
pub proof fn lemma_merge_keeps_hits(
    query: Query,
    model: MergeModel,
    terms: Seq<(Seq<u8>, TermId)>,
)
    requires
        sound(model),
        stored(model.store, deletion_list_key(model.dest.0)) is None,
    ensures
        hits(query, context_in(merged_store(model), model.dest.0, terms)) == moved(
            model,
            hits_before(query, model, terms),
        ),
{
    let kept = live_documents(model.store, model.segments);
    lemma_merge_keeps_matches(query, model, terms);
    lemma_merge_leaves_deletions(model, kept.len(), model.dest.0);
    lemma_keeps_live(model);
    let matched = found_before(query, model, terms);
    let found = hits_before(query, model, terms);
    assert forall|o: u16| #[trigger] moved(model, matched).contains(o) <==> moved(
        model,
        found,
    ).contains(o) by {
        if moved(model, matched).contains(o) {
            let (s, x) = choose|s: u32, x: u16| #[trigger]
                moves(model, s, x, o) && matched(s).contains(x);
            assert(moves(model, s, x, o) && found(s).contains(x));
        }
        if moved(model, found).contains(o) {
            let (s, x) = choose|s: u32, x: u16| #[trigger]
                moves(model, s, x, o) && found(s).contains(x);
            assert(moves(model, s, x, o) && matched(s).contains(x));
        }
    }
    assert(moved(model, matched) =~= moved(model, found));
    let after = context_in(merged_store(model), model.dest.0, terms);
    assert(deleted_in(after.entries, after.segment) =~= Set::<u16>::empty());
    assert(hits(query, after) =~= crate::search::matches(query, after));
}

/// After a merge, the new segment is live and the merged segments are not.
#[verifier::spinoff_prover]
pub proof fn lemma_merge_swaps_segments(model: MergeModel, documents: nat, i: int)
    requires
        !model.segments.contains(model.dest.0),
        0 <= i < model.segments.len(),
    ensures
        is_active(apply_batch(model.store, model.writes(documents)), model.dest.0),
        !is_active(apply_batch(model.store, model.writes(documents)), model.segments[i]),
{
    let store = model.store;
    let writes = model.writes(documents);
    let count = model.segments.len() as int;
    let before = model.directory_writes(model.pairs().len() as int) + model.copied_values(
        model.entries.len() as int,
    ) + seq![model.total_docs_write(documents)] + model.statistics_writes(
        model.pairs().len() as int,
    );
    let live = (KeyModel::ActiveSegment { segment_id: model.dest }).encoding();
    lemma_deactivations_keys(model, count);
    // No merged segment is the new one, so no deactivation is about the new one.
    if touches(model.deactivations(count), live) {
        let k = choose|k: int|
            0 <= k < model.deactivations(count).len() && op_key(
                #[trigger] model.deactivations(count)[k],
            ) == live;
        (KeyModel::ActiveSegment {
            segment_id: SegmentId(model.segments[k]),
        }).lemma_encoding_injective(KeyModel::ActiveSegment { segment_id: model.dest });
        assert(model.segments.contains(model.segments[k]));
    }
    assert(writes =~= before + seq![OpModel::Put { key: live, value: Seq::empty() }]
        + model.deactivations(count));
    lemma_apply_last_put(store, before, live, Seq::empty(), model.deactivations(count));
    // The deactivation of a merged segment is the last write about it.
    let gone = (KeyModel::ActiveSegment { segment_id: SegmentId(model.segments[i]) }).encoding();
    lemma_deactivated(
        apply_batch(store, before + seq![OpModel::Put { key: live, value: Seq::empty() }]),
        model,
        count,
        i,
    );
    crate::write_batch::lemma_apply_concat(
        store,
        before + seq![OpModel::Put { key: live, value: Seq::empty() }],
        model.deactivations(count),
    );
}

/// The write that takes the segment at place `k` out of the live ones is the
/// one at place `k`.
pub proof fn lemma_deactivations_keys(model: MergeModel, n: int)
    requires
        0 <= n <= model.segments.len(),
    ensures
        model.deactivations(n).len() == n,
        forall|k: int|
            0 <= k < n ==> #[trigger] model.deactivations(n)[k] == (OpModel::Delete {
                key: (KeyModel::ActiveSegment {
                    segment_id: SegmentId(model.segments[k]),
                }).encoding(),
            }),
    decreases n,
{
    if n > 0 {
        lemma_deactivations_keys(model, n - 1);
        let before = model.deactivations(n - 1);
        let all = model.deactivations(n);
        assert forall|k: int| 0 <= k < n implies #[trigger] all[k] == (OpModel::Delete {
            key: (KeyModel::ActiveSegment {
                segment_id: SegmentId(model.segments[k]),
            }).encoding(),
        }) by {
            if k < n - 1 {
                assert(all[k] == before[k]);
            }
        }
    }
}

/// After the first `n` merged segments are taken out of the live ones, none
/// of them is live.
pub proof fn lemma_deactivated(store: StoreModel, model: MergeModel, n: int, i: int)
    requires
        0 <= i < n <= model.segments.len(),
    ensures
        !is_active(apply_batch(store, model.deactivations(n)), model.segments[i]),
    decreases n,
{
    let gone = (KeyModel::ActiveSegment { segment_id: SegmentId(model.segments[i]) }).encoding();
    let before = model.deactivations(n - 1);
    let all = model.deactivations(n);
    assert(all.drop_last() =~= before);
    if i < n - 1 {
        lemma_deactivated(store, model, n - 1, i);
    }
}

/// After a merge, what was kept for a document that is left is kept for it
/// at its new place.
#[verifier::spinoff_prover]
pub proof fn lemma_merge_keeps_values(model: MergeModel, documents: nat, i: int)
    requires
        keeps_live(model),
        distinct_keys(model.entries),
        0 <= i < model.entries.len(),
        KeyModel::decoding(model.entries[i].0) matches Some(
            KeyModel::DocumentFieldValue { doc_id, .. },
        ) && model.mapping.contains_key(doc_id) && model.segments.contains(doc_id.0.0),
    ensures
        KeyModel::decoding(model.entries[i].0) matches Some(
            KeyModel::DocumentFieldValue { doc_id, field_id, kind },
        ) && stored(
            apply_batch(model.store, model.writes(documents)),
            (KeyModel::DocumentFieldValue {
                doc_id: DocId(model.dest, model.mapping[doc_id]),
                field_id,
                kind,
            }).encoding(),
        ) == Some(model.entries[i].1),
{
    let count = model.entries.len() as int;
    match KeyModel::decoding(model.entries[i].0) {
        Some(KeyModel::DocumentFieldValue { doc_id, field_id, kind }) => {
            let target = KeyModel::DocumentFieldValue {
                doc_id: DocId(model.dest, model.mapping[doc_id]),
                field_id,
                kind,
            };
            let key = target.encoding();
            let put = OpModel::Put { key, value: model.entries[i].1 };
            assert(model.copied_value(model.entries[i]) == seq![put]);
            lemma_values_between(model, i + 1, count, i);
            lemma_values_split(model, i + 1, count);
            lemma_values_split(model, i, i + 1);
            assert(values_between(model, i, i + 1) =~= seq![put]) by {
                assert(values_between(model, i, i) =~= Seq::<OpModel>::empty());
            }
            let later = values_between(model, i + 1, count);
            let c = seq![model.total_docs_write(documents)];
            let d = model.statistics_writes(model.pairs().len() as int);
            let e = seq![activation(model.dest)];
            let f = model.deactivations(model.segments.len() as int);
            lemma_statistics_writes_families(model, model.pairs().len() as int);
            lemma_deactivations_families(model, model.segments.len() as int);
            assert(within_families(c, TAG_STATISTIC, TAG_STATISTIC));
            assert(within_families(e, TAG_ACTIVE_SEGMENT, TAG_ACTIVE_SEGMENT));
            lemma_other_families(c, TAG_STATISTIC, TAG_STATISTIC, key);
            lemma_other_families(d, TAG_STATISTIC, TAG_STATISTIC, key);
            lemma_other_families(e, TAG_ACTIVE_SEGMENT, TAG_ACTIVE_SEGMENT, key);
            lemma_other_families(f, TAG_ACTIVE_SEGMENT, TAG_ACTIVE_SEGMENT, key);
            lemma_touches_concat(later, c, key);
            lemma_touches_concat(later + c, d, key);
            lemma_touches_concat(later + c + d, e, key);
            lemma_touches_concat(later + c + d + e, f, key);
            let before = model.directory_writes(model.pairs().len() as int) + model.copied_values(
                i,
            );
            assert(model.writes(documents) =~= before + seq![put] + (later + c + d + e + f));
            lemma_apply_last_put(
                model.store,
                before,
                key,
                model.entries[i].1,
                later + c + d + e + f,
            );
        },
        _ => {},
    }
}

/// The writes that copy the kept values of the entries from `from` on, before `to`.
pub open spec fn values_between(model: MergeModel, from: int, to: int) -> Seq<OpModel>
    decreases to - from,
{
    if to <= from {
        Seq::empty()
    } else {
        values_between(model, from, to - 1) + model.copied_value(model.entries[to - 1])
    }
}

/// The copies of the first entries are those of fewer entries, then those of
/// the rest.
pub proof fn lemma_values_split(model: MergeModel, from: int, to: int)
    requires
        0 <= from <= to,
    ensures
        model.copied_values(to) == model.copied_values(from) + values_between(model, from, to),
    decreases to - from,
{
    if to > from {
        lemma_values_split(model, from, to - 1);
    }
    assert(model.copied_values(to) =~= model.copied_values(from) + values_between(
        model,
        from,
        to,
    ));
}

/// The copies of other entries are not about the new place of what the entry
/// at place `i` keeps.
#[verifier::spinoff_prover]
pub proof fn lemma_values_between(model: MergeModel, from: int, to: int, i: int)
    requires
        keeps_live(model),
        distinct_keys(model.entries),
        0 <= i < from <= to <= model.entries.len(),
        KeyModel::decoding(model.entries[i].0) matches Some(
            KeyModel::DocumentFieldValue { doc_id, .. },
        ) && model.mapping.contains_key(doc_id) && model.segments.contains(doc_id.0.0),
    ensures
        KeyModel::decoding(model.entries[i].0) matches Some(
            KeyModel::DocumentFieldValue { doc_id, field_id, kind },
        ) && !touches(
            values_between(model, from, to),
            (KeyModel::DocumentFieldValue {
                doc_id: DocId(model.dest, model.mapping[doc_id]),
                field_id,
                kind,
            }).encoding(),
        ),
    decreases to - from,
{
    match KeyModel::decoding(model.entries[i].0) {
        Some(KeyModel::DocumentFieldValue { doc_id, field_id, kind }) => {
            let target = KeyModel::DocumentFieldValue {
                doc_id: DocId(model.dest, model.mapping[doc_id]),
                field_id,
                kind,
            };
            let key = target.encoding();
            if to > from {
                lemma_values_between(model, from, to - 1, i);
                let last = model.copied_value(model.entries[to - 1]);
                if touches(last, key) {
                    match KeyModel::decoding(model.entries[to - 1].0) {
                        Some(
                            KeyModel::DocumentFieldValue {
                                doc_id: other_doc,
                                field_id: other_field,
                                kind: other_kind,
                            },
                        ) => {
                            let other = KeyModel::DocumentFieldValue {
                                doc_id: DocId(model.dest, model.mapping[other_doc]),
                                field_id: other_field,
                                kind: other_kind,
                            };
                            other.lemma_encoding_injective(target);
                            // The two documents get one ordinal: they are one.
                            let kept = live_documents(model.store, model.segments);
                            assert(kept[position_of(kept, doc_id)] == doc_id);
                            assert(kept[position_of(kept, other_doc)] == other_doc);
                            assert(other_doc == doc_id);
                            KeyModel::lemma_encoding_of_decoding(model.entries[to - 1].0);
                            KeyModel::lemma_encoding_of_decoding(model.entries[i].0);
                            assert(model.entries[to - 1].0 == model.entries[i].0);
                        },
                        _ => {},
                    }
                    assert(false);
                }
                lemma_touches_concat(values_between(model, from, to - 1), last, key);
            }
        },
        _ => {},
    }
}

/// A merge that the library has planned and written is sound where the new
/// segment is new: the entries are those of the store, the documents that are
/// left get the ordinals from zero on, and what is written is read back, as
/// `merge_segments` says of every merge.
pub proof fn lemma_merge_is_sound(
    entries: Seq<(Vec<u8>, Vec<u8>)>,
    segments: Seq<u32>,
    dest: u32,
)
    requires
        crate::segment_ops::mergeable(
            crate::segment::entries_map(entries),
            segments,
            segments.len() as int,
        ),
        live_documents(crate::segment::entries_map(entries), segments).len() <= 0x1_0000,
        crate::segment_ops::merge_model(
            entries,
            segments,
            mapping_of(live_documents(crate::segment::entries_map(entries), segments)),
            dest,
        ).all_readable(),
        unused(
            crate::segment_ops::merge_model(
                entries,
                segments,
                mapping_of(live_documents(crate::segment::entries_map(entries), segments)),
                dest,
            ),
        ),
    ensures
        sound(
            crate::segment_ops::merge_model(
                entries,
                segments,
                mapping_of(live_documents(crate::segment::entries_map(entries), segments)),
                dest,
            ),
        ),
{
    let model = crate::segment_ops::merge_model(
        entries,
        segments,
        mapping_of(live_documents(crate::segment::entries_map(entries), segments)),
        dest,
    );
    assert forall|key: Seq<u8>| #[trigger] model.store.contains_key(key) implies exists|i: int|
        0 <= i < model.entries.len() && model.entries[i].0 == key by {
        let i = choose|i: int| 0 <= i < entries.len() && (#[trigger] entries[i]).0@ == key;
        assert(model.entries[i].0 == key);
    }
    assert forall|a: int, b: int| 0 <= a < segments.len() && 0 <= b < segments.len() && a
        != b implies segments[a] != segments[b] by {
        if a < b {
            assert(crate::segment_ops::is_active(model.store, segments[b]));
        } else {
            assert(crate::segment_ops::is_active(model.store, segments[a]));
        }
    }
}

} // verus!
