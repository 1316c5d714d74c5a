//! The counts of the documents of segments in stores that the index writes:
//! no more documents of a segment are counted as deleted than the segment
//! took, and no segment took more than a segment holds.

use crate::doc_id_set::ordinal_at;
use crate::document::{DocId, SegmentId};
use crate::document_index::{location_put, relocated, relocation_puts, tombstone};
use crate::encoding::{be_i64, be_u16, i64_of_be, lemma_decode_encode};
use crate::key::{KeyModel, name_deleted_docs, name_total_docs, StatisticKey};
use crate::merge_operator::{merged_value, value_or_empty};
use crate::schema::FieldId;
use crate::segment::{deleted_in, deletion_list_key, statistic_in, statistic_key};
use crate::segment_builder::{FieldTotals, StoredValue};
use crate::segment_ops::{merged_directory_write, MergeModel};
use crate::segment_stats::count_or_zero;
use crate::segment_writer::{
    activation, directory_write, directory_writes, stored_writes, total_docs_write,
    totals_write, totals_writes,
};
use crate::term::TermId;
use crate::term_dictionary::{fresh_count, term_creation, term_writes};
use crate::write_batch::{
    apply_batch, lemma_apply_concat, lemma_apply_push, lemma_apply_untouched, op_key, OpModel,
    stored, StoreModel, touches,
};
use vstd::prelude::*;

verus! {

/// The key of the count of the documents that a segment took.
pub open spec fn total_key(segment: u32) -> Seq<u8> {
    statistic_key(segment, name_total_docs())
}

/// The key of the count of the deleted documents of a segment.
pub open spec fn deleted_key(segment: u32) -> Seq<u8> {
    statistic_key(segment, name_deleted_docs())
}

/// How many documents the segment took, as the store has it.
pub open spec fn total_docs(store: StoreModel, segment: u32) -> i64 {
    count_or_zero(statistic_in(store, segment, name_total_docs()))
}

/// How many documents of the segment are deleted, as the store counts them.
pub open spec fn deleted_docs(store: StoreModel, segment: u32) -> i64 {
    count_or_zero(statistic_in(store, segment, name_deleted_docs()))
}

/// The ordinals that a deletion list spells, in its order.
pub open spec fn listed(list: Seq<u8>) -> Seq<u16> {
    Seq::new((list.len() / 2) as nat, |i: int| ordinal_at(list, i))
}

/// The deletion list of the segment, empty where the store has none.
pub open spec fn deletion_list(store: StoreModel, segment: u32) -> Seq<u8> {
    value_or_empty(stored(store, deletion_list_key(segment)))
}

/// The counts of the segment are in step with its deletion list: the list is
/// whole and names no document twice and none that the segment did not take;
/// the count of the deleted documents is the number of documents in the list;
/// and the segment took no more documents than a segment holds.
#[verifier::opaque]
pub open spec fn segment_counted(store: StoreModel, segment: u32) -> bool {
    let list = deletion_list(store, segment);
    &&& list.len() % 2 == 0
    &&& stored(store, total_key(segment)) matches Some(count) ==> count.len() == 8 && 0
        <= i64_of_be(count) <= 0x1_0000
    &&& stored(store, deleted_key(segment)) matches Some(count) ==> count.len() == 8
    &&& deleted_docs(store, segment) == listed(list).len()
    &&& listed(list).no_duplicates()
    &&& forall|i: int|
        0 <= i < listed(list).len() ==> (#[trigger] listed(list)[i]) < total_docs(store, segment)
}

/// Ordinals below a bound, none of them twice, are no more than the bound.
pub proof fn lemma_pigeonhole(ords: Seq<u16>, bound: int)
    requires
        ords.no_duplicates(),
        forall|i: int| 0 <= i < ords.len() ==> (#[trigger] ords[i]) < bound,
    ensures
        ords.len() <= bound || ords.len() == 0,
    decreases ords.len(), bound,
{
    if ords.len() > 0 {
        assert(ords[0] < bound);
        let top = bound - 1;
        if exists|i: int| 0 <= i < ords.len() && ords[i] == top {
            let at = choose|i: int| 0 <= i < ords.len() && ords[i] == top;
            let rest = ords.remove(at);
            assert forall|i: int| 0 <= i < rest.len() implies (#[trigger] rest[i]) < top by {
                let j = if i < at { i } else { i + 1 };
                assert(rest[i] == ords[j]);
                assert(ords[j] < bound);
                assert(ords[j] != ords[at]);
            }
            assert(rest.no_duplicates()) by {
                assert forall|a: int, b: int|
                    0 <= a < rest.len() && 0 <= b < rest.len() && a != b implies rest[a]
                    != rest[b] by {
                    let x = if a < at { a } else { a + 1 };
                    let y = if b < at { b } else { b + 1 };
                    assert(rest[a] == ords[x]);
                    assert(rest[b] == ords[y]);
                }
            }
            lemma_pigeonhole(rest, top);
        } else {
            assert forall|i: int| 0 <= i < ords.len() implies (#[trigger] ords[i]) < top by {
                assert(ords[i] < bound);
            }
            lemma_pigeonhole(ords, top);
        }
    }
}

/// Where the counts of a segment are in step with its deletion list, no more
/// of its documents are counted as deleted than it took, and it took no more
/// than a segment holds.
pub proof fn lemma_counts_in_bounds(store: StoreModel, segment: u32)
    requires
        segment_counted(store, segment),
    ensures
        0 <= deleted_docs(store, segment) <= total_docs(store, segment) <= 0x1_0000,
{
    reveal(segment_counted);
    let ords = listed(deletion_list(store, segment));
    lemma_pigeonhole(ords, total_docs(store, segment) as int);
}

/// The key is one that the counts of a segment are read from: a deletion
/// list, or the count of the documents or of the deleted documents.
pub open spec fn is_count_model(key: KeyModel) -> bool {
    match key {
        KeyModel::DeletedDocument { .. } => true,
        KeyModel::Statistic { statistic: StatisticKey::TotalDocs, .. } => true,
        KeyModel::Statistic { statistic: StatisticKey::DeletedDocs, .. } => true,
        _ => false,
    }
}

/// The bytes are those of a key that the counts of a segment are read from.
pub open spec fn is_count_key(key: Seq<u8>) -> bool {
    match KeyModel::decoding(key) {
        Some(key) => is_count_model(key),
        None => false,
    }
}

/// No write is about a key that the counts of a segment are read from.
pub open spec fn quiet(ops: Seq<OpModel>) -> bool {
    forall|i: int| 0 <= i < ops.len() ==> !is_count_key(op_key(#[trigger] ops[i]))
}

/// The bytes of a key are those of a key that counts are read from exactly
/// where the key is one.
pub proof fn lemma_count_key(key: KeyModel)
    ensures
        is_count_key(key.encoding()) == is_count_model(key),
{
    key.lemma_decoding_of_encoding();
}

/// The keys of the deletion list and of the two counts of a segment are keys
/// that counts are read from, and no two of them are the same.
pub proof fn lemma_count_keys(segment: u32)
    ensures
        is_count_key(deletion_list_key(segment)),
        is_count_key(total_key(segment)),
        is_count_key(deleted_key(segment)),
        total_key(segment) == (KeyModel::Statistic {
            segment_id: SegmentId(segment),
            statistic: StatisticKey::TotalDocs,
        }).encoding(),
        deleted_key(segment) == (KeyModel::Statistic {
            segment_id: SegmentId(segment),
            statistic: StatisticKey::DeletedDocs,
        }).encoding(),
        total_key(segment) != deleted_key(segment),
        total_key(segment) != deletion_list_key(segment),
        deleted_key(segment) != deletion_list_key(segment),
{
    let list = KeyModel::DeletedDocument { segment_id: SegmentId(segment) };
    let total = KeyModel::Statistic {
        segment_id: SegmentId(segment),
        statistic: StatisticKey::TotalDocs,
    };
    let deleted = KeyModel::Statistic {
        segment_id: SegmentId(segment),
        statistic: StatisticKey::DeletedDocs,
    };
    lemma_count_key(list);
    lemma_count_key(total);
    lemma_count_key(deleted);
    assert(total_key(segment) =~= total.encoding());
    assert(deleted_key(segment) =~= deleted.encoding());
    list.lemma_decoding_of_encoding();
    total.lemma_decoding_of_encoding();
    deleted.lemma_decoding_of_encoding();
}

/// The keys of the deletion lists and counts of two segments are not the same.
pub proof fn lemma_count_keys_differ(segment: u32, other: u32)
    requires
        segment != other,
    ensures
        deletion_list_key(segment) != deletion_list_key(other),
        total_key(segment) != total_key(other),
        deleted_key(segment) != deleted_key(other),
        total_key(segment) != deleted_key(other),
        total_key(segment) != deletion_list_key(other),
        deleted_key(segment) != deletion_list_key(other),
{
    lemma_count_keys(segment);
    lemma_count_keys(other);
    (KeyModel::DeletedDocument { segment_id: SegmentId(segment) }).lemma_decoding_of_encoding();
    (KeyModel::DeletedDocument { segment_id: SegmentId(other) }).lemma_decoding_of_encoding();
    (KeyModel::Statistic {
        segment_id: SegmentId(segment),
        statistic: StatisticKey::TotalDocs,
    }).lemma_decoding_of_encoding();
    (KeyModel::Statistic {
        segment_id: SegmentId(other),
        statistic: StatisticKey::TotalDocs,
    }).lemma_decoding_of_encoding();
    (KeyModel::Statistic {
        segment_id: SegmentId(segment),
        statistic: StatisticKey::DeletedDocs,
    }).lemma_decoding_of_encoding();
    (KeyModel::Statistic {
        segment_id: SegmentId(other),
        statistic: StatisticKey::DeletedDocs,
    }).lemma_decoding_of_encoding();
}

/// Quiet writes leave what counts are read from as it is.
pub proof fn lemma_quiet_keeps(store: StoreModel, ops: Seq<OpModel>, key: Seq<u8>)
    requires
        quiet(ops),
        is_count_key(key),
    ensures
        stored(apply_batch(store, ops), key) == stored(store, key),
{
    if touches(ops, key) {
        let i = choose|i: int| 0 <= i < ops.len() && op_key(#[trigger] ops[i]) == key;
        assert(!is_count_key(op_key(ops[i])));
    }
    lemma_apply_untouched(store, ops, key);
}

/// Quiet writes, one after the other, are quiet.
pub proof fn lemma_quiet_concat(first: Seq<OpModel>, second: Seq<OpModel>)
    requires
        quiet(first),
        quiet(second),
    ensures
        quiet(first + second),
{
    assert forall|i: int| 0 <= i < (first + second).len() implies !is_count_key(
        op_key(#[trigger] (first + second)[i]),
    ) by {
        if i < first.len() {
            assert((first + second)[i] == first[i]);
        } else {
            assert((first + second)[i] == second[i - first.len()]);
        }
    }
}

/// The store after the record of the deletion of a document: the deletion
/// list of its segment has the document behind what it had, the count of the
/// deleted documents of its segment is merged with one, and nothing else that
/// counts are read from has changed.
pub proof fn lemma_tombstone_effect(store: StoreModel, doc: DocId, key: Seq<u8>)
    requires
        is_count_key(key),
    ensures
        stored(apply_batch(store, tombstone(doc)), key) == (if key == deletion_list_key(doc.0.0) {
            Some(deletion_list(store, doc.0.0) + be_u16(doc.1))
        } else if key == deleted_key(doc.0.0) {
            match merged_value(key, stored(store, key), seq![be_i64(1)]) {
                Some(count) => Some(count),
                None => stored(store, key),
            }
        } else {
            stored(store, key)
        }),
{
    let ops = tombstone(doc);
    let first = ops[0];
    let second = ops[1];
    lemma_count_keys(doc.0.0);
    assert(Seq::<OpModel>::empty().push(first).push(second) =~= ops);
    lemma_apply_push(store, Seq::empty(), first);
    lemma_apply_push(store, Seq::<OpModel>::empty().push(first), second);
    assert(apply_batch(store, Seq::<OpModel>::empty()) == store);
    let list = deletion_list_key(doc.0.0);
    assert(list[0] == crate::key::TAG_DELETION_LIST);
    let one = seq![be_u16(doc.1)];
    assert(one.drop_last() =~= Seq::<Seq<u8>>::empty());
    assert(crate::merge_operator::concat_all(one.drop_last()) =~= Seq::<u8>::empty());
    assert(crate::merge_operator::concat_all(one) =~= be_u16(doc.1));
    assert(op_key(second) == deleted_key(doc.0.0));
}

/// One more is counted where a count of eight bytes is merged with one, and
/// one is counted where there was no count.
pub proof fn lemma_count_one_more(key: Seq<u8>, existing: Option<Seq<u8>>)
    requires
        key.len() > 0,
        key[0] == crate::key::TAG_STATISTIC,
        existing matches Some(count) ==> count.len() == 8 && 0 <= i64_of_be(count) < 0x1_0000,
    ensures
        merged_value(key, existing, seq![be_i64(1)]) == Some(
            be_i64(
                (match existing {
                    Some(count) => i64_of_be(count) + 1,
                    None => 1,
                }) as i64,
            ),
        ),
{
    lemma_decode_encode(0, 0, 0, 1);
    let operands = seq![be_i64(1)];
    let counters = crate::merge_operator::with_existing(existing, operands);
    match existing {
        Some(count) => {
            assert(counters =~= seq![count, be_i64(1)]);
            assert(counters.drop_last() =~= seq![count]);
            assert(seq![count].drop_last() =~= Seq::<Seq<u8>>::empty());
            assert(crate::merge_operator::counter_sum(seq![count].drop_last()) == 0);
            assert(crate::merge_operator::counter_sum(seq![count]) == i64_of_be(count));
            assert(crate::merge_operator::counter_sum(counters) == i64_of_be(count) + 1);
        },
        None => {
            assert(counters =~= operands);
            assert(operands.drop_last() =~= Seq::<Seq<u8>>::empty());
            assert(crate::merge_operator::counter_sum(operands.drop_last()) == 0);
            assert(crate::merge_operator::counter_sum(operands) == 1);
        },
    }
}

/// The document is one that its segment took and that is not deleted.
pub open spec fn live_named(store: StoreModel, doc: DocId) -> bool {
    doc.1 < total_docs(store, doc.0.0) && !deleted_in(store, doc.0.0).contains(doc.1)
}

/// No document is named by two keys.
pub open spec fn one_key_each(keys: Map<Seq<u8>, DocId>) -> bool {
    forall|a: Seq<u8>, b: Seq<u8>|
        keys.contains_key(a) && keys.contains_key(b) && keys[a] == keys[b] ==> a == b
}

/// The counts of every segment are in step with its deletion list, every key
/// names a document that its segment took and that is not deleted, and no
/// document is named by two keys.
pub open spec fn counted(store: StoreModel, keys: Map<Seq<u8>, DocId>) -> bool {
    &&& forall|segment: u32| #[trigger] segment_counted(store, segment)
    &&& forall|key: Seq<u8>| keys.contains_key(key) ==> live_named(store, #[trigger] keys[key])
    &&& one_key_each(keys)
}

/// What is read of a segment is read from its deletion list and its two
/// counts: stores that agree on these agree on the segment.
pub proof fn lemma_same_counts(store: StoreModel, after: StoreModel, segment: u32)
    requires
        stored(after, deletion_list_key(segment)) == stored(store, deletion_list_key(segment)),
        stored(after, total_key(segment)) == stored(store, total_key(segment)),
        stored(after, deleted_key(segment)) == stored(store, deleted_key(segment)),
    ensures
        segment_counted(after, segment) == segment_counted(store, segment),
        total_docs(after, segment) == total_docs(store, segment),
        deleted_docs(after, segment) == deleted_docs(store, segment),
        deleted_in(after, segment) == deleted_in(store, segment),
        deletion_list(after, segment) == deletion_list(store, segment),
{
    reveal(segment_counted);
}

/// The ordinals of a deletion list in its order are the deleted documents.
pub proof fn lemma_listed_are_deleted(list: Seq<u8>, ord: u16)
    requires
        list.len() % 2 == 0,
    ensures
        listed(list).contains(ord) == crate::doc_id_set::ordinals_of(list).contains(ord),
{
    let ords = listed(list);
    if ords.contains(ord) {
        let i = choose|i: int| 0 <= i < ords.len() && ords[i] == ord;
        assert(2 * i + 2 <= list.len());
        assert(ordinal_at(list, i) == ord);
    }
    if crate::doc_id_set::ordinals_of(list).contains(ord) {
        let i = choose|i: int| 0 <= i && 2 * i + 2 <= list.len() && ordinal_at(list, i) == ord;
        assert(i < ords.len());
        assert(ords[i] == ord);
    }
}

/// A whole deletion list with one more ordinal behind it lists one more.
pub proof fn lemma_listed_push(list: Seq<u8>, ord: u16)
    requires
        list.len() % 2 == 0,
    ensures
        listed(list + be_u16(ord)) == listed(list).push(ord),
        (list + be_u16(ord)).len() % 2 == 0,
{
    let longer = list + be_u16(ord);
    let n = listed(list).len() as int;
    lemma_decode_encode(ord, 0, 0, 0);
    assert(longer.len() == list.len() + 2);
    assert forall|i: int| 0 <= i < n + 1 implies listed(longer)[i] == listed(list).push(ord)[i] by {
        if i < n {
            assert(longer.subrange(2 * i, 2 * i + 2) =~= list.subrange(2 * i, 2 * i + 2));
        } else {
            assert(longer.subrange(2 * i, 2 * i + 2) =~= be_u16(ord));
        }
    }
    assert(listed(longer) =~= listed(list).push(ord));
}

/// Once the deletion of a document that was not deleted is recorded, the
/// counts of its segment are in step with its deletion list still, and the
/// document is deleted beside those that were.
pub proof fn lemma_deleting_keeps_counts(store: StoreModel, after: StoreModel, doc: DocId)
    requires
        segment_counted(store, doc.0.0),
        live_named(store, doc),
        stored(after, deletion_list_key(doc.0.0)) == Some(
            deletion_list(store, doc.0.0) + be_u16(doc.1),
        ),
        stored(after, total_key(doc.0.0)) == stored(store, total_key(doc.0.0)),
        stored(after, deleted_key(doc.0.0)) == (match merged_value(
            deleted_key(doc.0.0),
            stored(store, deleted_key(doc.0.0)),
            seq![be_i64(1)],
        ) {
            Some(count) => Some(count),
            None => stored(store, deleted_key(doc.0.0)),
        }),
    ensures
        segment_counted(after, doc.0.0),
        total_docs(after, doc.0.0) == total_docs(store, doc.0.0),
        deleted_in(after, doc.0.0) == deleted_in(store, doc.0.0).insert(doc.1),
{
    reveal(segment_counted);
    let segment = doc.0.0;
    let list = deletion_list(store, segment);
    let ords = listed(list);
    let longer = list + be_u16(doc.1);
    lemma_listed_push(list, doc.1);
    lemma_listed_are_deleted(list, doc.1);
    assert(!ords.contains(doc.1));
    let more = ords.push(doc.1);
    assert(more.no_duplicates()) by {
        assert forall|a: int, b: int|
            0 <= a < more.len() && 0 <= b < more.len() && a != b implies more[a] != more[b] by {
            if a < ords.len() && b < ords.len() {
                assert(more[a] == ords[a]);
                assert(more[b] == ords[b]);
            } else if a < ords.len() {
                assert(ords.contains(ords[a]));
            } else {
                assert(ords.contains(ords[b]));
            }
        }
    }
    assert forall|i: int| 0 <= i < more.len() implies (#[trigger] more[i]) < total_docs(
        store,
        segment,
    ) by {
        if i < ords.len() {
            assert(more[i] == ords[i]);
        }
    }
    lemma_pigeonhole(more, total_docs(store, segment) as int);
    // The count grows by one.
    let key = deleted_key(segment);
    lemma_count_keys(segment);
    assert(key[0] == crate::key::TAG_STATISTIC);
    let existing = stored(store, key);
    assert(existing matches Some(count) ==> count.len() == 8 && i64_of_be(count) == ords.len());
    lemma_count_one_more(key, existing);
    lemma_decode_encode(0, 0, 0, (ords.len() + 1) as i64);
    assert(be_i64((ords.len() + 1) as i64).len() == 8);
    assert(deleted_docs(store, segment) == ords.len());
    assert(deleted_docs(after, segment) == ords.len() + 1);
    assert(deletion_list(after, segment) == longer);
    assert(deleted_in(after, segment) =~= deleted_in(store, segment).insert(doc.1)) by {
        assert forall|o: u16|
            deleted_in(after, segment).contains(o) <==> deleted_in(store, segment).insert(
                doc.1,
            ).contains(o) by {
            lemma_listed_are_deleted(longer, o);
            lemma_listed_are_deleted(list, o);
            if more.contains(o) {
                let i = choose|i: int| 0 <= i < more.len() && more[i] == o;
                if i < ords.len() {
                    assert(ords[i] == o);
                }
            }
            if ords.contains(o) {
                let i = choose|i: int| 0 <= i < ords.len() && ords[i] == o;
                assert(more[i] == o);
            }
            if o == doc.1 {
                assert(more[ords.len() as int] == o);
            }
        }
    }
}

/// Taking the document of a key out of the index keeps the counts in step.
pub proof fn lemma_removal_keeps_counted(store: StoreModel, keys: Map<Seq<u8>, DocId>, key: Seq<u8>)
    requires
        counted(store, keys),
        keys.contains_key(key),
    ensures
        counted(apply_batch(store, crate::removal::removal(key, keys[key])), keys.remove(key)),
{
    let doc = keys[key];
    let unique = (KeyModel::UniqueKey { key }).encoding();
    let first = seq![OpModel::Delete { key: unique }];
    let midway = apply_batch(store, first);
    let after = apply_batch(store, crate::removal::removal(key, doc));
    lemma_apply_concat(store, first, tombstone(doc));
    lemma_count_key(KeyModel::UniqueKey { key });
    assert(quiet(first));
    assert forall|segment: u32| #[trigger] segment_counted(after, segment) by {
        lemma_count_keys(segment);
        lemma_quiet_keeps(store, first, deletion_list_key(segment));
        lemma_quiet_keeps(store, first, total_key(segment));
        lemma_quiet_keeps(store, first, deleted_key(segment));
        lemma_tombstone_effect(midway, doc, deletion_list_key(segment));
        lemma_tombstone_effect(midway, doc, total_key(segment));
        lemma_tombstone_effect(midway, doc, deleted_key(segment));
        assert(segment_counted(store, segment));
        if segment == doc.0.0 {
            assert(live_named(store, doc));
            lemma_deleting_keeps_counts(store, after, doc);
        } else {
            lemma_count_keys_differ(segment, doc.0.0);
            lemma_same_counts(store, after, segment);
        }
    }
    assert forall|other: Seq<u8>| keys.remove(key).contains_key(other) implies live_named(
        after,
        #[trigger] keys.remove(key)[other],
    ) by {
        let named = keys[other];
        assert(keys.contains_key(other));
        assert(live_named(store, named));
        let segment = named.0.0;
        lemma_count_keys(segment);
        lemma_quiet_keeps(store, first, deletion_list_key(segment));
        lemma_quiet_keeps(store, first, total_key(segment));
        lemma_quiet_keeps(store, first, deleted_key(segment));
        lemma_tombstone_effect(midway, doc, deletion_list_key(segment));
        lemma_tombstone_effect(midway, doc, total_key(segment));
        lemma_tombstone_effect(midway, doc, deleted_key(segment));
        if segment == doc.0.0 {
            assert(segment_counted(store, segment));
            assert(live_named(store, doc));
            lemma_deleting_keeps_counts(store, after, doc);
            assert(named != doc);
        } else {
            lemma_count_keys_differ(segment, doc.0.0);
            lemma_same_counts(store, after, segment);
        }
    }
}

/// The writes that record new terms are quiet.
pub proof fn lemma_term_writes_are_quiet(
    known: Map<Seq<u8>, TermId>,
    next_id: u32,
    terms: Seq<Seq<u8>>,
)
    ensures
        quiet(term_writes(known, next_id, terms)),
    decreases terms.len(),
{
    if terms.len() > 0 {
        lemma_term_writes_are_quiet(known, next_id, terms.drop_last());
        if !known.contains_key(terms.last()) {
            let id = (next_id + fresh_count(known, terms.drop_last())) as u32;
            let created = term_creation(terms.last(), id);
            lemma_count_key(KeyModel::TermDictionary { term: terms.last() });
            lemma_count_key(
                KeyModel::Metadata { name: crate::key::name_next_term_dictionary_id() },
            );
            assert(quiet(created));
            lemma_quiet_concat(term_writes(known, next_id, terms.drop_last()), created);
        }
    }
}

/// The writes of the term directories of a segment are quiet.
pub proof fn lemma_directory_writes_are_quiet(
    directories: Seq<((u16, usize), crate::doc_id_set::DocIdSet)>,
    ids: Seq<TermId>,
    segment: SegmentId,
)
    ensures
        quiet(directory_writes(directories, ids, segment)),
    decreases directories.len(),
{
    if directories.len() > 0 {
        lemma_directory_writes_are_quiet(directories.drop_last(), ids, segment);
        let last = directories.last();
        let written = directory_write(last, ids, segment);
        lemma_count_key(
            KeyModel::TermDirectory {
                field_id: FieldId(last.0.0),
                term_id: ids[last.0.1 as int],
                segment_id: segment,
            },
        );
        lemma_count_key(
            KeyModel::Statistic {
                segment_id: segment,
                statistic: StatisticKey::TermDocFrequency(FieldId(last.0.0), ids[last.0.1 as int]),
            },
        );
        assert(quiet(written));
        lemma_quiet_concat(directory_writes(directories.drop_last(), ids, segment), written);
    }
}

/// The writes of the kept values of a segment are quiet.
pub proof fn lemma_stored_writes_are_quiet(
    values: Seq<StoredValue>,
    ids: Seq<TermId>,
    segment: SegmentId,
)
    ensures
        quiet(stored_writes(values, ids, segment)),
{
    let writes = stored_writes(values, ids, segment);
    assert forall|i: int| 0 <= i < writes.len() implies !is_count_key(op_key(#[trigger] writes[i])) by {
        lemma_count_key(
            KeyModel::DocumentFieldValue {
                doc_id: DocId(segment, values[i].ord),
                field_id: values[i].field,
                kind: crate::segment_writer::global_kind(values[i].kind, ids),
            },
        );
    }
}

/// The writes of the totals of the fields of a segment are quiet.
pub proof fn lemma_totals_writes_are_quiet(totals: Seq<(u16, FieldTotals)>, segment: SegmentId)
    ensures
        quiet(totals_writes(totals, segment)),
    decreases totals.len(),
{
    if totals.len() > 0 {
        lemma_totals_writes_are_quiet(totals.drop_last(), segment);
        let last = totals.last();
        let written = totals_write(last, segment);
        lemma_count_key(
            KeyModel::Statistic {
                segment_id: segment,
                statistic: StatisticKey::TotalFieldDocs(FieldId(last.0)),
            },
        );
        lemma_count_key(
            KeyModel::Statistic {
                segment_id: segment,
                statistic: StatisticKey::TotalFieldTokens(FieldId(last.0)),
            },
        );
        assert(quiet(written));
        lemma_quiet_concat(totals_writes(totals.drop_last(), segment), written);
    }
}

/// The count of the documents that the segment took after a document is put
/// into the index in it, in place of no other: the count that the batch merges
/// into what was there. Nothing else that counts are read from has changed.
pub proof fn lemma_insertion_effect(
    store: StoreModel,
    builder: crate::segment_builder::SegmentBuilder,
    segment: u32,
    known: Map<Seq<u8>, TermId>,
    next_term_id: u32,
    key: Seq<u8>,
    about: Seq<u8>,
)
    requires
        is_count_key(about),
        segment < u32::MAX,
    ensures
        stored(
            apply_batch(
                store,
                crate::index::insertion(builder, segment, known, next_term_id, key, None),
            ),
            about,
        ) == (if about == total_key(segment) {
            match merged_value(
                about,
                stored(store, about),
                seq![be_i64(builder.doc_count() as i64)],
            ) {
                Some(count) => Some(count),
                None => stored(store, about),
            }
        } else {
            stored(store, about)
        }),
{
    let dest = SegmentId(segment);
    let ids = crate::segment_writer::resolved_ids(known, next_term_id, builder.terms());
    let counter = seq![crate::index::segment_counter_put((segment + 1) as u32)];
    lemma_count_key(KeyModel::Metadata { name: crate::key::name_next_segment_id() });
    assert(quiet(counter));
    let terms = term_writes(known, next_term_id, builder.terms());
    lemma_term_writes_are_quiet(known, next_term_id, builder.terms());
    let directories = directory_writes(builder.directories(), ids, dest);
    lemma_directory_writes_are_quiet(builder.directories(), ids, dest);
    let kept = stored_writes(builder.stored_values(), ids, dest);
    lemma_stored_writes_are_quiet(builder.stored_values(), ids, dest);
    let total = total_docs_write(builder.doc_count(), dest);
    let totals = totals_writes(builder.totals(), dest);
    lemma_totals_writes_are_quiet(builder.totals(), dest);
    let live = seq![activation(dest)];
    lemma_count_key(KeyModel::ActiveSegment { segment_id: dest });
    assert(quiet(live));
    let place = seq![location_put(key, DocId(dest, 0))];
    lemma_count_key(KeyModel::UniqueKey { key });
    assert(quiet(place));
    let before = counter + terms + directories + kept;
    let behind = totals + live + place;
    lemma_quiet_concat(counter, terms);
    lemma_quiet_concat(counter + terms, directories);
    lemma_quiet_concat(counter + terms + directories, kept);
    lemma_quiet_concat(totals, live);
    lemma_quiet_concat(totals + live, place);
    let batch = crate::index::insertion(builder, segment, known, next_term_id, key, None);
    assert(batch =~= before.push(total) + behind);
    lemma_apply_concat(store, before.push(total), behind);
    lemma_apply_push(store, before, total);
    lemma_quiet_keeps(store, before, about);
    lemma_quiet_keeps(apply_batch(store, before.push(total)), behind, about);
    lemma_count_keys(segment);
    assert(op_key(total) == total_key(segment));
}

/// Once the deletion of a document that was not deleted is recorded, the
/// counts of a segment are in step still; and of another segment than that of
/// the document nothing has changed.
pub proof fn lemma_tombstone_segment(store: StoreModel, doc: DocId, segment: u32)
    requires
        segment_counted(store, segment),
        segment == doc.0.0 ==> live_named(store, doc),
    ensures
        segment_counted(apply_batch(store, tombstone(doc)), segment),
        total_docs(apply_batch(store, tombstone(doc)), segment) == total_docs(store, segment),
        deleted_in(apply_batch(store, tombstone(doc)), segment) == (if segment == doc.0.0 {
            deleted_in(store, segment).insert(doc.1)
        } else {
            deleted_in(store, segment)
        }),
{
    let after = apply_batch(store, tombstone(doc));
    lemma_count_keys(segment);
    lemma_tombstone_effect(store, doc, deletion_list_key(segment));
    lemma_tombstone_effect(store, doc, total_key(segment));
    lemma_tombstone_effect(store, doc, deleted_key(segment));
    if segment == doc.0.0 {
        lemma_deleting_keeps_counts(store, after, doc);
    } else {
        lemma_count_keys_differ(segment, doc.0.0);
        lemma_same_counts(store, after, segment);
    }
}

/// Once the deletion of a document that was not deleted is recorded, another
/// document that was not deleted is not deleted.
pub proof fn lemma_tombstone_other(store: StoreModel, doc: DocId, other: DocId)
    requires
        segment_counted(store, other.0.0),
        live_named(store, doc),
        live_named(store, other),
        other != doc,
    ensures
        live_named(apply_batch(store, tombstone(doc)), other),
{
    lemma_tombstone_segment(store, doc, other.0.0);
}

/// Once the deletion of a document that was not deleted is recorded, the
/// counts of every segment are in step still, and every other document that
/// was not deleted is not deleted.
pub proof fn lemma_tombstone_keeps_counts(store: StoreModel, doc: DocId)
    requires
        forall|segment: u32| #[trigger] segment_counted(store, segment),
        live_named(store, doc),
    ensures
        forall|segment: u32| #[trigger]
            segment_counted(apply_batch(store, tombstone(doc)), segment),
        forall|other: DocId|
            other != doc && live_named(store, other) ==> #[trigger] live_named(
                apply_batch(store, tombstone(doc)),
                other,
            ),
        forall|segment: u32|
            segment != doc.0.0 ==> #[trigger] total_docs(
                apply_batch(store, tombstone(doc)),
                segment,
            ) == total_docs(store, segment) && deleted_in(
                apply_batch(store, tombstone(doc)),
                segment,
            ) == deleted_in(store, segment),
{
    let after = apply_batch(store, tombstone(doc));
    assert forall|segment: u32| #[trigger] segment_counted(after, segment) by {
        assert(segment_counted(store, segment));
        lemma_tombstone_segment(store, doc, segment);
    }
    assert forall|other: DocId| other != doc && live_named(store, other) implies #[trigger]
        live_named(after, other) by {
        assert(segment_counted(store, other.0.0));
        lemma_tombstone_other(store, doc, other);
    }
    assert forall|segment: u32| segment != doc.0.0 implies #[trigger] total_docs(after, segment)
        == total_docs(store, segment) && deleted_in(after, segment) == deleted_in(
        store,
        segment,
    ) by {
        assert(segment_counted(store, segment));
        lemma_tombstone_segment(store, doc, segment);
    }
}

/// After the writes that put a document into the index in a new segment, in
/// place of no other, the counts of a segment are in step: the new segment
/// took one document, none of them deleted, and of another segment nothing
/// has changed.
pub proof fn lemma_insertion_segment(
    store: StoreModel,
    builder: crate::segment_builder::SegmentBuilder,
    segment: u32,
    known: Map<Seq<u8>, TermId>,
    next_term_id: u32,
    key: Seq<u8>,
    other: u32,
)
    requires
        segment_counted(store, other),
        crate::settled::settled(store, segment),
        segment < u32::MAX,
        builder.doc_count() == 1,
    ensures
        ({
            let mid = apply_batch(
                store,
                crate::index::insertion(builder, segment, known, next_term_id, key, None),
            );
            &&& segment_counted(mid, other)
            &&& other != segment ==> total_docs(mid, other) == total_docs(store, other)
                && deleted_in(mid, other) == deleted_in(store, other)
            &&& other == segment ==> total_docs(mid, other) == 1 && deleted_in(mid, other)
                == Set::<u16>::empty()
        }),
{
    let mid = apply_batch(
        store,
        crate::index::insertion(builder, segment, known, next_term_id, key, None),
    );
    lemma_count_keys(other);
    lemma_insertion_effect(
        store,
        builder,
        segment,
        known,
        next_term_id,
        key,
        deletion_list_key(other),
    );
    lemma_insertion_effect(store, builder, segment, known, next_term_id, key, total_key(other));
    lemma_insertion_effect(store, builder, segment, known, next_term_id, key, deleted_key(other));
    if other != segment {
        lemma_count_keys_differ(other, segment);
        lemma_same_counts(store, mid, other);
    } else {
        crate::settled::lemma_settled_lacks(
            store,
            segment,
            KeyModel::DeletedDocument { segment_id: SegmentId(segment) },
        );
        crate::settled::lemma_settled_lacks(
            store,
            segment,
            KeyModel::Statistic {
                segment_id: SegmentId(segment),
                statistic: StatisticKey::TotalDocs,
            },
        );
        crate::settled::lemma_settled_lacks(
            store,
            segment,
            KeyModel::Statistic {
                segment_id: SegmentId(segment),
                statistic: StatisticKey::DeletedDocs,
            },
        );
        assert(total_key(segment)[0] == crate::key::TAG_STATISTIC);
        lemma_count_one_more(total_key(segment), None);
        lemma_decode_encode(0, 0, 0, 1);
        assert(be_i64(1).len() == 8);
        assert(stored(mid, total_key(segment)) == Some(be_i64(1)));
        assert(stored(mid, deletion_list_key(segment)) is None);
        assert(stored(mid, deleted_key(segment)) is None);
        assert(listed(deletion_list(mid, segment)).len() == 0);
        assert(deleted_in(mid, segment) =~= Set::<u16>::empty());
        reveal(segment_counted);
    }
}

/// After the writes that put a document into the index in a new segment, in
/// place of no other, the counts of every segment are in step, every document
/// that a key names is not deleted, and neither is the new document.
pub proof fn lemma_new_segment_keeps_counts(
    store: StoreModel,
    keys: Map<Seq<u8>, DocId>,
    builder: crate::segment_builder::SegmentBuilder,
    segment: u32,
    known: Map<Seq<u8>, TermId>,
    next_term_id: u32,
    key: Seq<u8>,
)
    requires
        counted(store, keys),
        crate::settled::settled(store, segment),
        crate::settled::named_below(keys, segment),
        segment < u32::MAX,
        builder.doc_count() == 1,
    ensures
        ({
            let mid = apply_batch(
                store,
                crate::index::insertion(builder, segment, known, next_term_id, key, None),
            );
            &&& forall|other: u32| #[trigger] segment_counted(mid, other)
            &&& forall|name: Seq<u8>| keys.contains_key(name) ==> live_named(mid, #[trigger] keys[name])
            &&& live_named(mid, DocId(SegmentId(segment), 0))
        }),
{
    let mid = apply_batch(
        store,
        crate::index::insertion(builder, segment, known, next_term_id, key, None),
    );
    assert forall|other: u32| #[trigger] segment_counted(mid, other) by {
        assert(segment_counted(store, other));
        lemma_insertion_segment(store, builder, segment, known, next_term_id, key, other);
    }
    assert(segment_counted(store, segment));
    lemma_insertion_segment(store, builder, segment, known, next_term_id, key, segment);
    assert forall|name: Seq<u8>| keys.contains_key(name) implies live_named(
        mid,
        #[trigger] keys[name],
    ) by {
        let named = keys[name];
        assert(live_named(store, named));
        assert(named.0.0 < segment);
        assert(segment_counted(store, named.0.0));
        lemma_insertion_segment(store, builder, segment, known, next_term_id, key, named.0.0);
    }
}

/// The record of the deletion of the document that a key named, if it named
/// one, with the key naming a new document that no key named, keeps the
/// counts in step.
pub proof fn lemma_renaming_keeps_counted(
    store: StoreModel,
    keys: Map<Seq<u8>, DocId>,
    key: Seq<u8>,
    new: DocId,
)
    requires
        forall|segment: u32| #[trigger] segment_counted(store, segment),
        forall|name: Seq<u8>| keys.contains_key(name) ==> live_named(store, #[trigger] keys[name]),
        one_key_each(keys),
        live_named(store, new),
        forall|name: Seq<u8>| keys.contains_key(name) ==> #[trigger] keys[name] != new,
    ensures
        counted(
            apply_batch(
                store,
                if keys.contains_key(key) {
                    tombstone(keys[key])
                } else {
                    Seq::empty()
                },
            ),
            keys.insert(key, new),
        ),
{
    let grown = keys.insert(key, new);
    if keys.contains_key(key) {
        let document = keys[key];
        let after = apply_batch(store, tombstone(document));
        assert(live_named(store, document));
        lemma_tombstone_keeps_counts(store, document);
        assert(new != document);
        assert(live_named(after, new));
        assert forall|name: Seq<u8>| grown.contains_key(name) implies live_named(
            after,
            #[trigger] grown[name],
        ) by {
            if name != key {
                assert(keys.contains_key(name));
                assert(keys[name] != document);
                assert(live_named(store, keys[name]));
            }
        }
    } else {
        assert(apply_batch(store, Seq::<OpModel>::empty()) == store);
        assert forall|name: Seq<u8>| grown.contains_key(name) implies live_named(
            store,
            #[trigger] grown[name],
        ) by {
            if name != key {
                assert(keys.contains_key(name));
            }
        }
    }
    assert(one_key_each(grown)) by {
        assert forall|a: Seq<u8>, b: Seq<u8>|
            grown.contains_key(a) && grown.contains_key(b) && grown[a] == grown[b] implies a
            == b by {
            if a != key && b != key {
                assert(keys.contains_key(a) && keys.contains_key(b));
            } else if a != key {
                assert(keys.contains_key(a));
                assert(keys[a] != new);
            } else if b != key {
                assert(keys.contains_key(b));
                assert(keys[b] != new);
            }
        }
    }
}

/// Putting a document into the index of a settled store keeps the counts in
/// step: the new segment took one document, the document that the key named
/// is deleted, if it named one, and the key names the new document.
pub proof fn lemma_insertion_keeps_counted(
    store: StoreModel,
    keys: Map<Seq<u8>, DocId>,
    batch: Seq<OpModel>,
    doc: crate::document::Document,
    segment: u32,
    known: Map<Seq<u8>, TermId>,
    next_term_id: u32,
)
    requires
        counted(store, keys),
        crate::settled::settled(store, segment),
        crate::settled::named_below(keys, segment),
        segment < u32::MAX,
        crate::index::inserts(
            batch,
            doc,
            segment,
            known,
            next_term_id,
            if keys.contains_key(doc.key_bytes()) {
                Some(keys[doc.key_bytes()])
            } else {
                None
            },
        ),
    ensures
        counted(
            apply_batch(store, batch),
            keys.insert(doc.key_bytes(), DocId(SegmentId(segment), 0)),
        ),
{
    let name = doc.key_bytes();
    let previous = if keys.contains_key(name) {
        Some(keys[name])
    } else {
        None
    };
    let builder = choose|builder: crate::segment_builder::SegmentBuilder| #[trigger]
        crate::index::holds_only(builder, doc) && batch == crate::index::insertion(
            builder,
            segment,
            known,
            next_term_id,
            name,
            previous,
        );
    assert(builder.doc_count() == 1) by {
        reveal(crate::index::holds_only);
    }
    let base = crate::index::insertion(builder, segment, known, next_term_id, name, None);
    let gone = if keys.contains_key(name) {
        tombstone(keys[name])
    } else {
        Seq::empty()
    };
    assert(batch =~= base + gone);
    lemma_apply_concat(store, base, gone);
    let mid = apply_batch(store, base);
    let new = DocId(SegmentId(segment), 0);
    lemma_new_segment_keeps_counts(store, keys, builder, segment, known, next_term_id, name);
    assert forall|other: Seq<u8>| keys.contains_key(other) implies #[trigger] keys[other]
        != new by {
        assert(keys[other].0.0 < segment);
    }
    lemma_renaming_keeps_counted(mid, keys, name, new);
}

/// The writes of the merged term directories are quiet.
pub proof fn lemma_merged_directories_are_quiet(model: MergeModel, n: int)
    requires
        0 <= n <= model.pairs().len(),
    ensures
        quiet(model.directory_writes(n)),
    decreases n,
{
    if n > 0 {
        lemma_merged_directories_are_quiet(model, n - 1);
        let pair = model.pairs()[n - 1];
        let written = merged_directory_write(pair, model.posting(pair), model.dest);
        lemma_count_key(
            KeyModel::TermDirectory { field_id: pair.0, term_id: pair.1, segment_id: model.dest },
        );
        lemma_count_key(
            KeyModel::Statistic {
                segment_id: model.dest,
                statistic: StatisticKey::TermDocFrequency(pair.0, pair.1),
            },
        );
        assert(quiet(written));
        lemma_quiet_concat(model.directory_writes(n - 1), written);
    }
}

/// The writes that copy kept values into a new segment are quiet.
pub proof fn lemma_copied_values_are_quiet(model: MergeModel, n: int)
    requires
        0 <= n <= model.entries.len(),
    ensures
        quiet(model.copied_values(n)),
    decreases n,
{
    if n > 0 {
        lemma_copied_values_are_quiet(model, n - 1);
        let entry = model.entries[n - 1];
        let written = model.copied_value(entry);
        if written.len() > 0 {
            match KeyModel::decoding(entry.0) {
                Some(KeyModel::DocumentFieldValue { doc_id, field_id, kind }) => {
                    lemma_count_key(
                        KeyModel::DocumentFieldValue {
                            doc_id: DocId(model.dest, model.mapping[doc_id]),
                            field_id,
                            kind,
                        },
                    );
                },
                _ => {},
            }
        }
        assert(quiet(written));
        lemma_quiet_concat(model.copied_values(n - 1), written);
    }
}

/// The writes of the statistics of the fields of a new segment are quiet.
pub proof fn lemma_statistics_are_quiet(model: MergeModel, n: int)
    requires
        0 <= n <= model.pairs().len(),
    ensures
        quiet(model.statistics_writes(n)),
    decreases n,
{
    if n > 0 {
        lemma_statistics_are_quiet(model, n - 1);
        if crate::segment_ops::first_of_field(model.pairs(), n - 1) {
            let field = model.pairs()[n - 1].0;
            let written = model.field_statistics(field);
            lemma_count_key(
                KeyModel::Statistic {
                    segment_id: model.dest,
                    statistic: StatisticKey::TotalFieldDocs(field),
                },
            );
            lemma_count_key(
                KeyModel::Statistic {
                    segment_id: model.dest,
                    statistic: StatisticKey::TotalFieldTokens(field),
                },
            );
            assert(quiet(written));
            lemma_quiet_concat(model.statistics_writes(n - 1), written);
        }
    }
}

/// The writes that take merged segments out of the live ones are quiet.
pub proof fn lemma_deactivations_are_quiet(model: MergeModel, n: int)
    requires
        0 <= n <= model.segments.len(),
    ensures
        quiet(model.deactivations(n)),
    decreases n,
{
    if n > 0 {
        lemma_deactivations_are_quiet(model, n - 1);
        let fewer = model.deactivations(n - 1);
        let all = model.deactivations(n);
        lemma_count_key(KeyModel::ActiveSegment { segment_id: SegmentId(model.segments[n - 1]) });
        assert forall|i: int| 0 <= i < all.len() implies !is_count_key(op_key(#[trigger] all[i])) by {
            if i < fewer.len() {
                assert(all[i] == fewer[i]);
            }
        }
    }
}

/// The writes that store the new places of keys are quiet.
pub proof fn lemma_relocation_is_quiet(
    entries: Seq<(Seq<u8>, DocId)>,
    mapping: Map<DocId, u16>,
    dest: SegmentId,
)
    ensures
        quiet(relocation_puts(entries, mapping, dest)),
    decreases entries.len(),
{
    if entries.len() > 0 {
        lemma_relocation_is_quiet(entries.drop_last(), mapping, dest);
        let fewer = relocation_puts(entries.drop_last(), mapping, dest);
        let all = relocation_puts(entries, mapping, dest);
        if mapping.contains_key(entries.last().1) {
            lemma_count_key(KeyModel::UniqueKey { key: entries.last().0 });
            assert forall|i: int| 0 <= i < all.len() implies !is_count_key(
                op_key(#[trigger] all[i]),
            ) by {
                if i < fewer.len() {
                    assert(all[i] == fewer[i]);
                }
            }
        }
    }
}

/// The writes of a merge, as the index hands them out.
pub open spec fn merge_batch(
    model: MergeModel,
    documents: nat,
    keys: Seq<(Seq<u8>, DocId)>,
    deleted: Seq<u16>,
) -> Seq<OpModel> {
    seq![crate::index::segment_counter_put((model.dest.0 + 1) as u32)] + model.writes(documents)
        + relocation_puts(keys, model.mapping, model.dest) + seq![
        OpModel::Put {
            key: deletion_list_key(model.dest.0),
            value: crate::doc_id_set::ordinal_bytes(deleted),
        },
    ]
}

/// What counts are read from after a merge: the count of the documents of the
/// new segment and its deletion list are those written, and nothing else has
/// changed.
pub proof fn lemma_merge_effect(
    store: StoreModel,
    model: MergeModel,
    documents: nat,
    keys: Seq<(Seq<u8>, DocId)>,
    deleted: Seq<u16>,
    about: Seq<u8>,
)
    requires
        is_count_key(about),
        model.dest.0 < u32::MAX,
    ensures
        stored(apply_batch(store, merge_batch(model, documents, keys, deleted)), about) == (
        if about == deletion_list_key(model.dest.0) {
            Some(crate::doc_id_set::ordinal_bytes(deleted))
        } else if about == total_key(model.dest.0) {
            Some(be_i64(documents as i64))
        } else {
            stored(store, about)
        }),
{
    let counter = seq![crate::index::segment_counter_put((model.dest.0 + 1) as u32)];
    lemma_count_key(KeyModel::Metadata { name: crate::key::name_next_segment_id() });
    assert(quiet(counter));
    let a = model.directory_writes(model.pairs().len() as int);
    lemma_merged_directories_are_quiet(model, model.pairs().len() as int);
    let b = model.copied_values(model.entries.len() as int);
    lemma_copied_values_are_quiet(model, model.entries.len() as int);
    let total = model.total_docs_write(documents);
    let d = model.statistics_writes(model.pairs().len() as int);
    lemma_statistics_are_quiet(model, model.pairs().len() as int);
    let e = seq![activation(model.dest)];
    lemma_count_key(KeyModel::ActiveSegment { segment_id: model.dest });
    assert(quiet(e));
    let f = model.deactivations(model.segments.len() as int);
    lemma_deactivations_are_quiet(model, model.segments.len() as int);
    let places = relocation_puts(keys, model.mapping, model.dest);
    lemma_relocation_is_quiet(keys, model.mapping, model.dest);
    let list = OpModel::Put {
        key: deletion_list_key(model.dest.0),
        value: crate::doc_id_set::ordinal_bytes(deleted),
    };
    let before = counter + a + b;
    let behind = d + e + f + places;
    lemma_quiet_concat(counter, a);
    lemma_quiet_concat(counter + a, b);
    lemma_quiet_concat(d, e);
    lemma_quiet_concat(d + e, f);
    lemma_quiet_concat(d + e + f, places);
    let batch = merge_batch(model, documents, keys, deleted);
    assert(batch =~= (before.push(total) + behind).push(list));
    lemma_apply_push(store, before.push(total) + behind, list);
    lemma_apply_concat(store, before.push(total), behind);
    lemma_apply_push(store, before, total);
    lemma_quiet_keeps(store, before, about);
    lemma_quiet_keeps(apply_batch(store, before.push(total)), behind, about);
    lemma_count_keys(model.dest.0);
    assert(op_key(total) == total_key(model.dest.0));
}

/// Where a merge keeps no deleted document, no deletion moves with it.
pub proof fn lemma_no_deletion_moves(deletions: Seq<(u32, Set<u16>)>, mapping: Map<DocId, u16>)
    requires
        forall|i: int, ord: u16|
            0 <= i < deletions.len() && #[trigger] deletions[i].1.contains(ord)
                ==> !mapping.contains_key(DocId(SegmentId(deletions[i].0), ord)),
    ensures
        crate::document_index::relocated_deletions(deletions, mapping) == Set::<u16>::empty(),
    decreases deletions.len(),
{
    if deletions.len() > 0 {
        let fewer = deletions.drop_last();
        assert forall|i: int, ord: u16|
            0 <= i < fewer.len() && #[trigger] fewer[i].1.contains(ord)
                implies !mapping.contains_key(DocId(SegmentId(fewer[i].0), ord)) by {
            assert(fewer[i] == deletions[i]);
        }
        lemma_no_deletion_moves(fewer, mapping);
        let last = deletions.last();
        let moved = crate::document_index::relocated_from(last.0, last.1, mapping);
        assert forall|ord: u16| !moved.contains(ord) by {
            if moved.contains(ord) {
                let source = choose|source: u16|
                    #[trigger] last.1.contains(source) && mapping.contains_key(
                        DocId(SegmentId(last.0), source),
                    ) && mapping[DocId(SegmentId(last.0), source)] == ord;
                assert(deletions[deletions.len() - 1].1.contains(source));
                assert(!mapping.contains_key(DocId(SegmentId(deletions[deletions.len() - 1].0), source)));
            }
        }
        assert(moved =~= Set::<u16>::empty());
        assert(crate::document_index::relocated_deletions(deletions, mapping) =~= Set::<
            u16,
        >::empty());
    }
}

/// A merge of the documents that are not deleted moves no deletion: the
/// deletion list that it writes for the new segment is empty.
pub proof fn lemma_merge_moves_no_deletion(store: StoreModel, segments: Seq<u32>)
    requires
        segments.no_duplicates(),
    ensures
        crate::doc_id_set::listing_of(
            crate::document_index::relocated_deletions(
                crate::segment_ops::deletions_in(store, segments),
                crate::doc_id_mapping::mapping_of(
                    crate::segment_ops::live_documents(store, segments),
                ),
            ),
        ).len() == 0,
{
    let live = crate::segment_ops::live_documents(store, segments);
    let mapping = crate::doc_id_mapping::mapping_of(live);
    let deletions = crate::segment_ops::deletions_in(store, segments);
    crate::merged::lemma_live_documents(store, segments);
    assert forall|i: int, ord: u16|
        0 <= i < deletions.len() && #[trigger] deletions[i].1.contains(ord)
            implies !mapping.contains_key(DocId(SegmentId(deletions[i].0), ord)) by {
        let doc = DocId(SegmentId(deletions[i].0), ord);
        if mapping.contains_key(doc) {
            let j = choose|j: int| 0 <= j < live.len() && live[j] == doc;
            assert(!deleted_in(store, live[j].0.0).contains(live[j].1));
        }
    }
    lemma_no_deletion_moves(deletions, mapping);
    let none = Set::<u16>::empty();
    let listing = crate::doc_id_set::listing_of(none);
    assert(crate::doc_id_set::lists(Seq::<u16>::empty(), none)) by {
        assert(Seq::<u16>::empty().to_set() =~= none);
    }
    if listing.len() > 0 {
        assert(listing.to_set().contains(listing[0]));
    }
}

/// The keys of an index after a merge name the documents that they named, at
/// their new places.
pub proof fn lemma_moved_keys(
    index: Seq<(Seq<u8>, DocId)>,
    mapping: Map<DocId, u16>,
    dest: SegmentId,
    key: Seq<u8>,
)
    requires
        crate::assoc::distinct_keys(index),
    ensures
        crate::assoc::assoc_map(
            crate::document_index::relocated_entries(index, mapping, dest),
        ).contains_key(key) == crate::assoc::assoc_map(index).contains_key(key),
        crate::assoc::assoc_map(index).contains_key(key) ==> crate::assoc::assoc_map(
            crate::document_index::relocated_entries(index, mapping, dest),
        )[key] == relocated(crate::assoc::assoc_map(index)[key], mapping, dest),
{
    let moved = crate::document_index::relocated_entries(index, mapping, dest);
    if crate::assoc::has_key(index, key) {
        let i = crate::assoc::key_index(index, key);
        assert(moved[i].0 == key);
        let j = crate::assoc::key_index(moved, key);
        assert(index[j].0 == key);
        assert(i == j);
    }
    if crate::assoc::has_key(moved, key) {
        let j = crate::assoc::key_index(moved, key);
        assert(index[j].0 == key);
    }
}

/// After a merge, the counts of a segment are in step: the new segment took
/// the documents that are left, none of them deleted, and of another segment
/// nothing has changed.
pub proof fn lemma_merge_segment(
    model: MergeModel,
    documents: nat,
    index: Seq<(Seq<u8>, DocId)>,
    segment: u32,
)
    requires
        segment_counted(model.store, segment),
        crate::settled::settled(model.store, model.dest.0),
        model.dest.0 < u32::MAX,
        documents <= 0x1_0000,
    ensures
        ({
            let after = apply_batch(
                model.store,
                merge_batch(model, documents, index, Seq::empty()),
            );
            &&& segment_counted(after, segment)
            &&& segment != model.dest.0 ==> total_docs(after, segment) == total_docs(
                model.store,
                segment,
            ) && deleted_in(after, segment) == deleted_in(model.store, segment)
            &&& segment == model.dest.0 ==> total_docs(after, segment) == documents && deleted_in(
                after,
                segment,
            ) == Set::<u16>::empty()
        }),
{
    let store = model.store;
    let dest = model.dest.0;
    let none = Seq::<u16>::empty();
    let after = apply_batch(store, merge_batch(model, documents, index, none));
    lemma_count_keys(segment);
    lemma_merge_effect(store, model, documents, index, none, deletion_list_key(segment));
    lemma_merge_effect(store, model, documents, index, none, total_key(segment));
    lemma_merge_effect(store, model, documents, index, none, deleted_key(segment));
    if segment != dest {
        lemma_count_keys_differ(segment, dest);
        lemma_same_counts(store, after, segment);
    } else {
        crate::settled::lemma_settled_lacks(
            store,
            dest,
            KeyModel::Statistic { segment_id: model.dest, statistic: StatisticKey::DeletedDocs },
        );
        lemma_decode_encode(0, 0, 0, documents as i64);
        assert(be_i64(documents as i64).len() == 8);
        assert(crate::doc_id_set::ordinal_bytes(none) =~= Seq::<u8>::empty());
        assert(stored(after, deletion_list_key(dest)) == Some(Seq::<u8>::empty()));
        assert(stored(after, total_key(dest)) == Some(be_i64(documents as i64)));
        assert(stored(after, deleted_key(dest)) is None);
        assert(listed(deletion_list(after, dest)).len() == 0);
        assert(deleted_in(after, dest) =~= Set::<u16>::empty());
        reveal(segment_counted);
    }
}

/// A merge of segments of a settled store keeps the counts in step: the new
/// segment took the documents that are left, none of them is deleted, and
/// the keys name them at their new places.
pub proof fn lemma_merge_keeps_counted(model: MergeModel, index: Seq<(Seq<u8>, DocId)>)
    requires
        counted(model.store, crate::assoc::assoc_map(index)),
        crate::assoc::distinct_keys(index),
        crate::settled::settled(model.store, model.dest.0),
        crate::settled::entries_below(index, model.dest.0),
        model.dest.0 < u32::MAX,
        model.segments.no_duplicates(),
        model.mapping == crate::doc_id_mapping::mapping_of(
            crate::segment_ops::live_documents(model.store, model.segments),
        ),
        crate::segment_ops::live_documents(model.store, model.segments).len() <= 0x1_0000,
    ensures
        counted(
            apply_batch(
                model.store,
                merge_batch(
                    model,
                    crate::segment_ops::live_documents(model.store, model.segments).len(),
                    index,
                    crate::doc_id_set::listing_of(
                        crate::document_index::relocated_deletions(
                            crate::segment_ops::deletions_in(model.store, model.segments),
                            model.mapping,
                        ),
                    ),
                ),
            ),
            crate::assoc::assoc_map(
                crate::document_index::relocated_entries(index, model.mapping, model.dest),
            ),
        ),
{
    let store = model.store;
    let dest = model.dest.0;
    let live = crate::segment_ops::live_documents(store, model.segments);
    let documents = live.len();
    let keys = crate::assoc::assoc_map(index);
    let moved = crate::assoc::assoc_map(
        crate::document_index::relocated_entries(index, model.mapping, model.dest),
    );
    lemma_merge_moves_no_deletion(store, model.segments);
    let deleted = crate::doc_id_set::listing_of(
        crate::document_index::relocated_deletions(
            crate::segment_ops::deletions_in(store, model.segments),
            model.mapping,
        ),
    );
    assert(deleted =~= Seq::<u16>::empty());
    let after = apply_batch(store, merge_batch(model, documents, index, Seq::empty()));
    crate::merged::lemma_live_documents(store, model.segments);
    crate::settled::lemma_named_below(index, dest);
    assert forall|segment: u32| #[trigger] segment_counted(after, segment) by {
        assert(segment_counted(store, segment));
        lemma_merge_segment(model, documents, index, segment);
    }
    assert(segment_counted(store, dest));
    lemma_merge_segment(model, documents, index, dest);
    assert forall|key: Seq<u8>| moved.contains_key(key) implies live_named(
        after,
        #[trigger] moved[key],
    ) by {
        lemma_moved_keys(index, model.mapping, model.dest, key);
        let named = keys[key];
        assert(keys.contains_key(key));
        assert(live_named(store, named));
        if model.mapping.contains_key(named) {
            let at = crate::doc_id_mapping::position_of(live, named);
            assert(0 <= at < live.len());
        } else {
            assert(named.0.0 < dest);
            assert(segment_counted(store, named.0.0));
            lemma_merge_segment(model, documents, index, named.0.0);
        }
    }
    assert(one_key_each(moved)) by {
        assert forall|a: Seq<u8>, b: Seq<u8>|
            moved.contains_key(a) && moved.contains_key(b) && moved[a] == moved[b] implies a
            == b by {
            lemma_moved_keys(index, model.mapping, model.dest, a);
            lemma_moved_keys(index, model.mapping, model.dest, b);
            assert(keys.contains_key(a) && keys.contains_key(b));
            let x = keys[a];
            let y = keys[b];
            assert(x.0.0 < dest && y.0.0 < dest);
            if model.mapping.contains_key(x) && model.mapping.contains_key(y) {
                let i = crate::doc_id_mapping::position_of(live, x);
                let j = crate::doc_id_mapping::position_of(live, y);
                assert(live[i] == x && live[j] == y);
                assert(i == j);
            }
        }
    }
}

/// Quiet writes keep the counts in step.
pub proof fn lemma_quiet_keeps_counted(store: StoreModel, keys: Map<Seq<u8>, DocId>, ops: Seq<OpModel>)
    requires
        counted(store, keys),
        quiet(ops),
    ensures
        counted(apply_batch(store, ops), keys),
{
    let after = apply_batch(store, ops);
    assert forall|segment: u32|
        #[trigger] segment_counted(after, segment) && total_docs(after, segment) == total_docs(
            store,
            segment,
        ) && deleted_in(after, segment) == deleted_in(store, segment) by {
        lemma_count_keys(segment);
        lemma_quiet_keeps(store, ops, deletion_list_key(segment));
        lemma_quiet_keeps(store, ops, total_key(segment));
        lemma_quiet_keeps(store, ops, deleted_key(segment));
        assert(segment_counted(store, segment));
        lemma_same_counts(store, after, segment);
    }
    assert forall|key: Seq<u8>| keys.contains_key(key) implies live_named(
        after,
        #[trigger] keys[key],
    ) by {
        assert(live_named(store, keys[key]));
        assert(segment_counted(after, keys[key].0.0));
    }
}

/// The writes that start the store of a new index, and those that add a field
/// or mark one as deleted, keep the counts in step.
pub proof fn lemma_field_writes_keep_counted(
    store: StoreModel,
    keys: Map<Seq<u8>, DocId>,
    field: u32,
    id: FieldId,
    definition: crate::schema::FieldDefinitionModel,
)
    requires
        counted(store, keys),
    ensures
        counted(
            apply_batch(
                store,
                seq![
                    crate::index::field_counter_put(field),
                    crate::index::field_definition_put(id, definition),
                ],
            ),
            keys,
        ),
        counted(
            apply_batch(store, seq![crate::index::field_definition_put(id, definition)]),
            keys,
        ),
{
    lemma_count_key(KeyModel::Metadata { name: crate::key::name_next_field_id() });
    lemma_count_key(KeyModel::FieldDefinition { field_id: id });
    let both = seq![
        crate::index::field_counter_put(field),
        crate::index::field_definition_put(id, definition),
    ];
    let one = seq![crate::index::field_definition_put(id, definition)];
    assert(quiet(both));
    assert(quiet(one));
    lemma_quiet_keeps_counted(store, keys, both);
    lemma_quiet_keeps_counted(store, keys, one);
}

/// In the store of a new index the counts are in step: no segment took a
/// document, and no key names one.
pub proof fn lemma_new_store_is_counted()
    ensures
        counted(
            apply_batch(
                Map::empty(),
                seq![
                    crate::index::field_counter_put(crate::schema::FIRST_FIELD_ID),
                    crate::index::segment_counter_put(crate::index::FIRST_SEGMENT_ID),
                    crate::index::term_counter_put(crate::index::FIRST_TERM_ID),
                ],
            ),
            Map::empty(),
        ),
{
    let store: StoreModel = Map::empty();
    let keys: Map<Seq<u8>, DocId> = Map::empty();
    assert(counted(store, keys)) by {
        assert forall|segment: u32| #[trigger] segment_counted(store, segment) by {
            assert(listed(deletion_list(store, segment)).len() == 0);
            reveal(segment_counted);
        }
    }
    lemma_count_key(KeyModel::Metadata { name: crate::key::name_next_field_id() });
    lemma_count_key(KeyModel::Metadata { name: crate::key::name_next_segment_id() });
    lemma_count_key(KeyModel::Metadata { name: crate::key::name_next_term_dictionary_id() });
    let batch = seq![
        crate::index::field_counter_put(crate::schema::FIRST_FIELD_ID),
        crate::index::segment_counter_put(crate::index::FIRST_SEGMENT_ID),
        crate::index::term_counter_put(crate::index::FIRST_TERM_ID),
    ];
    assert(quiet(batch));
    lemma_quiet_keeps_counted(store, keys, batch);
}

/// Removing all the entries of segments of which no key names a document
/// keeps the counts in step: nothing is counted of those segments any more.
pub proof fn lemma_purge_keeps_counted(
    store: StoreModel,
    keys: Map<Seq<u8>, DocId>,
    entries: Seq<Seq<u8>>,
    segments: Seq<u32>,
)
    requires
        counted(store, keys),
        forall|key: Seq<u8>| store.contains_key(key) ==> #[trigger] entries.contains(key),
        forall|key: Seq<u8>| keys.contains_key(key) ==> !segments.contains((#[trigger] keys[key]).0.0),
    ensures
        counted(
            apply_batch(
                store,
                crate::segment_ops::purge_writes(entries, segments, entries.len() as int),
            ),
            keys,
        ),
{
    let n = entries.len() as int;
    let after = apply_batch(store, crate::segment_ops::purge_writes(entries, segments, n));
    assert(entries.subrange(0, n) =~= entries);
    assert forall|segment: u32|
        #[trigger] segment_counted(after, segment) && (!segments.contains(segment) ==> total_docs(
            after,
            segment,
        ) == total_docs(store, segment) && deleted_in(after, segment) == deleted_in(
            store,
            segment,
        )) by {
        lemma_count_keys(segment);
        let list = deletion_list_key(segment);
        let total = total_key(segment);
        let deleted = deleted_key(segment);
        crate::segment_ops::lemma_purge_removes(store, entries, segments, n, list);
        crate::segment_ops::lemma_purge_removes(store, entries, segments, n, total);
        crate::segment_ops::lemma_purge_removes(store, entries, segments, n, deleted);
        (KeyModel::DeletedDocument { segment_id: SegmentId(segment) }).lemma_decoding_of_encoding();
        (KeyModel::Statistic {
            segment_id: SegmentId(segment),
            statistic: StatisticKey::TotalDocs,
        }).lemma_decoding_of_encoding();
        (KeyModel::Statistic {
            segment_id: SegmentId(segment),
            statistic: StatisticKey::DeletedDocs,
        }).lemma_decoding_of_encoding();
        assert(segment_counted(store, segment));
        if segments.contains(segment) {
            assert(stored(after, list) is None);
            assert(stored(after, total) is None);
            assert(stored(after, deleted) is None);
            assert(listed(deletion_list(after, segment)).len() == 0);
            reveal(segment_counted);
        } else {
            lemma_same_counts(store, after, segment);
        }
    }
    assert forall|key: Seq<u8>| keys.contains_key(key) implies live_named(
        after,
        #[trigger] keys[key],
    ) by {
        assert(live_named(store, keys[key]));
        assert(!segments.contains(keys[key].0.0));
        assert(segment_counted(after, keys[key].0.0));
    }
}

/// In a store whose counts are in step, no more documents of a segment are
/// counted as deleted than the segment took, and no segment took more than a
/// segment holds.
pub proof fn lemma_counted_in_bounds(store: StoreModel, keys: Map<Seq<u8>, DocId>, segment: u32)
    requires
        counted(store, keys),
    ensures
        0 <= deleted_docs(store, segment) <= total_docs(store, segment) <= 0x1_0000,
{
    assert(segment_counted(store, segment));
    lemma_counts_in_bounds(store, segment);
}

} // verus!
