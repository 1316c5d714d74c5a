//! Merging segments: the documents that are left of several segments are
//! written anew as one segment.

use crate::bitmap::serialized_values;
use crate::doc_id_mapping::DocIdMapping;
use crate::doc_id_set::{DocIdSet, listing_of};
use crate::document::{DocId, SegmentId};
use crate::document_index::{DocumentIndexManager, relocated_from};
use crate::encoding::{be_i64, i64_of_be, read_i64_be, write_i64_be};
use crate::key::{Key, KeyModel, StatisticKey, ValueKind};
use crate::schema::FieldId;
use crate::search::total_docs_in;
use crate::segment::{deleted_in, entries_map, MemorySegment, posting_in};
use crate::segment_writer::activation;
use crate::term::TermId;
use crate::term_vector::MAX_TOKENS;
use crate::write_batch::{apply_batch, OpModel, stored, StoreModel, WriteBatch};
use vstd::prelude::*;

verus! {

/// Why segments were not merged.
#[derive(Clone, Copy, Debug, PartialEq, Eq, Structural)]
pub enum SegmentMergeError {
    /// A segment to merge is not live.
    SegmentNotActive(u32),
    /// A segment to purge is live.
    SegmentActive(u32),
    /// A segment is to be merged twice.
    DuplicateSegment(u32),
    /// More documents are left than a segment holds.
    TooManyDocuments,
    /// No id is left for the new segment.
    IdsExhausted,
}

/// The documents of a segment at the ordinals below `n` that are not deleted,
/// in the order of their ordinals.
pub open spec fn live_below(deleted: Set<u16>, segment: u32, n: nat) -> Seq<DocId>
    decreases n,
{
    if n == 0 {
        Seq::empty()
    } else {
        let before = live_below(deleted, segment, (n - 1) as nat);
        if deleted.contains((n - 1) as u16) {
            before
        } else {
            before.push(DocId(SegmentId(segment), (n - 1) as u16))
        }
    }
}

/// The documents of a segment that are not deleted, in the order of their ordinals.
pub open spec fn live_in(store: StoreModel, segment: u32) -> Seq<DocId> {
    live_below(deleted_in(store, segment), segment, total_docs_in(store, segment))
}

/// The documents of the segments that are not deleted: segment after segment,
/// in the order of their ordinals.
pub open spec fn live_documents(store: StoreModel, segments: Seq<u32>) -> Seq<DocId>
    decreases segments.len(),
{
    if segments.len() == 0 {
        Seq::empty()
    } else {
        live_documents(store, segments.drop_last()) + live_in(store, segments.last())
    }
}

/// The live documents of a segment are documents of that segment, each once, at
/// ordinals below `n`.
pub proof fn lemma_live_below(deleted: Set<u16>, segment: u32, n: nat)
    requires
        n <= 0x1_0000,
    ensures
        live_below(deleted, segment, n).len() <= n,
        live_below(deleted, segment, n).no_duplicates(),
        forall|i: int|
            0 <= i < live_below(deleted, segment, n).len() ==> {
                &&& (#[trigger] live_below(deleted, segment, n)[i]).0 == SegmentId(segment)
                &&& live_below(deleted, segment, n)[i].1 < n
                &&& !deleted.contains(live_below(deleted, segment, n)[i].1)
            },
        forall|ord: u16|
            ord < n && !(#[trigger] deleted.contains(ord)) ==> live_below(
                deleted,
                segment,
                n,
            ).contains(DocId(SegmentId(segment), ord)),
    decreases n,
{
    if n > 0 {
        let before = live_below(deleted, segment, (n - 1) as nat);
        let all = live_below(deleted, segment, n);
        lemma_live_below(deleted, segment, (n - 1) as nat);
        if !deleted.contains((n - 1) as u16) {
            assert forall|i: int, j: int| 0 <= i < all.len() && 0 <= j < all.len() && i
                != j implies all[i] != all[j] by {
                if i < before.len() {
                    assert(all[i] == before[i]);
                }
                if j < before.len() {
                    assert(all[j] == before[j]);
                }
            }
            assert forall|i: int| 0 <= i < all.len() implies (#[trigger] all[i]).0 == SegmentId(
                segment,
            ) && all[i].1 < n && !deleted.contains(all[i].1) by {
                if i < before.len() {
                    assert(all[i] == before[i]);
                }
            }
        }
        assert forall|ord: u16| ord < n && !(#[trigger] deleted.contains(ord)) implies all.contains(
            DocId(SegmentId(segment), ord),
        ) by {
            let doc = DocId(SegmentId(segment), ord);
            if ord < n - 1 {
                assert(before.contains(doc));
                let i = choose|i: int| 0 <= i < before.len() && before[i] == doc;
                assert(all[i] == doc);
            } else {
                assert(all[all.len() - 1] == doc);
            }
        }
    }
}

/// Adds to the mapping the documents of a segment that are not deleted, in the
/// order of their ordinals. Fails where they are more than the new segment takes.
fn keep_live(mapping: &mut DocIdMapping, segment: u32, total_docs: u32, deleted: &DocIdSet) -> (kept:
    bool)
    requires
        old(mapping).wf(),
        total_docs <= 0x1_0000,
        forall|i: int|
            0 <= i < old(mapping).sources().len() ==> (#[trigger] old(mapping).sources()[i]).0
                != SegmentId(segment),
    ensures
        final(mapping).wf(),
        kept <==> old(mapping).sources().len() + live_below(
            deleted@,
            segment,
            total_docs as nat,
        ).len() <= 0x1_0000,
        kept ==> final(mapping).sources() == old(mapping).sources() + live_below(
            deleted@,
            segment,
            total_docs as nat,
        ),
{
    let ghost start = mapping.sources();
    let mut ord: u32 = 0;
    assert(start + live_below(deleted@, segment, 0) =~= start);
    while ord < total_docs
        invariant
            ord <= total_docs <= 0x1_0000,
            mapping.wf(),
            start == old(mapping).sources(),
            forall|i: int| 0 <= i < start.len() ==> (#[trigger] start[i]).0 != SegmentId(segment),
            mapping.sources() == start + live_below(deleted@, segment, ord as nat),
        decreases total_docs - ord,
    {
        if !deleted.contains_doc(ord as u16) {
            let doc_id = DocId::from_segment_ord(segment, ord as u16);
            proof {
                lemma_live_below(deleted@, segment, ord as nat);
                let live = live_below(deleted@, segment, ord as nat);
                if mapping.sources().contains(doc_id) {
                    let i = choose|i: int|
                        0 <= i < mapping.sources().len() && mapping.sources()[i] == doc_id;
                    if i < start.len() {
                        assert(start[i].0 != SegmentId(segment));
                    } else {
                        assert(live[i - start.len()].1 < ord);
                    }
                    assert(false);
                }
            }
            if mapping.len() >= 0x1_0000 {
                proof {
                    lemma_live_grows(deleted@, segment, ord as nat + 1, total_docs as nat);
                }
                return false;
            }
            mapping.push(doc_id);
            assert(mapping.sources() =~= start + live_below(deleted@, segment, ord as nat + 1));
        }
        ord += 1;
    }
    true
}

/// More ordinals have no fewer live documents.
pub proof fn lemma_live_grows(deleted: Set<u16>, segment: u32, fewer: nat, more: nat)
    requires
        fewer <= more,
    ensures
        live_below(deleted, segment, fewer).len() <= live_below(deleted, segment, more).len(),
    decreases more - fewer,
{
    if fewer < more {
        lemma_live_grows(deleted, segment, fewer, (more - 1) as nat);
    }
}

/// The segment is live in the store.
pub open spec fn is_active(store: StoreModel, segment: u32) -> bool {
    store.contains_key((KeyModel::ActiveSegment { segment_id: SegmentId(segment) }).encoding())
}

/// The live documents of segments are documents of those segments.
pub proof fn lemma_live_documents_segments(store: StoreModel, segments: Seq<u32>)
    ensures
        forall|i: int|
            0 <= i < live_documents(store, segments).len() ==> segments.contains(
                (#[trigger] live_documents(store, segments)[i]).0.0,
            ),
    decreases segments.len(),
{
    if segments.len() > 0 {
        let before = live_documents(store, segments.drop_last());
        let last = live_in(store, segments.last());
        let all = live_documents(store, segments);
        lemma_live_documents_segments(store, segments.drop_last());
        lemma_live_below(
            deleted_in(store, segments.last()),
            segments.last(),
            total_docs_in(store, segments.last()),
        );
        assert forall|i: int| 0 <= i < all.len() implies segments.contains(
            (#[trigger] all[i]).0.0,
        ) by {
            if i < before.len() {
                assert(all[i] == before[i]);
                let j = choose|j: int|
                    0 <= j < segments.drop_last().len() && segments.drop_last()[j] == before[i].0.0;
                assert(segments[j] == before[i].0.0);
            } else {
                assert(all[i] == last[i - before.len()]);
                assert(segments[segments.len() - 1] == all[i].0.0);
            }
        }
    }
}

/// Whether the segment at place `i` may be merged: it is live and not given
/// before.
fn check_source(entries: &Vec<(Vec<u8>, Vec<u8>)>, source_segments: &Vec<u32>, i: usize) -> (result:
    Result<(), SegmentMergeError>)
    requires
        i < source_segments@.len(),
    ensures
        result is Ok <==> (forall|k: int| 0 <= k < i ==> source_segments@[k] != source_segments@[i as int])
            && is_active(entries_map(entries@), source_segments@[i as int]),
        match result {
            Ok(_) => true,
            Err(SegmentMergeError::DuplicateSegment(segment)) => segment == source_segments@[i as int]
                && exists|k: int| 0 <= k < i && source_segments@[k] == segment,
            Err(SegmentMergeError::SegmentNotActive(segment)) => segment == source_segments@[i as int]
                && !is_active(entries_map(entries@), segment),
            Err(SegmentMergeError::TooManyDocuments) => false,
            Err(SegmentMergeError::IdsExhausted) => false,
            Err(SegmentMergeError::SegmentActive(_)) => false,
        },
{
    let segment_id = source_segments[i];
    let mut j: usize = 0;
    while j < i
        invariant
            j <= i < source_segments@.len(),
            segment_id == source_segments@[i as int],
            forall|k: int| 0 <= k < j ==> source_segments@[k] != segment_id,
        decreases i - j,
    {
        if source_segments[j] == segment_id {
            return Err(SegmentMergeError::DuplicateSegment(segment_id));
        }
        j += 1;
    }
    let segment = MemorySegment::new(segment_id, entries);
    if !segment.is_active() {
        return Err(SegmentMergeError::SegmentNotActive(segment_id));
    }
    Ok(())
}

/// The first `n` segments may be merged: each is live and given once.
pub open spec fn mergeable(store: StoreModel, segments: Seq<u32>, n: int) -> bool {
    forall|k: int|
        0 <= k < n ==> is_active(store, #[trigger] segments[k]) && forall|a: int|
            0 <= a < k ==> segments[a] != segments[k]
}

/// Says where each of the documents that are left of the segments goes: they
/// get the ordinals from zero on, segment after segment in the order given, in
/// the order of their ordinals.
///
/// Fails where a segment is given twice or is not live, and where more
/// documents are left than a segment holds.
#[verifier::spinoff_prover]
pub fn plan_merge(entries: &Vec<(Vec<u8>, Vec<u8>)>, source_segments: &Vec<u32>) -> (result:
    Result<DocIdMapping, SegmentMergeError>)
    ensures
        result is Ok <==> mergeable(
            entries_map(entries@),
            source_segments@,
            source_segments@.len() as int,
        ) && live_documents(entries_map(entries@), source_segments@).len() <= 0x1_0000,
        match result {
            Ok(mapping) => mapping.wf() && mapping.sources() == live_documents(
                entries_map(entries@),
                source_segments@,
            ),
            Err(SegmentMergeError::DuplicateSegment(segment)) => exists|i: int, j: int|
                0 <= i < j < source_segments@.len() && source_segments@[i] == segment
                    && source_segments@[j] == segment,
            Err(SegmentMergeError::SegmentNotActive(segment)) => source_segments@.contains(
                segment,
            ) && !is_active(entries_map(entries@), segment),
            Err(SegmentMergeError::TooManyDocuments) => mergeable(
                entries_map(entries@),
                source_segments@,
                source_segments@.len() as int,
            ),
            Err(SegmentMergeError::IdsExhausted) => false,
            Err(SegmentMergeError::SegmentActive(_)) => false,
        },
{
    let ghost store = entries_map(entries@);
    let ghost sources = source_segments@;
    // First the segments are looked at, then their documents.
    let mut c: usize = 0;
    while c < source_segments.len()
        invariant
            c <= source_segments.len(),
            store == entries_map(entries@),
            sources == source_segments@,
            mergeable(store, sources, c as int),
        decreases source_segments.len() - c,
    {
        match check_source(entries, source_segments, c) {
            Ok(_) => {},
            Err(error) => {
                proof {
                    if mergeable(store, sources, sources.len() as int) {
                        assert(is_active(store, sources[c as int]));
                    }
                    match error {
                        SegmentMergeError::DuplicateSegment(segment) => {
                            let k = choose|k: int| 0 <= k < c && sources[k] == segment;
                            assert(0 <= k < c < sources.len() && sources[k] == segment
                                && sources[c as int] == segment);
                        },
                        SegmentMergeError::SegmentNotActive(segment) => {
                            assert(sources[c as int] == segment);
                        },
                        SegmentMergeError::TooManyDocuments => {},
                        SegmentMergeError::IdsExhausted => {},
                        SegmentMergeError::SegmentActive(_) => {},
                    }
                }
                return Err(error);
            },
        }
        c += 1;
    }
    let mut mapping = DocIdMapping::new();
    let mut i: usize = 0;
    assert(sources.subrange(0, 0) =~= Seq::<u32>::empty());
    while i < source_segments.len()
        invariant
            i <= source_segments.len(),
            store == entries_map(entries@),
            sources == source_segments@,
            mergeable(store, sources, sources.len() as int),
            mapping.wf(),
            mapping.sources() == live_documents(store, sources.subrange(0, i as int)),
        decreases source_segments.len() - i,
    {
        let segment_id = source_segments[i];
        let ghost head = sources.subrange(0, i as int);
        let ghost next = sources.subrange(0, i as int + 1);
        let segment = MemorySegment::new(segment_id, entries);
        let total_docs = segment.total_docs();
        let deleted = segment.deleted();
        proof {
            assert(next.drop_last() =~= head);
            assert(next.last() == segment_id);
            lemma_live_documents_segments(store, head);
            assert(is_active(store, sources[i as int]));
            assert forall|k: int| 0 <= k < mapping.sources().len() implies (
            #[trigger] mapping.sources()[k]).0 != SegmentId(segment_id) by {
                let s = mapping.sources()[k].0.0;
                assert(head.contains(s));
                let a = choose|a: int| 0 <= a < head.len() && head[a] == s;
                assert(sources[a] == s);
            }
        }
        if !keep_live(&mut mapping, segment_id, total_docs, &deleted) {
            proof {
                lemma_live_count_grows(store, sources, i as int + 1);
            }
            return Err(SegmentMergeError::TooManyDocuments);
        }
        i += 1;
    }
    assert(sources.subrange(0, i as int) =~= sources);
    Ok(mapping)
}

/// More segments have no fewer live documents.
pub proof fn lemma_live_count_grows(store: StoreModel, segments: Seq<u32>, n: int)
    requires
        0 <= n <= segments.len(),
    ensures
        live_documents(store, segments.subrange(0, n)).len() <= live_documents(
            store,
            segments,
        ).len(),
    decreases segments.len() - n,
{
    if n == segments.len() {
        assert(segments.subrange(0, n) =~= segments);
    } else {
        let next = segments.subrange(0, n + 1);
        assert(next.drop_last() =~= segments.subrange(0, n));
        lemma_live_count_grows(store, segments, n + 1);
    }
}

/// The keys of the entries.
pub open spec fn entry_keys(entries: Seq<(Vec<u8>, Vec<u8>)>) -> Seq<Seq<u8>> {
    Seq::new(entries.len(), |i: int| entries[i].0@)
}

/// The entries as byte strings.
pub open spec fn entry_views(entries: Seq<(Vec<u8>, Vec<u8>)>) -> Seq<(Seq<u8>, Seq<u8>)> {
    Seq::new(entries.len(), |i: int| (entries[i].0@, entries[i].1@))
}

/// The field and the term of a key, if it is that of a term directory of one
/// of the segments.
pub open spec fn directory_pair(key: Seq<u8>, segments: Seq<u32>) -> Option<(FieldId, TermId)> {
    match KeyModel::decoding(key) {
        Some(KeyModel::TermDirectory { field_id, term_id, segment_id }) => if segments.contains(
            segment_id.0,
        ) {
            Some((field_id, term_id))
        } else {
            None
        },
        _ => None,
    }
}

/// The fields and terms that have a term directory in one of the segments,
/// each once, in the order in which the keys have them.
pub open spec fn pairs_of(keys: Seq<Seq<u8>>, segments: Seq<u32>) -> Seq<(FieldId, TermId)>
    decreases keys.len(),
{
    if keys.len() == 0 {
        Seq::empty()
    } else {
        let before = pairs_of(keys.drop_last(), segments);
        match directory_pair(keys.last(), segments) {
            Some(pair) => if before.contains(pair) {
                before
            } else {
                before.push(pair)
            },
            None => before,
        }
    }
}

/// No pair comes twice, and every term directory of the segments has its pair.
pub proof fn lemma_pairs_of(keys: Seq<Seq<u8>>, segments: Seq<u32>)
    ensures
        pairs_of(keys, segments).no_duplicates(),
        forall|i: int|
            0 <= i < keys.len() && directory_pair(#[trigger] keys[i], segments) is Some
                ==> pairs_of(keys, segments).contains(directory_pair(keys[i], segments).unwrap()),
    decreases keys.len(),
{
    if keys.len() > 0 {
        let before = pairs_of(keys.drop_last(), segments);
        let all = pairs_of(keys, segments);
        lemma_pairs_of(keys.drop_last(), segments);
        assert forall|a: int, b: int| 0 <= a < all.len() && 0 <= b < all.len() && a
            != b implies all[a] != all[b] by {
            if a < before.len() {
                assert(all[a] == before[a]);
            }
            if b < before.len() {
                assert(all[b] == before[b]);
            }
            if all.len() > before.len() {
                if a == before.len() && before.contains(all[b]) {
                }
                if b == before.len() && before.contains(all[a]) {
                }
            }
        }
        assert forall|x: (FieldId, TermId)| before.contains(x) implies all.contains(x) by {
            let a = choose|a: int| 0 <= a < before.len() && before[a] == x;
            assert(all[a] == x);
        }
        assert forall|i: int|
            0 <= i < keys.len() && directory_pair(
                #[trigger] keys[i],
                segments,
            ) is Some implies all.contains(directory_pair(keys[i], segments).unwrap()) by {
            let pair = directory_pair(keys[i], segments).unwrap();
            if i < keys.len() - 1 {
                assert(keys.drop_last()[i] == keys[i]);
                assert(before.contains(pair));
            } else {
                if !before.contains(pair) {
                    assert(all[all.len() - 1] == pair);
                }
            }
        }
    }
}

/// Whether the segment is one of the segments.
fn is_source(source_segments: &Vec<u32>, segment: u32) -> (among: bool)
    ensures
        among == source_segments@.contains(segment),
{
    let mut s: usize = 0;
    while s < source_segments.len()
        invariant
            s <= source_segments.len(),
            forall|k: int| 0 <= k < s ==> source_segments@[k] != segment,
        decreases source_segments.len() - s,
    {
        if source_segments[s] == segment {
            assert(source_segments@[s as int] == segment);
            return true;
        }
        s += 1;
    }
    false
}

/// The fields and terms that have a term directory in one of the segments, each
/// once, in the order in which the entries have them.
#[verifier::spinoff_prover]
pub fn directory_pairs(entries: &Vec<(Vec<u8>, Vec<u8>)>, source_segments: &Vec<u32>) -> (pairs:
    Vec<(FieldId, TermId)>)
    ensures
        pairs@ == pairs_of(entry_keys(entries@), source_segments@),
{
    let ghost keys = entry_keys(entries@);
    let mut pairs: Vec<(FieldId, TermId)> = Vec::new();
    let mut i: usize = 0;
    assert(keys.subrange(0, 0) =~= Seq::<Seq<u8>>::empty());
    while i < entries.len()
        invariant
            i <= entries.len(),
            keys == entry_keys(entries@),
            pairs@ == pairs_of(keys.subrange(0, i as int), source_segments@),
        decreases entries.len() - i,
    {
        proof {
            let next = keys.subrange(0, i as int + 1);
            assert(next.drop_last() =~= keys.subrange(0, i as int));
            assert(next.last() == entries@[i as int].0@);
        }
        match Key::from_bytes(entries[i].0.as_slice()) {
            Some(Key::TermDirectory { field_id, term_id, segment_id }) => {
                if is_source(source_segments, segment_id.0) {
                    let mut known: bool = false;
                    let mut p: usize = 0;
                    while p < pairs.len() && !known
                        invariant
                            p <= pairs.len(),
                            known ==> pairs@.contains((field_id, term_id)),
                            !known ==> forall|k: int| 0 <= k < p ==> pairs@[k] != (field_id, term_id),
                        decreases pairs.len() - p + (if known { 0int } else { 1int }),
                    {
                        if pairs[p].0.0 == field_id.0 && pairs[p].1.0 == term_id.0 {
                            assert(pairs@[p as int] == (field_id, term_id));
                            known = true;
                        } else {
                            p += 1;
                        }
                    }
                    if !known {
                        pairs.push((field_id, term_id));
                    }
                }
            },
            _ => {},
        }
        i += 1;
    }
    assert(keys.subrange(0, i as int) =~= keys);
    pairs
}

/// The ordinals that the documents with the term in the field get in the new
/// segment: of the documents of each of the segments, those that are left.
#[verifier::opaque]
pub open spec fn merged_posting(
    store: StoreModel,
    segments: Seq<u32>,
    mapping: Map<DocId, u16>,
    field: FieldId,
    term: TermId,
) -> Set<u16>
    decreases segments.len(),
{
    if segments.len() == 0 {
        Set::empty()
    } else {
        merged_posting(store, segments.drop_last(), mapping, field, term).union(
            relocated_from(
                segments.last(),
                posting_in(store, segments.last(), field, term),
                mapping,
            ),
        )
    }
}

/// Merges the term directories of a field and a term.
fn merge_posting(
    entries: &Vec<(Vec<u8>, Vec<u8>)>,
    source_segments: &Vec<u32>,
    mapping: &DocIdMapping,
    field: FieldId,
    term: TermId,
) -> (merged: DocIdSet)
    requires
        mapping.wf(),
    ensures
        merged@ == merged_posting(
            entries_map(entries@),
            source_segments@,
            mapping@,
            field,
            term,
        ),
{
    let ghost store = entries_map(entries@);
    let ghost sources = source_segments@;
    let mut merged = DocIdSet::new();
    let mut i: usize = 0;
    reveal(merged_posting);
    assert(sources.subrange(0, 0) =~= Seq::<u32>::empty());
    while i < source_segments.len()
        invariant
            i <= source_segments.len(),
            store == entries_map(entries@),
            sources == source_segments@,
            mapping.wf(),
            merged@ == merged_posting(store, sources.subrange(0, i as int), mapping@, field, term),
        decreases source_segments.len() - i,
    {
        proof {
            reveal(merged_posting);
            let next = sources.subrange(0, i as int + 1);
            assert(next.drop_last() =~= sources.subrange(0, i as int));
            assert(next.last() == sources[i as int]);
        }
        let segment = MemorySegment::new(source_segments[i], entries);
        let posting = segment.posting(field, term);
        DocumentIndexManager::relocate_deletions(
            source_segments[i],
            &posting,
            mapping,
            &mut merged,
        );
        i += 1;
    }
    assert(sources.subrange(0, i as int) =~= sources);
    merged
}

/// The ordinals of a set as 32-bit numbers.
pub open spec fn values_of(posting: Set<u16>) -> Set<u32> {
    Set::new(|value: u32| value <= 0xffff && posting.contains(value as u16))
}

/// What is written of the set, if anything is, is read back as the set.
pub open spec fn readable(posting: Set<u16>) -> bool {
    &&& crate::doc_id_set::lists(listing_of(posting), posting)
    &&& listing_of(posting).len() != 0 ==> DocIdSet::deserialized(
        serialized_values(values_of(posting)),
    ) == Some(posting)
}

/// The writes of a merged term directory: the directory itself, in the format of
/// the roaring crate, and the number of its documents. Nothing is written of a
/// directory without documents.
pub open spec fn merged_directory_write(
    pair: (FieldId, TermId),
    posting: Set<u16>,
    dest: SegmentId,
) -> Seq<OpModel> {
    if listing_of(posting).len() == 0 {
        Seq::empty()
    } else {
        seq![
            OpModel::Put {
                key: (KeyModel::TermDirectory {
                    field_id: pair.0,
                    term_id: pair.1,
                    segment_id: dest,
                }).encoding(),
                value: serialized_values(values_of(posting)),
            },
            OpModel::Put {
                key: (KeyModel::Statistic {
                    segment_id: dest,
                    statistic: StatisticKey::TermDocFrequency(pair.0, pair.1),
                }).encoding(),
                value: be_i64(listing_of(posting).len() as i64),
            },
        ]
    }
}

/// What a merge works on: the entries of the store, the segments to merge, the
/// ordinals that the documents that are left get, and the new segment.
pub struct MergeModel {
    pub store: StoreModel,
    pub entries: Seq<(Seq<u8>, Seq<u8>)>,
    pub segments: Seq<u32>,
    pub mapping: Map<DocId, u16>,
    pub dest: SegmentId,
}

impl MergeModel {
    /// The fields and terms with a term directory in one of the segments.
    pub open spec fn pairs(self) -> Seq<(FieldId, TermId)> {
        pairs_of(Seq::new(self.entries.len(), |i: int| self.entries[i].0), self.segments)
    }

    /// The merged term directory of a field and a term.
    pub open spec fn posting(self, pair: (FieldId, TermId)) -> Set<u16> {
        merged_posting(self.store, self.segments, self.mapping, pair.0, pair.1)
    }

    /// Every merged term directory is read back as it is written.
    pub open spec fn all_readable(self) -> bool {
        forall|i: int|
            0 <= i < self.pairs().len() ==> readable(self.posting(#[trigger] self.pairs()[i]))
    }

    /// The writes of the merged term directories of the first `n` pairs.
    pub open spec fn directory_writes(self, n: int) -> Seq<OpModel>
        decreases n,
    {
        if n <= 0 {
            Seq::empty()
        } else {
            self.directory_writes(n - 1) + merged_directory_write(
                self.pairs()[n - 1],
                self.posting(self.pairs()[n - 1]),
                self.dest,
            )
        }
    }

    /// The write that copies the value that an entry keeps for a document that
    /// is left; nothing for any other entry.
    pub open spec fn copied_value(self, entry: (Seq<u8>, Seq<u8>)) -> Seq<OpModel> {
        match KeyModel::decoding(entry.0) {
            Some(KeyModel::DocumentFieldValue { doc_id, field_id, kind }) => if self.mapping.contains_key(
                doc_id,
            ) {
                seq![
                    OpModel::Put {
                        key: (KeyModel::DocumentFieldValue {
                            doc_id: DocId(self.dest, self.mapping[doc_id]),
                            field_id,
                            kind,
                        }).encoding(),
                        value: entry.1,
                    },
                ]
            } else {
                Seq::empty()
            },
            _ => Seq::empty(),
        }
    }

    /// The writes that copy the kept values of the first `n` entries.
    pub open spec fn copied_values(self, n: int) -> Seq<OpModel>
        decreases n,
    {
        if n <= 0 {
            Seq::empty()
        } else {
            self.copied_values(n - 1) + self.copied_value(self.entries[n - 1])
        }
    }

    /// The documents of the new segment that have the field: those of the
    /// merged term directories of the field among the first `n` pairs.
    pub open spec fn field_documents(self, field: FieldId, n: int) -> Set<u16>
        decreases n,
    {
        if n <= 0 {
            Set::empty()
        } else if self.pairs()[n - 1].0 == field {
            self.field_documents(field, n - 1).union(self.posting(self.pairs()[n - 1]))
        } else {
            self.field_documents(field, n - 1)
        }
    }

    /// The number of documents in the merged term directories of the field
    /// among the first `n` pairs, all together: the tokens of the field if no
    /// term came twice in a document.
    pub open spec fn field_postings(self, field: FieldId, n: int) -> nat
        decreases n,
    {
        if n <= 0 {
            0
        } else if self.pairs()[n - 1].0 == field {
            self.field_postings(field, n - 1) + listing_of(self.posting(self.pairs()[n - 1])).len()
        } else {
            self.field_postings(field, n - 1)
        }
    }

    /// The tokens that an entry adds to those of the field: for the kept
    /// frequency of a term in a document that is left, the times that the term
    /// comes in the document beyond the first.
    pub open spec fn entry_extra(self, entry: (Seq<u8>, Seq<u8>), field: FieldId) -> nat {
        match KeyModel::decoding(entry.0) {
            Some(
                KeyModel::DocumentFieldValue { doc_id, field_id, kind: ValueKind::TermFrequency(_) },
            ) => if field_id == field && self.mapping.contains_key(doc_id) && entry.1.len() == 8
                && 1 <= i64_of_be(entry.1) <= MAX_TOKENS {
                (i64_of_be(entry.1) - 1) as nat
            } else {
                0
            },
            _ => 0,
        }
    }

    /// The tokens that the first `n` entries add to those of the field.
    pub open spec fn field_extras(self, field: FieldId, n: int) -> nat
        decreases n,
    {
        if n <= 0 {
            0
        } else {
            self.field_extras(field, n - 1) + self.entry_extra(self.entries[n - 1], field)
        }
    }

    /// The writes of the statistics of a field of the new segment: the number
    /// of documents that have the field, and the number of tokens of the field.
    pub open spec fn field_statistics(self, field: FieldId) -> Seq<OpModel> {
        seq![
            OpModel::Put {
                key: (KeyModel::Statistic {
                    segment_id: self.dest,
                    statistic: StatisticKey::TotalFieldDocs(field),
                }).encoding(),
                value: be_i64(
                    listing_of(self.field_documents(field, self.pairs().len() as int)).len() as i64,
                ),
            },
            OpModel::Put {
                key: (KeyModel::Statistic {
                    segment_id: self.dest,
                    statistic: StatisticKey::TotalFieldTokens(field),
                }).encoding(),
                value: be_i64(
                    clamped(
                        self.field_postings(field, self.pairs().len() as int) + self.field_extras(
                            field,
                            self.entries.len() as int,
                        ),
                    ),
                ),
            },
        ]
    }

    /// The writes of the statistics of the fields of the first `n` pairs, each
    /// field at the first pair that has it.
    pub open spec fn statistics_writes(self, n: int) -> Seq<OpModel>
        decreases n,
    {
        if n <= 0 {
            Seq::empty()
        } else if first_of_field(self.pairs(), n - 1) {
            self.statistics_writes(n - 1) + self.field_statistics(self.pairs()[n - 1].0)
        } else {
            self.statistics_writes(n - 1)
        }
    }

    /// The write of the number of documents of the new segment.
    pub open spec fn total_docs_write(self, documents: nat) -> OpModel {
        OpModel::Put {
            key: (KeyModel::Statistic {
                segment_id: self.dest,
                statistic: StatisticKey::TotalDocs,
            }).encoding(),
            value: be_i64(documents as i64),
        }
    }

    /// The writes that take the first `n` of the merged segments out of the
    /// live ones.
    pub open spec fn deactivations(self, n: int) -> Seq<OpModel>
        decreases n,
    {
        if n <= 0 {
            Seq::empty()
        } else {
            self.deactivations(n - 1).push(
                OpModel::Delete {
                    key: (KeyModel::ActiveSegment {
                        segment_id: SegmentId(self.segments[n - 1]),
                    }).encoding(),
                },
            )
        }
    }

    /// The writes of a merge: the merged term directories, the kept values
    /// of the documents that are left, the statistics of the new segment, worked
    /// out anew, then the new segment goes live and the merged ones leave.
    pub open spec fn writes(self, documents: nat) -> Seq<OpModel> {
        self.directory_writes(self.pairs().len() as int) + self.copied_values(
            self.entries.len() as int,
        ) + seq![self.total_docs_write(documents)] + self.statistics_writes(
            self.pairs().len() as int,
        ) + seq![activation(self.dest)] + self.deactivations(self.segments.len() as int)
    }
}

/// The number as a signed number of 64 bits, the largest one for a number beyond.
pub open spec fn clamped(n: nat) -> i64 {
    if n > i64::MAX {
        i64::MAX
    } else {
        n as i64
    }
}

/// No pair before the one at place `i` has its field.
pub open spec fn first_of_field(pairs: Seq<(FieldId, TermId)>, i: int) -> bool {
    forall|k: int| 0 <= k < i ==> (#[trigger] pairs[k]).0 != pairs[i].0
}

/// What a merge works on, for entries held in memory.
pub open spec fn merge_model(
    entries: Seq<(Vec<u8>, Vec<u8>)>,
    segments: Seq<u32>,
    mapping: Map<DocId, u16>,
    dest: u32,
) -> MergeModel {
    MergeModel {
        store: entries_map(entries),
        entries: entry_views(entries),
        segments,
        mapping,
        dest: SegmentId(dest),
    }
}

/// The pairs of a merge over entries held in memory are those of the entries.
pub proof fn lemma_model_pairs(
    entries: Seq<(Vec<u8>, Vec<u8>)>,
    segments: Seq<u32>,
    mapping: Map<DocId, u16>,
    dest: u32,
)
    ensures
        merge_model(entries, segments, mapping, dest).pairs() == pairs_of(
            entry_keys(entries),
            segments,
        ),
{
    let model = merge_model(entries, segments, mapping, dest);
    assert(Seq::new(model.entries.len(), |i: int| model.entries[i].0) =~= entry_keys(entries));
}

/// Appends the writes of one merged term directory.
fn write_merged_directory(
    pair: (FieldId, TermId),
    merged: &DocIdSet,
    dest_segment: u32,
    batch: &mut WriteBatch,
)
    ensures
        final(batch)@ == old(batch)@ + merged_directory_write(
            pair,
            merged@,
            SegmentId(dest_segment),
        ),
        readable(merged@),
{
    let count = merged.len();
    if count != 0 {
        let serialized = merged.serialize();
        batch.put(
            &Key::term_directory(pair.0, pair.1, SegmentId(dest_segment)),
            serialized.as_slice(),
        );
        let frequency = write_i64_be(count as i64);
        batch.put(
            &Key::statistic(
                SegmentId(dest_segment),
                StatisticKey::TermDocFrequency(pair.0, pair.1),
            ),
            frequency.as_slice(),
        );
        assert(merged.values() =~= values_of(merged@));
        assert(readable(merged@));
    }
    assert(batch@ =~= old(batch)@ + merged_directory_write(
        pair,
        merged@,
        SegmentId(dest_segment),
    ));
}

/// Appends the writes of the merged term directories and hands back the
/// merged directories, in the order of the pairs.
#[verifier::spinoff_prover]
fn write_merged_directories(
    entries: &Vec<(Vec<u8>, Vec<u8>)>,
    source_segments: &Vec<u32>,
    mapping: &DocIdMapping,
    dest_segment: u32,
    pairs: &Vec<(FieldId, TermId)>,
    batch: &mut WriteBatch,
    Ghost(model): Ghost<MergeModel>,
) -> (postings: Vec<DocIdSet>)
    requires
        mapping.wf(),
        model.store == entries_map(entries@),
        model.segments == source_segments@,
        model.mapping == mapping@,
        model.dest == SegmentId(dest_segment),
        model.pairs() == pairs@,
    ensures
        final(batch)@ == old(batch)@ + model.directory_writes(pairs@.len() as int),
        postings@.len() == pairs@.len(),
        forall|i: int|
            0 <= i < pairs@.len() ==> (#[trigger] postings@[i])@ == model.posting(pairs@[i]),
        model.all_readable(),
{
    let ghost start = batch@;
    let mut postings: Vec<DocIdSet> = Vec::new();
    let mut i: usize = 0;
    assert(batch@ =~= start + model.directory_writes(0));
    while i < pairs.len()
        invariant
            i <= pairs.len(),
            mapping.wf(),
            model.store == entries_map(entries@),
            model.segments == source_segments@,
            model.mapping == mapping@,
            model.dest == SegmentId(dest_segment),
            model.pairs() == pairs@,
            batch@ == start + model.directory_writes(i as int),
            postings@.len() == i,
            forall|k: int| 0 <= k < i ==> (#[trigger] postings@[k])@ == model.posting(pairs@[k]),
            forall|k: int| 0 <= k < i ==> readable(model.posting(#[trigger] pairs@[k])),
        decreases pairs.len() - i,
    {
        let pair = pairs[i];
        let merged = merge_posting(entries, source_segments, mapping, pair.0, pair.1);
        assert(merged@ == model.posting(pair));
        let ghost before = batch@;
        write_merged_directory(pair, &merged, dest_segment, batch);
        proof {
            assert(model.directory_writes(i as int + 1) == model.directory_writes(i as int)
                + merged_directory_write(pair, merged@, SegmentId(dest_segment)));
            assert(batch@ =~= start + model.directory_writes(i as int + 1));
        }
        postings.push(merged);
        i += 1;
    }
    postings
}

/// Appends the writes that copy the kept values of the documents that are left.
fn write_copied_values(
    entries: &Vec<(Vec<u8>, Vec<u8>)>,
    mapping: &DocIdMapping,
    dest_segment: u32,
    batch: &mut WriteBatch,
    Ghost(model): Ghost<MergeModel>,
)
    requires
        mapping.wf(),
        model.entries == entry_views(entries@),
        model.mapping == mapping@,
        model.dest == SegmentId(dest_segment),
    ensures
        final(batch)@ == old(batch)@ + model.copied_values(entries@.len() as int),
{
    let ghost start = batch@;
    let mut i: usize = 0;
    assert(batch@ =~= start + model.copied_values(0));
    while i < entries.len()
        invariant
            i <= entries.len(),
            mapping.wf(),
            model.entries == entry_views(entries@),
            model.mapping == mapping@,
            model.dest == SegmentId(dest_segment),
            batch@ == start + model.copied_values(i as int),
        decreases entries.len() - i,
    {
        let ghost before = batch@;
        assert(model.entries[i as int] == (entries@[i as int].0@, entries@[i as int].1@));
        match Key::from_bytes(entries[i].0.as_slice()) {
            Some(Key::DocumentFieldValue { doc_id, field_id, kind }) => {
                match mapping.get(doc_id) {
                    Some(ord) => {
                        batch.put(
                            &Key::stored_value(
                                DocId::from_segment_ord(dest_segment, ord),
                                field_id,
                                kind,
                            ),
                            entries[i].1.as_slice(),
                        );
                    },
                    None => {},
                }
            },
            _ => {},
        }
        assert(batch@ =~= before + model.copied_value(model.entries[i as int]));
        i += 1;
    }
}

/// The documents of the new segment that have the field.
fn collect_field_documents(
    pairs: &Vec<(FieldId, TermId)>,
    postings: &Vec<DocIdSet>,
    field: FieldId,
    Ghost(model): Ghost<MergeModel>,
) -> (documents: DocIdSet)
    requires
        model.pairs() == pairs@,
        postings@.len() == pairs@.len(),
        forall|i: int|
            0 <= i < pairs@.len() ==> (#[trigger] postings@[i])@ == model.posting(pairs@[i]),
    ensures
        documents@ == model.field_documents(field, pairs@.len() as int),
{
    let mut documents = DocIdSet::new();
    let mut n: usize = 0;
    while n < pairs.len()
        invariant
            n <= pairs.len(),
            model.pairs() == pairs@,
            postings@.len() == pairs@.len(),
            forall|i: int|
                0 <= i < pairs@.len() ==> (#[trigger] postings@[i])@ == model.posting(pairs@[i]),
            documents@ == model.field_documents(field, n as int),
        decreases pairs.len() - n,
    {
        if pairs[n].0.0 == field.0 {
            assert(postings@[n as int]@ == model.posting(pairs@[n as int]));
            documents = documents.union(&postings[n]);
        }
        n += 1;
    }
    documents
}

/// The number of documents in the merged term directories of the field, all
/// together.
fn count_field_postings(
    pairs: &Vec<(FieldId, TermId)>,
    postings: &Vec<DocIdSet>,
    field: FieldId,
    Ghost(model): Ghost<MergeModel>,
) -> (total: u128)
    requires
        model.pairs() == pairs@,
        postings@.len() == pairs@.len(),
        forall|i: int|
            0 <= i < pairs@.len() ==> (#[trigger] postings@[i])@ == model.posting(pairs@[i]),
    ensures
        total == model.field_postings(field, pairs@.len() as int),
        total <= pairs@.len() * 0x1_0000,
{
    let mut total: u128 = 0;
    let mut n: usize = 0;
    while n < pairs.len()
        invariant
            n <= pairs.len(),
            model.pairs() == pairs@,
            postings@.len() == pairs@.len(),
            forall|i: int|
                0 <= i < pairs@.len() ==> (#[trigger] postings@[i])@ == model.posting(pairs@[i]),
            total == model.field_postings(field, n as int),
            total <= n * 0x1_0000,
        decreases pairs.len() - n,
    {
        if pairs[n].0.0 == field.0 {
            assert(postings@[n as int]@ == model.posting(pairs@[n as int]));
            total = total + postings[n].len() as u128;
        }
        n += 1;
    }
    total
}

/// The tokens that the kept term frequencies add to those of the field.
fn count_field_extras(
    entries: &Vec<(Vec<u8>, Vec<u8>)>,
    mapping: &DocIdMapping,
    field: FieldId,
    Ghost(model): Ghost<MergeModel>,
) -> (total: u128)
    requires
        mapping.wf(),
        model.entries == entry_views(entries@),
        model.mapping == mapping@,
    ensures
        total == model.field_extras(field, entries@.len() as int),
        total <= entries@.len() * 0xffff_ffff,
{
    let mut total: u128 = 0;
    let mut n: usize = 0;
    while n < entries.len()
        invariant
            n <= entries.len(),
            mapping.wf(),
            model.entries == entry_views(entries@),
            model.mapping == mapping@,
            total == model.field_extras(field, n as int),
            total <= n * 0xffff_ffff,
        decreases entries.len() - n,
    {
        assert(model.entries[n as int] == (entries@[n as int].0@, entries@[n as int].1@));
        match Key::from_bytes(entries[n].0.as_slice()) {
            Some(Key::DocumentFieldValue { doc_id, field_id, kind: ValueKind::TermFrequency(_) }) => {
                if field_id.0 == field.0 && mapping.get(doc_id).is_some() && entries[n].1.len() == 8 {
                    let frequency = read_i64_be(entries[n].1.as_slice());
                    if 1 <= frequency && frequency <= 0xffff_ffff {
                        total = total + (frequency - 1) as u128;
                    }
                }
            },
            _ => {},
        }
        n += 1;
    }
    total
}

/// Whether no pair before the one at place `i` has its field.
fn is_first_of_field(pairs: &Vec<(FieldId, TermId)>, i: usize) -> (first: bool)
    requires
        i < pairs@.len(),
    ensures
        first == first_of_field(pairs@, i as int),
{
    let mut k: usize = 0;
    while k < i
        invariant
            k <= i < pairs@.len(),
            forall|j: int| 0 <= j < k ==> (#[trigger] pairs@[j]).0 != pairs@[i as int].0,
        decreases i - k,
    {
        if pairs[k].0.0 == pairs[i].0.0 {
            assert(pairs@[k as int].0 == pairs@[i as int].0);
            return false;
        }
        k += 1;
    }
    true
}

/// Appends the writes of the statistics of one field.
fn write_field_statistics(
    entries: &Vec<(Vec<u8>, Vec<u8>)>,
    mapping: &DocIdMapping,
    dest_segment: u32,
    pairs: &Vec<(FieldId, TermId)>,
    postings: &Vec<DocIdSet>,
    field: FieldId,
    batch: &mut WriteBatch,
    Ghost(model): Ghost<MergeModel>,
)
    requires
        mapping.wf(),
        model.entries == entry_views(entries@),
        model.mapping == mapping@,
        model.dest == SegmentId(dest_segment),
        model.pairs() == pairs@,
        postings@.len() == pairs@.len(),
        forall|i: int|
            0 <= i < pairs@.len() ==> (#[trigger] postings@[i])@ == model.posting(pairs@[i]),
    ensures
        final(batch)@ == old(batch)@ + model.field_statistics(field),
{
    let documents = collect_field_documents(pairs, postings, field, Ghost(model));
    let docs = write_i64_be(documents.len() as i64);
    batch.put(
        &Key::statistic(SegmentId(dest_segment), StatisticKey::TotalFieldDocs(field)),
        docs.as_slice(),
    );
    let counted = count_field_postings(pairs, postings, field, Ghost(model));
    let extras = count_field_extras(entries, mapping, field, Ghost(model));
    let pair_count = pairs.len();
    let entry_count = entries.len();
    assert(pair_count * 0x1_0000 + entry_count * 0xffff_ffff <= u128::MAX) by (nonlinear_arith)
        requires
            pair_count <= usize::MAX,
            entry_count <= usize::MAX,
    ;
    let sum: u128 = counted + extras;
    let tokens: i64 = if sum > 0x7fff_ffff_ffff_ffff {
        0x7fff_ffff_ffff_ffff
    } else {
        sum as i64
    };
    let tokens = write_i64_be(tokens);
    batch.put(
        &Key::statistic(SegmentId(dest_segment), StatisticKey::TotalFieldTokens(field)),
        tokens.as_slice(),
    );
    assert(batch@ =~= old(batch)@ + model.field_statistics(field));
}

/// Appends the writes of the statistics of the fields.
fn write_statistics(
    entries: &Vec<(Vec<u8>, Vec<u8>)>,
    mapping: &DocIdMapping,
    dest_segment: u32,
    pairs: &Vec<(FieldId, TermId)>,
    postings: &Vec<DocIdSet>,
    batch: &mut WriteBatch,
    Ghost(model): Ghost<MergeModel>,
)
    requires
        mapping.wf(),
        model.entries == entry_views(entries@),
        model.mapping == mapping@,
        model.dest == SegmentId(dest_segment),
        model.pairs() == pairs@,
        postings@.len() == pairs@.len(),
        forall|i: int|
            0 <= i < pairs@.len() ==> (#[trigger] postings@[i])@ == model.posting(pairs@[i]),
    ensures
        final(batch)@ == old(batch)@ + model.statistics_writes(pairs@.len() as int),
{
    let ghost start = batch@;
    let mut i: usize = 0;
    assert(batch@ =~= start + model.statistics_writes(0));
    while i < pairs.len()
        invariant
            i <= pairs.len(),
            mapping.wf(),
            model.entries == entry_views(entries@),
            model.mapping == mapping@,
            model.dest == SegmentId(dest_segment),
            model.pairs() == pairs@,
            postings@.len() == pairs@.len(),
            forall|k: int|
                0 <= k < pairs@.len() ==> (#[trigger] postings@[k])@ == model.posting(pairs@[k]),
            batch@ == start + model.statistics_writes(i as int),
        decreases pairs.len() - i,
    {
        let ghost before = batch@;
        if is_first_of_field(pairs, i) {
            write_field_statistics(
                entries,
                mapping,
                dest_segment,
                pairs,
                postings,
                pairs[i].0,
                batch,
                Ghost(model),
            );
            assert(batch@ =~= start + model.statistics_writes(i as int + 1));
        }
        i += 1;
    }
}

/// Appends the writes that take the merged segments out of the live ones.
fn write_deactivations(
    source_segments: &Vec<u32>,
    batch: &mut WriteBatch,
    Ghost(model): Ghost<MergeModel>,
)
    requires
        model.segments == source_segments@,
    ensures
        final(batch)@ == old(batch)@ + model.deactivations(source_segments@.len() as int),
{
    let ghost start = batch@;
    let mut i: usize = 0;
    assert(batch@ =~= start + model.deactivations(0));
    while i < source_segments.len()
        invariant
            i <= source_segments.len(),
            model.segments == source_segments@,
            batch@ == start + model.deactivations(i as int),
        decreases source_segments.len() - i,
    {
        batch.delete(&Key::active_segment(SegmentId(source_segments[i])));
        assert(batch@ =~= start + model.deactivations(i as int + 1));
        i += 1;
    }
}

/// Merges segments into the new segment `dest_segment`, given the entries of
/// the store. Hands back the writes of the new segment and the ordinals that
/// the documents that are left get in it.
///
/// The documents that are not deleted get the ordinals from zero on, segment
/// after segment in the order given. The term directories are merged, the kept
/// values of those documents copied, the statistics worked out anew; then the
/// new segment goes live and the merged ones leave.
///
/// Fails where a segment is given twice or is not live, and where more
/// documents are left than a segment holds.
#[verifier::spinoff_prover]
pub fn merge_segments(
    entries: &Vec<(Vec<u8>, Vec<u8>)>,
    source_segments: &Vec<u32>,
    dest_segment: u32,
) -> (result: Result<(WriteBatch, DocIdMapping), SegmentMergeError>)
    ensures
        result is Ok <==> mergeable(
            entries_map(entries@),
            source_segments@,
            source_segments@.len() as int,
        ) && live_documents(entries_map(entries@), source_segments@).len() <= 0x1_0000,
        match result {
            Ok((batch, mapping)) => {
                &&& mapping.wf()
                &&& mapping.sources() == live_documents(entries_map(entries@), source_segments@)
                &&& batch@ == merge_model(
                    entries@,
                    source_segments@,
                    mapping@,
                    dest_segment,
                ).writes(mapping.sources().len())
                &&& merge_model(entries@, source_segments@, mapping@, dest_segment).all_readable()
            },
            Err(SegmentMergeError::DuplicateSegment(segment)) => exists|i: int, j: int|
                0 <= i < j < source_segments@.len() && source_segments@[i] == segment
                    && source_segments@[j] == segment,
            Err(SegmentMergeError::SegmentNotActive(segment)) => source_segments@.contains(
                segment,
            ) && !is_active(entries_map(entries@), segment),
            Err(SegmentMergeError::TooManyDocuments) => mergeable(
                entries_map(entries@),
                source_segments@,
                source_segments@.len() as int,
            ),
            Err(SegmentMergeError::IdsExhausted) => false,
            Err(SegmentMergeError::SegmentActive(_)) => false,
        },
{
    let mapping = match plan_merge(entries, source_segments) {
        Ok(mapping) => mapping,
        Err(error) => {
            return Err(error);
        },
    };
    let ghost model = merge_model(entries@, source_segments@, mapping@, dest_segment);
    proof {
        lemma_model_pairs(entries@, source_segments@, mapping@, dest_segment);
    }
    let pairs = directory_pairs(entries, source_segments);
    let mut batch = WriteBatch::new();
    let postings = write_merged_directories(
        entries,
        source_segments,
        &mapping,
        dest_segment,
        &pairs,
        &mut batch,
        Ghost(model),
    );
    write_copied_values(entries, &mapping, dest_segment, &mut batch, Ghost(model));
    let total = write_i64_be(mapping.len() as i64);
    batch.put(&Key::statistic(SegmentId(dest_segment), StatisticKey::TotalDocs), total.as_slice());
    write_statistics(
        entries,
        &mapping,
        dest_segment,
        &pairs,
        &postings,
        &mut batch,
        Ghost(model),
    );
    let nothing: Vec<u8> = Vec::new();
    batch.put(&Key::active_segment(SegmentId(dest_segment)), nothing.as_slice());
    write_deactivations(source_segments, &mut batch, Ghost(model));
    assert(batch@ =~= model.writes(mapping.sources().len()));
    Ok((batch, mapping))
}

/// The write that removes an entry of one of the segments; nothing for any
/// other entry.
pub open spec fn purge_write(key: Seq<u8>, segments: Seq<u32>) -> Seq<OpModel> {
    if belongs_to(key, segments) {
        seq![OpModel::Delete { key }]
    } else {
        Seq::empty()
    }
}

/// The key is one of an entry of one of the segments.
pub open spec fn belongs_to(key: Seq<u8>, segments: Seq<u32>) -> bool {
    match KeyModel::decoding(key) {
        Some(KeyModel::TermDirectory { segment_id, .. }) => segments.contains(segment_id.0),
        Some(KeyModel::DocumentFieldValue { doc_id, .. }) => segments.contains(doc_id.0.0),
        Some(KeyModel::DeletedDocument { segment_id }) => segments.contains(segment_id.0),
        Some(KeyModel::Statistic { segment_id, .. }) => segments.contains(segment_id.0),
        _ => false,
    }
}

/// The writes that remove the entries of the segments among the first `n` keys.
pub open spec fn purge_writes(keys: Seq<Seq<u8>>, segments: Seq<u32>, n: int) -> Seq<OpModel>
    decreases n,
{
    if n <= 0 {
        Seq::empty()
    } else {
        purge_writes(keys, segments, n - 1) + purge_write(keys[n - 1], segments)
    }
}

/// After the writes that remove the entries of the segments among the first
/// `n` keys, the store has nothing under those of the keys that are of the
/// segments, and under every other key what it had.
pub proof fn lemma_purge_removes(
    store: StoreModel,
    keys: Seq<Seq<u8>>,
    segments: Seq<u32>,
    n: int,
    about: Seq<u8>,
)
    requires
        0 <= n <= keys.len(),
    ensures
        stored(apply_batch(store, purge_writes(keys, segments, n)), about) == (if keys.subrange(
            0,
            n,
        ).contains(about) && belongs_to(about, segments) {
            None
        } else {
            stored(store, about)
        }),
    decreases n,
{
    if n > 0 {
        let fewer = purge_writes(keys, segments, n - 1);
        let last = purge_write(keys[n - 1], segments);
        let midway = apply_batch(store, fewer);
        lemma_purge_removes(store, keys, segments, n - 1, about);
        crate::write_batch::lemma_apply_concat(store, fewer, last);
        let before = keys.subrange(0, n - 1);
        let now = keys.subrange(0, n);
        assert(now =~= before.push(keys[n - 1]));
        assert(now.contains(about) == (before.contains(about) || keys[n - 1] == about)) by {
            if before.contains(about) {
                let i = choose|i: int| 0 <= i < before.len() && before[i] == about;
                assert(now[i] == about);
            }
            if keys[n - 1] == about {
                assert(now[n - 1] == about);
            }
            if now.contains(about) {
                let i = choose|i: int| 0 <= i < now.len() && now[i] == about;
                if i < n - 1 {
                    assert(before[i] == about);
                }
            }
        }
        if belongs_to(keys[n - 1], segments) {
            let op = OpModel::Delete { key: keys[n - 1] };
            assert(Seq::<OpModel>::empty().push(op) =~= last);
            crate::write_batch::lemma_apply_push(midway, Seq::empty(), op);
            assert(apply_batch(midway, Seq::<OpModel>::empty()) == midway);
        } else {
            assert(apply_batch(midway, last) == midway);
        }
    } else {
        assert(keys.subrange(0, 0) =~= Seq::<Seq<u8>>::empty());
        assert(apply_batch(store, purge_writes(keys, segments, 0)) == store);
    }
}

/// The writes that remove what the store holds of segments that were merged:
/// their term directories, kept values, deletion lists and statistics. Fails
/// where one of the segments is live, naming the first such.
#[verifier::spinoff_prover]
pub fn purge_segments(entries: &Vec<(Vec<u8>, Vec<u8>)>, source_segments: &Vec<u32>) -> (result:
    Result<WriteBatch, SegmentMergeError>)
    ensures
        match result {
            Ok(batch) => {
                &&& forall|i: int|
                    0 <= i < source_segments@.len() ==> !is_active(
                        entries_map(entries@),
                        #[trigger] source_segments@[i],
                    )
                &&& batch@ == purge_writes(
                    entry_keys(entries@),
                    source_segments@,
                    entries@.len() as int,
                )
            },
            Err(error) => exists|i: int|
                0 <= i < source_segments@.len() && is_active(
                    entries_map(entries@),
                    #[trigger] source_segments@[i],
                ) && error == SegmentMergeError::SegmentActive(source_segments@[i]) && forall|k: int|
                    0 <= k < i ==> !is_active(entries_map(entries@), source_segments@[k]),
        },
{
    let mut s: usize = 0;
    while s < source_segments.len()
        invariant
            s <= source_segments.len(),
            forall|i: int|
                0 <= i < s ==> !is_active(entries_map(entries@), #[trigger] source_segments@[i]),
        decreases source_segments.len() - s,
    {
        let segment = MemorySegment::new(source_segments[s], entries);
        if segment.is_active() {
            assert(is_active(entries_map(entries@), source_segments@[s as int]));
            return Err(SegmentMergeError::SegmentActive(source_segments[s]));
        }
        s += 1;
    }
    let ghost keys = entry_keys(entries@);
    let mut batch = WriteBatch::new();
    let mut i: usize = 0;
    assert(batch@ =~= purge_writes(keys, source_segments@, 0));
    while i < entries.len()
        invariant
            i <= entries.len(),
            keys == entry_keys(entries@),
            batch@ == purge_writes(keys, source_segments@, i as int),
        decreases entries.len() - i,
    {
        let ghost before = batch@;
        let key = Key::from_bytes(entries[i].0.as_slice());
        let among = match &key {
            Some(Key::TermDirectory { field_id, term_id, segment_id }) => is_source(
                source_segments,
                segment_id.0,
            ),
            Some(Key::DocumentFieldValue { doc_id, field_id, kind }) => is_source(
                source_segments,
                doc_id.0.0,
            ),
            Some(Key::DeletedDocument { segment_id }) => is_source(source_segments, segment_id.0),
            Some(Key::Statistic { segment_id, statistic }) => is_source(
                source_segments,
                segment_id.0,
            ),
            _ => false,
        };
        if among {
            let key = key.unwrap();
            proof {
                KeyModel::lemma_encoding_of_decoding(keys[i as int]);
            }
            batch.delete(&key);
        }
        assert(batch@ =~= before + purge_write(keys[i as int], source_segments@));
        i += 1;
    }
    Ok(batch)
}

/// The deletion lists of the segments as the entries have them.
pub open spec fn deletions_in(store: StoreModel, segments: Seq<u32>) -> Seq<(u32, Set<u16>)> {
    Seq::new(segments.len(), |i: int| (segments[i], deleted_in(store, segments[i])))
}

/// Reads the deletion lists of the segments.
pub fn load_deletions(entries: &Vec<(Vec<u8>, Vec<u8>)>, source_segments: &Vec<u32>) -> (deletions:
    Vec<(u32, DocIdSet)>)
    ensures
        crate::document_index::deletion_views(deletions@) == deletions_in(
            entries_map(entries@),
            source_segments@,
        ),
{
    let mut deletions: Vec<(u32, DocIdSet)> = Vec::new();
    let mut i: usize = 0;
    while i < source_segments.len()
        invariant
            i <= source_segments.len(),
            deletions@.len() == i,
            forall|k: int|
                0 <= k < i ==> (#[trigger] deletions@[k]).0 == source_segments@[k]
                    && deletions@[k].1@ == deleted_in(entries_map(entries@), source_segments@[k]),
        decreases source_segments.len() - i,
    {
        let segment = MemorySegment::new(source_segments[i], entries);
        deletions.push((source_segments[i], segment.deleted()));
        i += 1;
    }
    assert(crate::document_index::deletion_views(deletions@) =~= deletions_in(
        entries_map(entries@),
        source_segments@,
    ));
    deletions
}

} // verus!
