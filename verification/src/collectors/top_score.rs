//! Keeping the best documents of a search.

use crate::doc_id_set::DocIdSet;
use crate::document::{DocId, SegmentId};
use vstd::multiset::Multiset;
use vstd::prelude::*;
use vstd::seq_lib::{to_multiset_build, to_multiset_insert};

verus! {

/// A document that a search found, with its score. A larger score is a better one.
#[derive(Clone, Copy, Debug, PartialEq, Eq, Structural)]
pub struct ScoredDocument {
    pub doc_id: DocId,
    pub score: u32,
}

/// The first document is of an earlier segment, or of the same segment and at
/// an earlier ordinal.
pub open spec fn doc_id_before(a: DocId, b: DocId) -> bool {
    a.0.0 < b.0.0 || (a.0.0 == b.0.0 && a.1 < b.1)
}

/// The first document ranks before the second: its score is better, or the
/// scores are the same and its id is the earlier one.
pub open spec fn ranks_before(a: ScoredDocument, b: ScoredDocument) -> bool {
    a.score > b.score || (a.score == b.score && doc_id_before(a.doc_id, b.doc_id))
}

/// No document stands behind one that it ranks before: the scores descend, and
/// among documents of one score the ids ascend.
pub open spec fn ranked(docs: Seq<ScoredDocument>) -> bool {
    forall|i: int, j: int| 0 <= i < j < docs.len() ==> !ranks_before(docs[j], docs[i])
}

/// The best documents of a search, up to a limit.
pub struct TopScoreCollector {
    limit: usize,
    docs: Vec<ScoredDocument>,
    dropped: Ghost<Seq<ScoredDocument>>,
}

impl TopScoreCollector {
    /// The most documents that the collector keeps.
    pub closed spec fn limit(&self) -> nat {
        self.limit as nat
    }

    /// The documents kept, best first.
    pub closed spec fn kept(&self) -> Seq<ScoredDocument> {
        self.docs@
    }

    /// The documents collected and not kept.
    pub closed spec fn dropped(&self) -> Seq<ScoredDocument> {
        self.dropped@
    }

    /// All the documents collected, each as often as it was collected.
    pub open spec fn collected(&self) -> Multiset<ScoredDocument> {
        self.kept().to_multiset().add(self.dropped().to_multiset())
    }

    /// The documents kept are ranked and within the limit; where documents
    /// were dropped the limit is reached, and no dropped document ranks before
    /// a kept one.
    pub open spec fn wf(&self) -> bool {
        &&& ranked(self.kept())
        &&& self.kept().len() <= self.limit()
        &&& self.dropped().len() > 0 ==> self.kept().len() == self.limit()
        &&& forall|i: int, j: int|
            0 <= i < self.dropped().len() && 0 <= j < self.kept().len() ==> !ranks_before(
                #[trigger] self.dropped()[i],
                #[trigger] self.kept()[j],
            )
    }

    /// A collector that keeps the `limit` best documents.
    pub fn new(limit: usize) -> (collector: TopScoreCollector)
        ensures
            collector.wf(),
            collector.limit() == limit,
            collector.kept() == Seq::<ScoredDocument>::empty(),
            collector.dropped() == Seq::<ScoredDocument>::empty(),
    {
        TopScoreCollector { limit, docs: Vec::new(), dropped: Ghost(Seq::empty()) }
    }

    /// The number of documents kept.
    pub fn len(&self) -> (n: usize)
        ensures
            n == self.kept().len(),
    {
        self.docs.len()
    }

    /// Whether the first document ranks before the second.
    fn before(a: &ScoredDocument, b: &ScoredDocument) -> (first: bool)
        ensures
            first == ranks_before(*a, *b),
    {
        a.score > b.score || (a.score == b.score && (a.doc_id.0.0 < b.doc_id.0.0 || (a.doc_id.0.0
            == b.doc_id.0.0 && a.doc_id.1 < b.doc_id.1)))
    }

    /// Takes a document that the search found. It is kept if fewer documents
    /// than the limit are kept or it ranks before the last one kept, which then
    /// is dropped.
    #[verifier::spinoff_prover]
    pub fn collect(&mut self, doc_id: DocId, score: u32)
        requires
            old(self).wf(),
        ensures
            final(self).wf(),
            final(self).limit() == old(self).limit(),
            final(self).collected() == old(self).collected().insert(
                ScoredDocument { doc_id, score },
            ),
    {
        let doc = ScoredDocument { doc_id, score };
        let ghost kept_before = self.docs@;
        let ghost dropped_before = self.dropped@;
        // The document goes before the first one that it ranks before.
        let mut at: usize = 0;
        while at < self.docs.len() && !TopScoreCollector::before(&doc, &self.docs[at])
            invariant
                at <= self.docs.len(),
                self.docs@ == kept_before,
                forall|j: int| 0 <= j < at ==> !ranks_before(doc, kept_before[j]),
            decreases self.docs.len() - at,
        {
            at += 1;
        }
        if at == self.limit {
            // Full, and the document ranks before none of those kept.
            proof {
                self.dropped = Ghost(dropped_before.push(doc));
                to_multiset_build(dropped_before, doc);
                assert(self.collected() =~= old(self).collected().insert(doc));
                assert forall|i: int, j: int|
                    0 <= i < self.dropped().len() && 0 <= j < self.kept().len()
                        implies !ranks_before(
                    #[trigger] self.dropped()[i],
                    #[trigger] self.kept()[j],
                ) by {
                    if i < dropped_before.len() {
                        assert(self.dropped()[i] == dropped_before[i]);
                    }
                }
            }
            return;
        }
        self.docs.insert(at, doc);
        proof {
            let grown = self.docs@;
            assert(grown == kept_before.insert(at as int, doc));
            to_multiset_insert(kept_before, at as int, doc);
            assert forall|i: int, j: int| 0 <= i < j < grown.len() implies !ranks_before(
                grown[j],
                grown[i],
            ) by {
                let i0 = if i < at { i } else { i - 1 };
                let j0 = if j < at { j } else { j - 1 };
                if i != at && j != at {
                    assert(grown[i] == kept_before[i0]);
                    assert(grown[j] == kept_before[j0]);
                } else if j == at {
                    assert(grown[i] == kept_before[i0]);
                } else {
                    assert(grown[j] == kept_before[j0]);
                    assert(ranks_before(doc, kept_before[at as int]));
                    if j0 > at {
                        assert(!ranks_before(kept_before[j0], kept_before[at as int]));
                    }
                }
            }
            assert forall|i: int, j: int|
                0 <= i < dropped_before.len() && 0 <= j < grown.len() implies !ranks_before(
                #[trigger] dropped_before[i],
                #[trigger] grown[j],
            ) by {
                let j0 = if j < at { j } else { j - 1 };
                if j != at {
                    assert(grown[j] == kept_before[j0]);
                } else {
                    // There were dropped documents, so the collector was full,
                    // and the document went before one that was kept.
                    assert(at < kept_before.len());
                    assert(ranks_before(doc, kept_before[at as int]));
                    assert(!ranks_before(dropped_before[i], kept_before[at as int]));
                }
            }
        }
        if self.docs.len() > self.limit {
            let ghost grown = self.docs@;
            let last = self.docs.pop();
            proof {
                broadcast use vstd::multiset::group_multiset_axioms;

                let last = last.unwrap();
                let kept = self.docs@;
                assert(grown =~= kept.push(last));
                to_multiset_build(kept, last);
                self.dropped = Ghost(dropped_before.push(last));
                to_multiset_build(dropped_before, last);
                assert(grown.to_multiset() =~= kept_before.to_multiset().insert(doc));
                assert(grown.to_multiset() =~= kept.to_multiset().insert(last));
                assert(self.dropped().to_multiset() =~= dropped_before.to_multiset().insert(last));
                let a = kept.to_multiset();
                let b = kept_before.to_multiset();
                let d = dropped_before.to_multiset();
                assert(a.insert(last) == b.insert(doc));
                assert forall|x: ScoredDocument|
                    a.add(d.insert(last)).count(x) == b.add(d).insert(doc).count(x) by {
                    assert(a.insert(last).count(x) == b.insert(doc).count(x));
                }
                assert(a.add(d.insert(last)) =~= b.add(d).insert(doc));
                assert(self.collected() == a.add(d.insert(last)));
                assert(old(self).collected() == b.add(d));
                assert forall|i: int, j: int|
                    0 <= i < self.dropped().len() && 0 <= j < self.kept().len()
                        implies !ranks_before(
                    #[trigger] self.dropped()[i],
                    #[trigger] self.kept()[j],
                ) by {
                    assert(kept[j] == grown[j]);
                    if i < dropped_before.len() {
                        assert(self.dropped()[i] == dropped_before[i]);
                    } else {
                        assert(self.dropped()[i] == grown[grown.len() - 1]);
                    }
                }
                assert forall|i: int, j: int| 0 <= i < j < kept.len() implies !ranks_before(
                    kept[j],
                    kept[i],
                ) by {
                    assert(kept[i] == grown[i]);
                    assert(kept[j] == grown[j]);
                }
            }
        } else {
            assert(self.collected() =~= old(self).collected().insert(doc));
        }
    }

    /// The documents kept, best first: by descending score, and by ascending
    /// id among documents of one score. They are the best of the documents
    /// collected: as many as the limit allows, and no document left out ranks
    /// before one of them.
    pub fn into_sorted_vec(self) -> (docs: Vec<ScoredDocument>)
        requires
            self.wf(),
        ensures
            docs@ == self.kept(),
            ranked(docs@),
            docs@.len() <= self.limit(),
            docs@.to_multiset().subset_of(self.collected()),
            self.collected() == docs@.to_multiset().add(self.dropped().to_multiset()),
            self.dropped().len() > 0 ==> docs@.len() == self.limit(),
            forall|i: int, j: int|
                0 <= i < self.dropped().len() && 0 <= j < docs@.len() ==> !ranks_before(
                    #[trigger] self.dropped()[i],
                    #[trigger] docs@[j],
                ),
            one_each(self.collected()) ==> in_strict_order(docs@),
    {
        proof {
            if one_each(self.collected()) {
                lemma_strict_order(self.docs@, self.collected());
            }
        }
        self.docs
    }

    /// Takes the documents that a search found in one segment: the documents
    /// at the ordinals of `hits`, in ascending order, each with the score at
    /// its place in `scores`. Takes nothing, and says so, where there is not
    /// one score for each ordinal.
    ///
    /// Where no document was collected twice before and none of this segment,
    /// none is collected twice after.
    pub fn collect_segment(&mut self, segment: u32, hits: &DocIdSet, scores: &Vec<u32>) -> (done:
        bool)
        requires
            old(self).wf(),
        ensures
            final(self).wf(),
            final(self).limit() == old(self).limit(),
            done == (scores@.len() == hits.listing().len()),
            hits.listed_by(hits.listing()),
            final(self).collected() == (if done {
                old(self).collected().add(scored(segment, hits.listing(), scores@).to_multiset())
            } else {
                old(self).collected()
            }),
            !done ==> final(self).kept() == old(self).kept(),
            one_each(old(self).collected()) && !holds_segment(old(self).collected(), segment)
                ==> one_each(final(self).collected()),
    {
        let ords = hits.to_vec();
        if scores.len() != ords.len() {
            return false;
        }
        let ghost found = scored(segment, ords@, scores@);
        let ghost before = self.collected();
        let mut i: usize = 0;
        proof {
            broadcast use vstd::multiset::group_multiset_axioms;

            let none = found.subrange(0, 0);
            none.to_multiset_ensures();
            assert forall|x: ScoredDocument| none.to_multiset().count(x) == 0 by {
                assert(!none.contains(x));
            }
            assert(none.to_multiset() =~= Multiset::<ScoredDocument>::empty());
            assert(self.collected() =~= before.add(found.subrange(0, 0).to_multiset()));
        }
        while i < ords.len()
            invariant
                i <= ords.len(),
                scores@.len() == ords@.len(),
                found == scored(segment, ords@, scores@),
                self.wf(),
                self.limit() == old(self).limit(),
                self.collected() == before.add(found.subrange(0, i as int).to_multiset()),
            decreases ords.len() - i,
        {
            let ghost taken = self.collected();
            self.collect(DocId(SegmentId(segment), ords[i]), scores[i]);
            proof {
                broadcast use vstd::multiset::group_multiset_axioms;

                let prefix = found.subrange(0, i as int);
                assert(found.subrange(0, i + 1) =~= prefix.push(found[i as int]));
                to_multiset_build(prefix, found[i as int]);
                assert(self.collected() =~= before.add(
                    found.subrange(0, i + 1).to_multiset(),
                ));
            }
            i += 1;
        }
        proof {
            assert(found.subrange(0, i as int) =~= found);
            if one_each(before) && !holds_segment(before, segment) {
                lemma_segment_adds_each_once(before, segment, ords@, scores@);
            }
        }
        true
    }
}

/// There is a list of scores for each segment searched, and in it a score for
/// each document found.
pub open spec fn fits(found: Seq<(u32, DocIdSet)>, scores: Seq<Vec<u32>>) -> bool {
    &&& scores.len() == found.len()
    &&& forall|i: int|
        0 <= i < found.len() ==> (#[trigger] scores[i])@.len() == found[i].1.listing().len()
}

/// The documents found in the first `n` segments searched, each with its score.
pub open spec fn all_scored(found: Seq<(u32, DocIdSet)>, scores: Seq<Vec<u32>>, n: int) -> Multiset<
    ScoredDocument,
>
    decreases n,
{
    if n <= 0 {
        Multiset::empty()
    } else {
        all_scored(found, scores, n - 1).add(
            scored(found[n - 1].0, found[n - 1].1.listing(), scores[n - 1]@).to_multiset(),
        )
    }
}

/// No two of the segments searched have one id.
pub open spec fn searched_once(found: Seq<(u32, DocIdSet)>) -> bool {
    forall|i: int, j: int| 0 <= i < found.len() && 0 <= j < found.len() && i != j ==> found[i].0
        != found[j].0
}

/// No document of one of the segments from place `from` on is among the
/// documents.
pub open spec fn holds_none(docs: Multiset<ScoredDocument>, found: Seq<(u32, DocIdSet)>, from: int) -> bool {
    forall|j: int| from <= j < found.len() ==> !holds_segment(docs, (#[trigger] found[j]).0)
}

/// Documents of one segment, added to documents of which none is of another
/// segment, leave none of that other segment among them.
pub proof fn lemma_other_segment_is_not_held(
    before: Multiset<ScoredDocument>,
    segment: u32,
    ords: Seq<u16>,
    scores: Seq<u32>,
    other: u32,
)
    requires
        !holds_segment(before, other),
        other != segment,
    ensures
        !holds_segment(before.add(scored(segment, ords, scores).to_multiset()), other),
{
    broadcast use vstd::multiset::group_multiset_axioms;

    let added = scored(segment, ords, scores);
    let after = before.add(added.to_multiset());
    added.to_multiset_ensures();
    assert forall|a: ScoredDocument| after.count(a) > 0 implies a.doc_id.0.0 != other by {
        if added.to_multiset().count(a) > 0 {
            assert(added.contains(a));
        } else {
            assert(before.count(a) > 0);
        }
    }
}

impl TopScoreCollector {
    /// Takes the documents that a search found in segments: for each segment
    /// the documents at the ordinals found, in ascending order, each with the
    /// score at its place in the list of scores of the segment. Takes nothing,
    /// and says so, where the scores do not fit what was found.
    ///
    /// Where the segments are searched once each, and no document was
    /// collected twice before and none of these segments, no document is
    /// collected twice after.
    pub fn collect_all(&mut self, found: &Vec<(u32, DocIdSet)>, scores: &Vec<Vec<u32>>) -> (done:
        bool)
        requires
            old(self).wf(),
        ensures
            final(self).wf(),
            final(self).limit() == old(self).limit(),
            done == fits(found@, scores@),
            final(self).collected() == (if done {
                old(self).collected().add(all_scored(found@, scores@, found@.len() as int))
            } else {
                old(self).collected()
            }),
            !done ==> final(self).kept() == old(self).kept(),
            one_each(old(self).collected()) && searched_once(found@) && holds_none(
                old(self).collected(),
                found@,
                0,
            ) ==> one_each(final(self).collected()),
    {
        if scores.len() != found.len() {
            return false;
        }
        let mut k: usize = 0;
        while k < found.len()
            invariant
                k <= found.len(),
                scores@.len() == found@.len(),
                forall|i: int|
                    0 <= i < k ==> (#[trigger] scores@[i])@.len() == found@[i].1.listing().len(),
                self.wf(),
                self.limit() == old(self).limit(),
                self.kept() == old(self).kept(),
                self.collected() == old(self).collected(),
            decreases found.len() - k,
        {
            if scores[k].len() != found[k].1.len() {
                assert(scores@[k as int]@.len() != found@[k as int].1.listing().len());
                return false;
            }
            k += 1;
        }
        let ghost before = self.collected();
        let ghost once = one_each(before) && searched_once(found@) && holds_none(before, found@, 0);
        let mut i: usize = 0;
        proof {
            broadcast use vstd::multiset::group_multiset_axioms;

            assert(self.collected() =~= before.add(all_scored(found@, scores@, 0)));
        }
        while i < found.len()
            invariant
                i <= found.len(),
                fits(found@, scores@),
                self.wf(),
                self.limit() == old(self).limit(),
                self.collected() == before.add(all_scored(found@, scores@, i as int)),
                once ==> one_each(self.collected()) && holds_none(
                    self.collected(),
                    found@,
                    i as int,
                ),
                once ==> searched_once(found@),
            decreases found.len() - i,
        {
            let ghost taken = self.collected();
            let done = self.collect_segment(found[i].0, &found[i].1, &scores[i]);
            proof {
                broadcast use vstd::multiset::group_multiset_axioms;

                assert(scores@[i as int]@.len() == found@[i as int].1.listing().len());
                assert(done);
                let added = scored(
                    found@[i as int].0,
                    found@[i as int].1.listing(),
                    scores@[i as int]@,
                ).to_multiset();
                assert(self.collected() =~= before.add(
                    all_scored(found@, scores@, i as int + 1),
                ));
                if once {
                    assert(!holds_segment(taken, found@[i as int].0));
                    assert forall|j: int| i + 1 <= j < found@.len() implies !holds_segment(
                        self.collected(),
                        (#[trigger] found@[j]).0,
                    ) by {
                        assert(!holds_segment(taken, found@[j].0));
                        lemma_other_segment_is_not_held(
                            taken,
                            found@[i as int].0,
                            found@[i as int].1.listing(),
                            scores@[i as int]@,
                            found@[j].0,
                        );
                    }
                }
            }
            i += 1;
        }
        true
    }
}

/// The documents of a segment at the given ordinals, each with the score at its
/// place.
pub open spec fn scored(segment: u32, ords: Seq<u16>, scores: Seq<u32>) -> Seq<ScoredDocument> {
    Seq::new(
        ords.len(),
        |i: int| ScoredDocument { doc_id: DocId(SegmentId(segment), ords[i]), score: scores[i] },
    )
}

/// No document is among the documents twice, with one score or with two.
pub open spec fn one_each(docs: Multiset<ScoredDocument>) -> bool {
    &&& forall|a: ScoredDocument| docs.count(a) <= 1
    &&& forall|a: ScoredDocument, b: ScoredDocument|
        docs.count(a) > 0 && docs.count(b) > 0 && a.doc_id == b.doc_id ==> a == b
}

/// A document of the segment is among the documents.
pub open spec fn holds_segment(docs: Multiset<ScoredDocument>, segment: u32) -> bool {
    exists|a: ScoredDocument| docs.count(a) > 0 && a.doc_id.0.0 == segment
}

/// Each document ranks before the next: the scores descend, and among
/// documents of one score the ids ascend strictly.
pub open spec fn in_strict_order(docs: Seq<ScoredDocument>) -> bool {
    forall|i: int, j: int| 0 <= i < j < docs.len() ==> ranks_before(docs[i], docs[j])
}

/// Ranked documents, each there once, stand in strict order.
pub proof fn lemma_strict_order(docs: Seq<ScoredDocument>, collected: Multiset<ScoredDocument>)
    requires
        ranked(docs),
        docs.to_multiset().subset_of(collected),
        one_each(collected),
    ensures
        in_strict_order(docs),
{
    broadcast use vstd::multiset::group_multiset_axioms;

    assert forall|x: ScoredDocument| docs.to_multiset().contains(x) implies docs.to_multiset().count(
        x,
    ) == 1 by {
        assert(docs.to_multiset().count(x) <= collected.count(x));
    }
    docs.lemma_multiset_has_no_duplicates_conv();
    assert forall|i: int, j: int| 0 <= i < j < docs.len() implies ranks_before(
        docs[i],
        docs[j],
    ) by {
        docs.to_multiset_ensures();
        assert(docs.contains(docs[i]));
        assert(docs.contains(docs[j]));
        assert(docs.to_multiset().count(docs[i]) <= collected.count(docs[i]));
        assert(docs.to_multiset().count(docs[j]) <= collected.count(docs[j]));
        assert(docs[i] != docs[j]);
        assert(docs[i].doc_id != docs[j].doc_id);
        assert(!ranks_before(docs[j], docs[i]));
    }
}

/// The documents of a segment at ascending ordinals, added to documents that
/// are each there once and none of the segment, are each there once.
pub proof fn lemma_segment_adds_each_once(
    before: Multiset<ScoredDocument>,
    segment: u32,
    ords: Seq<u16>,
    scores: Seq<u32>,
)
    requires
        one_each(before),
        !holds_segment(before, segment),
        crate::doc_id_set::increasing(ords),
        scores.len() == ords.len(),
    ensures
        one_each(before.add(scored(segment, ords, scores).to_multiset())),
{
    broadcast use vstd::multiset::group_multiset_axioms;

    let found = scored(segment, ords, scores);
    let after = before.add(found.to_multiset());
    assert(found.no_duplicates());
    found.lemma_multiset_has_no_duplicates();
    found.to_multiset_ensures();
    assert forall|a: ScoredDocument| after.count(a) <= 1 by {
        if found.to_multiset().count(a) > 0 {
            assert(found.contains(a));
            assert(a.doc_id.0.0 == segment);
            assert(before.count(a) == 0);
        }
    }
    assert forall|a: ScoredDocument, b: ScoredDocument|
        after.count(a) > 0 && after.count(b) > 0 && a.doc_id == b.doc_id implies a == b by {
        if found.to_multiset().count(a) > 0 {
            assert(found.contains(a));
            assert(a.doc_id.0.0 == segment);
            assert(before.count(b) == 0);
            assert(found.contains(b));
            let i = choose|i: int| 0 <= i < found.len() && found[i] == a;
            let j = choose|j: int| 0 <= j < found.len() && found[j] == b;
            assert(ords[i] == ords[j]);
            assert(i == j);
        } else if found.to_multiset().count(b) > 0 {
            assert(found.contains(b));
            assert(b.doc_id.0.0 == segment);
            assert(before.count(a) == 0);
        }
    }
}

} // verus!
