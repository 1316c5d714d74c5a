//! Where the documents of merged segments go.

use crate::document::DocId;
use vstd::prelude::*;

verus! {

/// The position of a document among the documents listed.
pub open spec fn position_of(sources: Seq<DocId>, doc_id: DocId) -> int {
    choose|i: int| 0 <= i < sources.len() && sources[i] == doc_id
}

/// The map from each listed document to its position in the list.
pub open spec fn mapping_of(sources: Seq<DocId>) -> Map<DocId, u16> {
    Map::new(
        |doc_id: DocId| sources.contains(doc_id),
        |doc_id: DocId| position_of(sources, doc_id) as u16,
    )
}

/// The new ordinal of each document that a merge keeps: the documents in the
/// order of their new ordinals, counted from zero.
pub struct DocIdMapping {
    sources: Vec<DocId>,
}

impl DocIdMapping {
    /// The documents kept, in the order of their new ordinals.
    pub closed spec fn sources(&self) -> Seq<DocId> {
        self.sources@
    }

    /// No document is kept twice, and the new ordinals fit a segment.
    pub open spec fn wf(&self) -> bool {
        self.sources().no_duplicates() && self.sources().len() <= 0x1_0000
    }

    /// The new ordinal of each document kept.
    pub open spec fn view(&self) -> Map<DocId, u16> {
        mapping_of(self.sources())
    }

    /// A mapping of no documents.
    pub fn new() -> (mapping: DocIdMapping)
        ensures
            mapping.sources() == Seq::<DocId>::empty(),
            mapping.wf(),
    {
        DocIdMapping { sources: Vec::new() }
    }

    /// The number of documents that the mapping moves.
    pub fn len(&self) -> (n: usize)
        ensures
            n == self.sources().len(),
    {
        self.sources.len()
    }

    /// The document that gets the new ordinal `ord`.
    pub fn source(&self, ord: u16) -> (doc_id: DocId)
        requires
            ord < self.sources().len(),
        ensures
            doc_id == self.sources()[ord as int],
    {
        self.sources[ord as usize]
    }

    /// Gives the document the next new ordinal.
    pub fn push(&mut self, doc_id: DocId) -> (ord: u16)
        requires
            old(self).wf(),
            !old(self).sources().contains(doc_id),
            old(self).sources().len() < 0x1_0000,
        ensures
            final(self).wf(),
            final(self).sources() == old(self).sources().push(doc_id),
            ord == old(self).sources().len(),
            final(self)@ == old(self)@.insert(doc_id, ord),
    {
        let ord = self.sources.len() as u16;
        self.sources.push(doc_id);
        proof {
            let before = old(self).sources();
            let after = self.sources();
            assert forall|i: int, j: int|
                0 <= i < after.len() && 0 <= j < after.len() && i != j implies after[i]
                != after[j] by {
                if i < before.len() {
                    assert(before[i] == after[i]);
                }
                if j < before.len() {
                    assert(before[j] == after[j]);
                }
            }
            assert forall|d: DocId| #[trigger]
                after.contains(d) <==> (d == doc_id || before.contains(d)) by {
                if after.contains(d) {
                    let i = choose|i: int| 0 <= i < after.len() && after[i] == d;
                    if i < before.len() {
                        assert(before[i] == d);
                    }
                }
                if before.contains(d) {
                    let i = choose|i: int| 0 <= i < before.len() && before[i] == d;
                    assert(after[i] == d);
                }
                if d == doc_id {
                    assert(after[before.len() as int] == d);
                }
            }
            assert forall|d: DocId| after.contains(d) implies #[trigger] mapping_of(after)[d]
                == mapping_of(before).insert(doc_id, ord)[d] by {
                let i = position_of(after, d);
                if d == doc_id {
                    assert(after[before.len() as int] == d);
                } else {
                    let j = position_of(before, d);
                    assert(after[j] == d);
                }
            }
            assert(mapping_of(after) =~= mapping_of(before).insert(doc_id, ord));
        }
        ord
    }

    /// The new ordinal of the document, if the merge keeps it.
    pub fn get(&self, doc_id: DocId) -> (ord: Option<u16>)
        requires
            self.wf(),
        ensures
            ord == (if self@.contains_key(doc_id) {
                Some(self@[doc_id])
            } else {
                None
            }),
    {
        let mut i: usize = 0;
        while i < self.sources.len()
            invariant
                i <= self.sources.len(),
                self.wf(),
                forall|j: int| 0 <= j < i ==> self.sources()[j] != doc_id,
            decreases self.sources.len() - i,
        {
            if self.sources[i] == doc_id {
                proof {
                    assert(self.sources()[i as int] == doc_id);
                    assert(self.sources().contains(doc_id));
                    assert(position_of(self.sources(), doc_id) == i);
                }
                return Some(i as u16);
            }
            i += 1;
        }
        proof {
            if self.sources().contains(doc_id) {
                let j = choose|j: int| 0 <= j < self.sources().len() && self.sources()[j] == doc_id;
                assert(false);
            }
        }
        None
    }
}

} // verus!
