//! The term dictionary: the id of every term that the index has seen.

use crate::assoc::{assoc_map, AssocVec, distinct_keys, has_key, lemma_assoc_entry};
use crate::decimal::{digits_of, to_decimal};
use crate::encoding::{be_u32, read_u32_be, u32_of_be, write_u32_be};
use crate::key::{Key, KeyModel, name_next_term_dictionary_id, TAG_TERM_DICTIONARY};
use crate::term::{copy_bytes, Term, TermId};
use crate::write_batch::{OpModel, WriteBatch};
use vstd::prelude::*;

verus! {

/// The writes that record a new term: its id under the term, and the id that the
/// next term gets.
pub open spec fn term_creation(term: Seq<u8>, id: u32) -> Seq<OpModel> {
    seq![
        OpModel::Put { key: (KeyModel::TermDictionary { term }).encoding(), value: be_u32(id) },
        OpModel::Put {
            key: (KeyModel::Metadata { name: name_next_term_dictionary_id() }).encoding(),
            value: digits_of((id + 1) as nat),
        },
    ]
}

/// How many of the terms have no id yet.
pub open spec fn fresh_count(known: Map<Seq<u8>, TermId>, terms: Seq<Seq<u8>>) -> nat
    decreases terms.len(),
{
    if terms.len() == 0 {
        0
    } else {
        fresh_count(known, terms.drop_last()) + (if known.contains_key(terms.last()) {
            0nat
        } else {
            1nat
        })
    }
}

/// The id of the term at place `i` once all the terms have ids: the id it had,
/// or, for a term that had none, the next id after those of the terms
/// before it that had none.
pub open spec fn resolved_id(
    known: Map<Seq<u8>, TermId>,
    next_id: u32,
    terms: Seq<Seq<u8>>,
    i: int,
) -> TermId {
    if known.contains_key(terms[i]) {
        known[terms[i]]
    } else {
        TermId((next_id + fresh_count(known, terms.subrange(0, i))) as u32)
    }
}

/// The writes that record the terms that had no id, in the order of the terms.
pub open spec fn term_writes(known: Map<Seq<u8>, TermId>, next_id: u32, terms: Seq<Seq<u8>>) -> Seq<
    OpModel,
>
    decreases terms.len(),
{
    if terms.len() == 0 {
        Seq::empty()
    } else {
        let before = term_writes(known, next_id, terms.drop_last());
        if known.contains_key(terms.last()) {
            before
        } else {
            before + term_creation(
                terms.last(),
                (next_id + fresh_count(known, terms.drop_last())) as u32,
            )
        }
    }
}

/// No more terms are without an id than there are terms.
pub proof fn lemma_fresh_count_bound(known: Map<Seq<u8>, TermId>, terms: Seq<Seq<u8>>)
    ensures
        fresh_count(known, terms) <= terms.len(),
    decreases terms.len(),
{
    if terms.len() > 0 {
        lemma_fresh_count_bound(known, terms.drop_last());
    }
}

/// Every one of the first `n` terms has its id in the dictionary.
pub open spec fn resolves(
    dictionary: Map<Seq<u8>, TermId>,
    terms: Seq<Seq<u8>>,
    ids: Seq<TermId>,
    n: int,
) -> bool {
    forall|j: int|
        0 <= j < n ==> dictionary.contains_key(#[trigger] terms[j]) && dictionary[terms[j]] == ids[j]
}

/// Every term that had an id has it still.
pub open spec fn extends(before: Map<Seq<u8>, TermId>, after: Map<Seq<u8>, TermId>) -> bool {
    forall|term: Seq<u8>|
        before.contains_key(term) ==> #[trigger] after.contains_key(term) && after[term]
            == before[term]
}

/// Every term of the dictionary had its id before or is one of the first `n` terms.
pub open spec fn grown_by(
    before: Map<Seq<u8>, TermId>,
    after: Map<Seq<u8>, TermId>,
    terms: Seq<Seq<u8>>,
    n: int,
) -> bool {
    forall|term: Seq<u8>| #[trigger]
        after.contains_key(term) ==> before.contains_key(term) || exists|j: int|
            0 <= j < n && terms[j] == term
}

/// Giving the term at place `i` its id keeps what holds of the terms before it.
proof fn lemma_resolve_step(
    known: Map<Seq<u8>, TermId>,
    first: u32,
    terms: Seq<Seq<u8>>,
    i: int,
    before: Map<Seq<u8>, TermId>,
    after: Map<Seq<u8>, TermId>,
    ids: Seq<TermId>,
    id: TermId,
    next_before: u32,
)
    requires
        terms.no_duplicates(),
        0 <= i < terms.len(),
        ids.len() == i,
        resolves(before, terms, ids, i),
        extends(known, before),
        grown_by(known, before, terms, i),
        next_before == first + fresh_count(known, terms.subrange(0, i)),
        before.contains_key(terms[i]) ==> after == before && id == before[terms[i]],
        !before.contains_key(terms[i]) ==> after == before.insert(terms[i], id) && id == TermId(
            next_before,
        ),
    ensures
        before.contains_key(terms[i]) == known.contains_key(terms[i]),
        id == resolved_id(known, first, terms, i),
        resolves(after, terms, ids.push(id), i + 1),
        extends(known, after),
        grown_by(known, after, terms, i + 1),
        fresh_count(known, terms.subrange(0, i + 1)) == fresh_count(known, terms.subrange(0, i))
            + (if known.contains_key(terms[i]) {
            0nat
        } else {
            1nat
        }),
        term_writes(known, first, terms.subrange(0, i + 1)) == term_writes(
            known,
            first,
            terms.subrange(0, i),
        ) + (if known.contains_key(terms[i]) {
            Seq::empty()
        } else {
            term_creation(terms[i], next_before)
        }),
{
    let term = terms[i];
    let head = terms.subrange(0, i);
    let next = terms.subrange(0, i + 1);
    assert(next.drop_last() =~= head);
    assert(next.last() == term);
    if before.contains_key(term) && !known.contains_key(term) {
        let j = choose|j: int| 0 <= j < i && terms[j] == term;
        assert(false);
    }
    if known.contains_key(term) {
        assert(before.contains_key(term));
        assert(term_writes(known, first, next) =~= term_writes(known, first, head) + Seq::<
            OpModel,
        >::empty());
    }
    let grown = ids.push(id);
    assert forall|j: int| 0 <= j < i + 1 implies after.contains_key(#[trigger] terms[j])
        && after[terms[j]] == grown[j] by {
        if j < i {
            assert(before.contains_key(terms[j]) && before[terms[j]] == ids[j]);
            assert(terms[j] != term);
        }
    }
    assert forall|t: Seq<u8>| known.contains_key(t) implies #[trigger] after.contains_key(t)
        && after[t] == known[t] by {
        assert(extends(known, before));
        assert(known.contains_key(t));
        assert(before.contains_key(t));
        assert(before[t] == known[t]);
    }
    assert forall|t: Seq<u8>| #[trigger] after.contains_key(t) implies known.contains_key(t)
        || exists|j: int| 0 <= j < i + 1 && terms[j] == t by {
        if t == term {
            assert(0 <= i < i + 1 && terms[i] == t);
        } else {
            assert(before.contains_key(t));
            if !known.contains_key(t) {
                let j = choose|j: int| 0 <= j < i && terms[j] == t;
                assert(0 <= j < i + 1 && terms[j] == t);
            }
        }
    }
}

/// The key is that of a term of the dictionary.
pub open spec fn is_term_entry(key: Seq<u8>) -> bool {
    key.len() > 0 && key[0] == TAG_TERM_DICTIONARY
}

/// The term and the id that a stored entry of the dictionary spells.
pub open spec fn term_entry(entry: (Seq<u8>, Seq<u8>)) -> (Seq<u8>, TermId) {
    (entry.0.subrange(1, entry.0.len() as int), TermId(u32_of_be(entry.1)))
}

/// The first `n` stored entries spell a dictionary whose next id is `next_id`:
/// every entry is one of a term, with an id of four bytes below the next, and
/// no term or id comes twice.
pub open spec fn spells_dictionary(entries: Seq<(Seq<u8>, Seq<u8>)>, next_id: u32, n: int) -> bool {
    &&& forall|i: int|
        0 <= i < n ==> is_term_entry((#[trigger] entries[i]).0) && entries[i].1.len() == 4
            && term_entry(entries[i]).1.0 < next_id
    &&& forall|i: int, j: int|
        0 <= i < j < n ==> term_entry(entries[i]).0 != term_entry(entries[j]).0 && term_entry(
            entries[i],
        ).1 != term_entry(entries[j]).1
}

/// The terms as byte strings.
pub open spec fn term_views(terms: Seq<Term>) -> Seq<Seq<u8>> {
    Seq::new(terms.len(), |i: int| terms[i]@)
}

/// Whether one of the terms has the id.
fn has_id(terms: &AssocVec<Vec<u8>, TermId>, id: u32) -> (found: bool)
    ensures
        found == exists|j: int| 0 <= j < terms.items().len() && terms.items()[j].1 == TermId(id),
{
    let mut j: usize = 0;
    while j < terms.len()
        invariant
            j <= terms.items().len(),
            forall|k: int| 0 <= k < j ==> terms.items()[k].1 != TermId(id),
        decreases terms.items().len() - j,
    {
        if terms.value_at(j).0 == id {
            return true;
        }
        j += 1;
    }
    false
}

/// The ids of the terms of the index.
pub struct TermDictionary {
    next_id: u32,
    dictionary: AssocVec<Vec<u8>, TermId>,
}

impl TermDictionary {
    /// The terms with their ids, in the order in which the terms came.
    pub closed spec fn entries(&self) -> Seq<(Seq<u8>, TermId)> {
        self.dictionary.items()
    }

    /// The id that the next new term gets.
    pub closed spec fn next_id(&self) -> u32 {
        self.next_id
    }

    /// No term has two ids, no id stands for two terms, and every id was handed
    /// out before the next one.
    pub open spec fn wf(&self) -> bool {
        &&& distinct_keys(self.entries())
        &&& forall|i: int| 0 <= i < self.entries().len() ==> (#[trigger] self.entries()[i]).1.0
            < self.next_id()
        &&& forall|i: int, j: int|
            0 <= i < self.entries().len() && 0 <= j < self.entries().len() && i != j
                ==> self.entries()[i].1 != self.entries()[j].1
    }

    /// The id of each term.
    pub open spec fn view(&self) -> Map<Seq<u8>, TermId> {
        assoc_map(self.entries())
    }

    /// A dictionary without terms, whose first term gets the id `next_id`.
    pub fn new(next_id: u32) -> (dictionary: TermDictionary)
        ensures
            dictionary.wf(),
            dictionary.entries() == Seq::<(Seq<u8>, TermId)>::empty(),
            dictionary.next_id() == next_id,
    {
        TermDictionary { next_id, dictionary: AssocVec::new() }
    }

    /// The number of terms that have an id.
    pub fn len(&self) -> (n: usize)
        ensures
            n == self.entries().len(),
    {
        self.dictionary.len()
    }

    /// The term at a position, with its id.
    pub fn entry(&self, i: usize) -> (entry: (&Vec<u8>, TermId))
        requires
            i < self.entries().len(),
        ensures
            entry.0@ == self.entries()[i as int].0,
            entry.1 == self.entries()[i as int].1,
    {
        (self.dictionary.key_at(i), *self.dictionary.value_at(i))
    }

    /// The id of the term, if the term has one.
    pub fn get(&self, term: &Term) -> (id: Option<TermId>)
        requires
            self.wf(),
        ensures
            id == (if self@.contains_key(term@) {
                Some(self@[term@])
            } else {
                None
            }),
    {
        let key = copy_bytes(term.as_bytes());
        match self.dictionary.position(&key) {
            Some(i) => {
                proof {
                    lemma_assoc_entry(self.entries(), i as int);
                }
                Some(*self.dictionary.value_at(i))
            },
            None => None,
        }
    }

    /// The id of the term. A term that has none gets the next one, and the
    /// writes that record this are appended to the batch. Fails, changing
    /// nothing, only where a new term would get an id beyond 32 bits.
    pub fn get_or_create(&mut self, term: &Term, write_batch: &mut WriteBatch) -> (id: Option<
        TermId,
    >)
        requires
            old(self).wf(),
        ensures
            final(self).wf(),
            old(self)@.contains_key(term@) ==> {
                &&& id == Some(old(self)@[term@])
                &&& final(self).entries() == old(self).entries()
                &&& final(self).next_id() == old(self).next_id()
                &&& final(write_batch)@ == old(write_batch)@
            },
            !old(self)@.contains_key(term@) && old(self).next_id() < u32::MAX ==> {
                &&& id == Some(TermId(old(self).next_id()))
                &&& final(self).entries() == old(self).entries().push((term@, id.unwrap()))
                &&& final(self)@ == old(self)@.insert(term@, id.unwrap())
                &&& final(self).next_id() == old(self).next_id() + 1
                &&& final(write_batch)@ == old(write_batch)@ + term_creation(
                    term@,
                    old(self).next_id(),
                )
            },
            !old(self)@.contains_key(term@) && old(self).next_id() == u32::MAX ==> {
                &&& id is None
                &&& final(self).entries() == old(self).entries()
                &&& final(self).next_id() == old(self).next_id()
                &&& final(write_batch)@ == old(write_batch)@
            },
    {
        let key = copy_bytes(term.as_bytes());
        match self.dictionary.position(&key) {
            Some(i) => {
                proof {
                    lemma_assoc_entry(self.entries(), i as int);
                }
                Some(*self.dictionary.value_at(i))
            },
            None => {
                if self.next_id == u32::MAX {
                    return None;
                }
                let id = self.next_id;
                self.dictionary.push(key, TermId(id));
                self.next_id = id + 1;
                let id_bytes = write_u32_be(id);
                write_batch.put(&Key::term_dictionary(term), id_bytes.as_slice());
                let next = to_decimal(id + 1);
                write_batch.put(&Key::next_term_dictionary_id(), next.as_slice());
                proof {
                    assert(write_batch@ =~= old(write_batch)@ + term_creation(term@, id));
                    let before = old(self).entries();
                    let after = self.entries();
                    assert forall|i: int| 0 <= i < after.len() implies (#[trigger] after[i]).1.0
                        < self.next_id() by {
                        if i < before.len() {
                            assert(after[i] == before[i]);
                        }
                    }
                    assert forall|i: int, j: int|
                        0 <= i < after.len() && 0 <= j < after.len() && i != j implies after[i].1
                        != after[j].1 by {
                        if i < before.len() {
                            assert(after[i] == before[i]);
                        }
                        if j < before.len() {
                            assert(after[j] == before[j]);
                        }
                    }
                }
                Some(TermId(id))
            },
        }
    }

    /// The ids of the terms, in their order. Terms that have none get the next
    /// ids, and the writes that record this are appended to the batch. Fails,
    /// changing nothing, where fewer ids are left than there are terms.
    #[verifier::spinoff_prover]
    pub fn resolve_all(&mut self, terms: &Vec<Term>, write_batch: &mut WriteBatch) -> (ids: Option<
        Vec<TermId>,
    >)
        requires
            old(self).wf(),
            term_views(terms@).no_duplicates(),
        ensures
            final(self).wf(),
            ids is Some <==> old(self).next_id() + terms@.len() <= u32::MAX,
            match ids {
                Some(ids) => {
                    &&& ids@.len() == terms@.len()
                    &&& forall|i: int|
                        0 <= i < terms@.len() ==> #[trigger] ids@[i] == resolved_id(
                            old(self)@,
                            old(self).next_id(),
                            term_views(terms@),
                            i,
                        )
                    &&& resolves(final(self)@, term_views(terms@), ids@, terms@.len() as int)
                    &&& extends(old(self)@, final(self)@)
                    &&& grown_by(
                        old(self)@,
                        final(self)@,
                        term_views(terms@),
                        terms@.len() as int,
                    )
                    &&& final(self).next_id() == old(self).next_id() + fresh_count(
                        old(self)@,
                        term_views(terms@),
                    )
                    &&& final(write_batch)@ == old(write_batch)@ + term_writes(
                        old(self)@,
                        old(self).next_id(),
                        term_views(terms@),
                    )
                },
                None => {
                    &&& final(self).entries() == old(self).entries()
                    &&& final(self).next_id() == old(self).next_id()
                    &&& final(write_batch)@ == old(write_batch)@
                },
            },
    {
        if terms.len() > (u32::MAX - self.next_id) as usize {
            return None;
        }
        let ghost views = term_views(terms@);
        let ghost known = old(self)@;
        let ghost first = old(self).next_id();
        let mut ids: Vec<TermId> = Vec::new();
        let mut i: usize = 0;
        proof {
            assert(views.subrange(0, 0) =~= Seq::<Seq<u8>>::empty());
            assert(write_batch@ =~= old(write_batch)@ + term_writes(
                known,
                first,
                views.subrange(0, 0),
            ));
        }
        while i < terms.len()
            invariant
                i <= terms.len(),
                views == term_views(terms@),
                views.no_duplicates(),
                first + terms@.len() <= u32::MAX,
                self.wf(),
                ids@.len() == i,
                self.next_id() == first + fresh_count(known, views.subrange(0, i as int)),
                forall|j: int| 0 <= j < i ==> #[trigger] ids@[j] == resolved_id(known, first, views, j),
                resolves(self@, views, ids@, i as int),
                extends(known, self@),
                grown_by(known, self@, views, i as int),
                write_batch@ == old(write_batch)@ + term_writes(
                    known,
                    first,
                    views.subrange(0, i as int),
                ),
            decreases terms.len() - i,
        {
            let ghost before = self@;
            let ghost next_before = self.next_id();
            let ghost batch_before = write_batch@;
            let ghost ids_before = ids@;
            proof {
                assert(views[i as int] == terms@[i as int]@);
                lemma_fresh_count_bound(known, views.subrange(0, i as int));
            }
            let id = self.get_or_create(&terms[i], write_batch);
            let id = id.unwrap();
            ids.push(id);
            proof {
                lemma_resolve_step(
                    known,
                    first,
                    views,
                    i as int,
                    before,
                    self@,
                    ids_before,
                    id,
                    next_before,
                );
                if known.contains_key(views[i as int]) {
                    assert(write_batch@ == batch_before);
                } else {
                    assert(write_batch@ == batch_before + term_creation(
                        views[i as int],
                        next_before,
                    ));
                }
                assert(write_batch@ =~= old(write_batch)@ + term_writes(
                    known,
                    first,
                    views.subrange(0, i as int + 1),
                ));
            }
            i += 1;
        }
        assert(views.subrange(0, i as int) =~= views);
        Some(ids)
    }

    /// Loads the dictionary from its stored entries, given the id that the
    /// next term gets. Fails exactly where the entries spell no dictionary.
    #[verifier::spinoff_prover]
    pub fn open(next_id: u32, entries: &Vec<(Vec<u8>, Vec<u8>)>) -> (dictionary: Option<
        TermDictionary,
    >)
        ensures
            dictionary is Some <==> spells_dictionary(
                crate::document_index::entry_views(entries@),
                next_id,
                entries@.len() as int,
            ),
            dictionary matches Some(dictionary) ==> {
                &&& dictionary.wf()
                &&& dictionary.next_id() == next_id
                &&& dictionary.entries() == Seq::new(
                    entries@.len(),
                    |i: int| term_entry(crate::document_index::entry_views(entries@)[i]),
                )
            },
    {
        let ghost views = crate::document_index::entry_views(entries@);
        let mut dictionary = TermDictionary::new(next_id);
        let mut i: usize = 0;
        while i < entries.len()
            invariant
                i <= entries.len(),
                views == crate::document_index::entry_views(entries@),
                dictionary.wf(),
                dictionary.next_id() == next_id,
                spells_dictionary(views, next_id, i as int),
                dictionary.entries() == Seq::new(i as nat, |k: int| term_entry(views[k])),
            decreases entries.len() - i,
        {
            let key = &entries[i].0;
            let value = &entries[i].1;
            assert(views[i as int] == (key@, value@));
            if key.len() == 0 || key[0] != TAG_TERM_DICTIONARY || value.len() != 4 {
                assert(!(is_term_entry(views[i as int].0) && views[i as int].1.len() == 4));
                return None;
            }
            let id = read_u32_be(value.as_slice());
            if id >= next_id {
                assert(!(term_entry(views[i as int]).1.0 < next_id));
                return None;
            }
            let term = copy_bytes(&key.as_slice()[1..key.len()]);
            if self::has_id(&dictionary.dictionary, id) {
                proof {
                    let j = choose|j: int|
                        0 <= j < dictionary.entries().len() && dictionary.entries()[j].1 == TermId(
                            id,
                        );
                    assert(term_entry(views[j]).1 == term_entry(views[i as int]).1);
                }
                return None;
            }
            match dictionary.dictionary.position(&term) {
                Some(j) => {
                    assert(term_entry(views[j as int]).0 == term_entry(views[i as int]).0);
                    return None;
                },
                None => {},
            }
            let ghost before = dictionary.entries();
            dictionary.dictionary.push(term, TermId(id));
            proof {
                let after = dictionary.entries();
                assert(after =~= Seq::new(i as nat + 1, |k: int| term_entry(views[k])));
                assert forall|a: int, b: int| 0 <= a < b < i + 1 implies term_entry(views[a]).0
                    != term_entry(views[b]).0 && term_entry(views[a]).1 != term_entry(
                    views[b],
                ).1 by {
                    if b == i {
                        assert(before[a] == term_entry(views[a]));
                        assert(!has_key(before, term_entry(views[i as int]).0));
                    }
                }
                assert forall|a: int, b: int|
                    0 <= a < after.len() && 0 <= b < after.len() && a != b implies after[a].1
                    != after[b].1 by {
                    if a < b {
                        assert(term_entry(views[a]).1 != term_entry(views[b]).1);
                    } else {
                        assert(term_entry(views[b]).1 != term_entry(views[a]).1);
                    }
                }
            }
            i += 1;
        }
        Some(dictionary)
    }
}

impl Clone for TermDictionary {
    /// Another dictionary of the same terms and ids.
    fn clone(&self) -> (copy: TermDictionary)
        ensures
            copy.entries() == self.entries(),
            copy.next_id() == self.next_id(),
    {
        TermDictionary { next_id: self.next_id, dictionary: self.dictionary.duplicate() }
    }
}

} // verus!
