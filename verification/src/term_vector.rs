//! Term vectors: the terms of a text with the positions at which each occurs.

use crate::assoc::{
    assoc_map, distinct_keys, has_key, key_index, lemma_assoc_entry, lemma_assoc_push,
    lemma_assoc_update,
};
use crate::term::Term;
use crate::token::Token;
use vstd::prelude::*;
use vstd::seq_lib::{to_multiset_build, to_multiset_insert};

verus! {

/// The most tokens that a term vector holds: as many as there are positions.
pub const MAX_TOKENS: usize = 0xffff_ffff;

/// The number of tokens behind the entries: the positions of all terms together.
pub open spec fn token_count(entries: Seq<(Seq<u8>, Seq<u32>)>) -> nat
    decreases entries.len(),
{
    if entries.len() == 0 {
        0
    } else {
        token_count(entries.drop_last()) + entries.last().1.len()
    }
}

/// The entries with one more token: the position joins those of its term, and a
/// term not seen before comes last.
pub open spec fn added(entries: Seq<(Seq<u8>, Seq<u32>)>, term: Seq<u8>, position: u32) -> Seq<
    (Seq<u8>, Seq<u32>),
> {
    if has_key(entries, term) {
        let i = key_index(entries, term);
        entries.update(i, (term, entries[i].1.push(position)))
    } else {
        entries.push((term, seq![position]))
    }
}

/// The tokens grouped by term: the terms in the order in which they first occur,
/// each with its positions in the order of the tokens.
pub open spec fn grouped(tokens: Seq<(Seq<u8>, u32)>) -> Seq<(Seq<u8>, Seq<u32>)>
    decreases tokens.len(),
{
    if tokens.len() == 0 {
        Seq::empty()
    } else {
        added(grouped(tokens.drop_last()), tokens.last().0, tokens.last().1)
    }
}

/// The tokens of one term: the term at each of its positions.
pub open spec fn tokens_of(term: Seq<u8>, positions: Seq<u32>) -> Seq<(Seq<u8>, u32)> {
    Seq::new(positions.len(), |k: int| (term, positions[k]))
}

/// The tokens behind the entries, term after term.
pub open spec fn flattened(entries: Seq<(Seq<u8>, Seq<u32>)>) -> Seq<(Seq<u8>, u32)>
    decreases entries.len(),
{
    if entries.len() == 0 {
        Seq::empty()
    } else {
        flattened(entries.drop_last()) + tokens_of(entries.last().0, entries.last().1)
    }
}

/// The tokens as terms and positions.
pub open spec fn token_views(tokens: Seq<Token>) -> Seq<(Seq<u8>, u32)> {
    Seq::new(tokens.len(), |i: int| (tokens[i].term@, tokens[i].position))
}

/// No token stands before one of a smaller position.
pub open spec fn ordered_by_position(tokens: Seq<(Seq<u8>, u32)>) -> bool {
    forall|i: int, j: int| 0 <= i < j < tokens.len() ==> tokens[i].1 <= tokens[j].1
}

/// Replacing the positions of one entry changes the number of tokens by the
/// difference in length.
pub proof fn lemma_token_count_update(
    entries: Seq<(Seq<u8>, Seq<u32>)>,
    i: int,
    entry: (Seq<u8>, Seq<u32>),
)
    requires
        0 <= i < entries.len(),
    ensures
        token_count(entries.update(i, entry)) == token_count(entries) - entries[i].1.len()
            + entry.1.len(),
    decreases entries.len(),
{
    let after = entries.update(i, entry);
    if i == entries.len() - 1 {
        assert(after.drop_last() =~= entries.drop_last());
    } else {
        assert(after.drop_last() =~= entries.drop_last().update(i, entry));
        lemma_token_count_update(entries.drop_last(), i, entry);
    }
}

/// One more token is one more token.
pub proof fn lemma_token_count_added(
    entries: Seq<(Seq<u8>, Seq<u32>)>,
    term: Seq<u8>,
    position: u32,
)
    requires
        distinct_keys(entries),
    ensures
        token_count(added(entries, term, position)) == token_count(entries) + 1,
        distinct_keys(added(entries, term, position)),
{
    if has_key(entries, term) {
        let i = key_index(entries, term);
        lemma_token_count_update(entries, i, (term, entries[i].1.push(position)));
        lemma_assoc_update(entries, i, entries[i].1.push(position));
    } else {
        let after = entries.push((term, seq![position]));
        assert(after.drop_last() =~= entries);
        lemma_assoc_push(entries, term, seq![position]);
    }
}

/// The terms of a text, each with the positions at which it occurs.
#[derive(Debug)]
pub struct TermVector {
    terms: Vec<(Term, Vec<u32>)>,
}

impl TermVector {
    /// The terms with their positions, in the order in which the terms came.
    pub closed spec fn entries(&self) -> Seq<(Seq<u8>, Seq<u32>)> {
        Seq::new(self.terms@.len(), |i: int| (self.terms@[i].0@, self.terms@[i].1@))
    }

    /// No term has two entries, and there are no more tokens than positions.
    pub open spec fn wf(&self) -> bool {
        distinct_keys(self.entries()) && token_count(self.entries()) <= MAX_TOKENS
    }

    /// The positions of each term.
    pub open spec fn view(&self) -> Map<Seq<u8>, Seq<u32>> {
        assoc_map(self.entries())
    }

    /// A vector of no terms.
    pub fn new() -> (vector: TermVector)
        ensures
            vector.wf(),
            vector.entries() == Seq::<(Seq<u8>, Seq<u32>)>::empty(),
    {
        let vector = TermVector { terms: Vec::new() };
        assert(vector.entries() =~= Seq::<(Seq<u8>, Seq<u32>)>::empty());
        vector
    }

    /// The number of terms.
    pub fn len(&self) -> (n: usize)
        ensures
            n == self.entries().len(),
    {
        self.terms.len()
    }

    /// The term of entry `i`.
    pub fn term_at(&self, i: usize) -> (term: &Term)
        requires
            i < self.entries().len(),
        ensures
            term@ == self.entries()[i as int].0,
    {
        &self.terms[i].0
    }

    /// The positions of the term of entry `i`.
    pub fn positions_at(&self, i: usize) -> (positions: &Vec<u32>)
        requires
            i < self.entries().len(),
        ensures
            positions@ == self.entries()[i as int].1,
    {
        &self.terms[i].1
    }

    /// The number of tokens.
    pub fn token_count(&self) -> (count: usize)
        requires
            self.wf(),
        ensures
            count == token_count(self.entries()),
    {
        let mut count: usize = 0;
        let mut i: usize = 0;
        assert(self.entries().subrange(0, 0) =~= Seq::<(Seq<u8>, Seq<u32>)>::empty());
        while i < self.terms.len()
            invariant
                i <= self.terms.len(),
                self.wf(),
                count == token_count(self.entries().subrange(0, i as int)),
            decreases self.terms.len() - i,
        {
            proof {
                let next = self.entries().subrange(0, i as int + 1);
                assert(next.drop_last() =~= self.entries().subrange(0, i as int));
                assert(next.last() == self.entries()[i as int]);
                lemma_token_count_prefix(self.entries(), i as int + 1);
            }
            count = count + self.terms[i].1.len();
            i += 1;
        }
        assert(self.entries().subrange(0, i as int) =~= self.entries());
        count
    }

    /// Whether the vector is well-formed: no term has two entries, and there
    /// are no more tokens than positions.
    pub fn is_valid(&self) -> (valid: bool)
        ensures
            valid == self.wf(),
    {
        let mut count: usize = 0;
        let mut i: usize = 0;
        assert(self.entries().subrange(0, 0) =~= Seq::<(Seq<u8>, Seq<u32>)>::empty());
        while i < self.terms.len()
            invariant
                i <= self.terms.len(),
                count == token_count(self.entries().subrange(0, i as int)),
                count <= MAX_TOKENS,
                distinct_keys(self.entries().subrange(0, i as int)),
            decreases self.terms.len() - i,
        {
            let ghost head = self.entries().subrange(0, i as int);
            let ghost next = self.entries().subrange(0, i as int + 1);
            proof {
                assert(next.drop_last() =~= head);
                assert(next.last() == self.entries()[i as int]);
                lemma_token_count_prefix(self.entries(), i as int + 1);
            }
            if self.terms[i].1.len() > MAX_TOKENS - count {
                return false;
            }
            count = count + self.terms[i].1.len();
            let mut j: usize = 0;
            while j < i
                invariant
                    j <= i < self.terms.len(),
                    forall|k: int| 0 <= k < j ==> self.entries()[k].0 != self.entries()[i as int].0,
                decreases i - j,
            {
                if crate::assoc::bytes_eq(self.terms[j].0.as_bytes(), self.terms[i].0.as_bytes()) {
                    assert(self.entries()[j as int].0 == self.entries()[i as int].0);
                    return false;
                }
                j += 1;
            }
            proof {
                assert forall|a: int, b: int|
                    0 <= a < next.len() && 0 <= b < next.len() && a != b implies next[a].0
                    != next[b].0 by {
                    if a < i && b < i {
                        assert(head[a].0 != head[b].0);
                    }
                }
            }
            i += 1;
        }
        assert(self.entries().subrange(0, i as int) =~= self.entries());
        true
    }

    /// Adds a token: the position joins those of the term.
    #[verifier::spinoff_prover]
    pub fn add(&mut self, term: Term, position: u32)
        requires
            old(self).wf(),
            token_count(old(self).entries()) < MAX_TOKENS,
        ensures
            final(self).wf(),
            final(self).entries() == added(old(self).entries(), term@, position),
            token_count(final(self).entries()) == token_count(old(self).entries()) + 1,
    {
        proof {
            lemma_token_count_added(self.entries(), term@, position);
        }
        let mut found: Option<usize> = None;
        let mut i: usize = 0;
        while i < self.terms.len() && found.is_none()
            invariant
                i <= self.terms.len(),
                found is None ==> forall|j: int| 0 <= j < i ==> self.entries()[j].0 != term@,
                found matches Some(at) ==> at < self.terms.len() && self.entries()[at as int].0
                    == term@,
            decreases self.terms.len() - i + (if found is None { 1int } else { 0int }),
        {
            if crate::assoc::bytes_eq(self.terms[i].0.as_bytes(), term.as_bytes()) {
                found = Some(i);
            } else {
                i += 1;
            }
        }
        match found {
            Some(at) => {
                proof {
                    lemma_assoc_entry(self.entries(), at as int);
                }
                self.terms[at].1.push(position);
                proof {
                    let before = old(self).entries();
                    assert(key_index(before, term@) == at);
                    assert(self.terms@.len() == old(self).terms@.len());
                    assert(self.terms@[at as int].0 == old(self).terms@[at as int].0);
                    assert(self.terms@[at as int].1@ == old(self).terms@[at as int].1@.push(
                        position,
                    ));
                    assert forall|j: int| 0 <= j < self.terms@.len() && j != at implies self.terms@[j]
                        == old(self).terms@[j] by {}
                    assert(self.entries() =~= before.update(
                        at as int,
                        (term@, before[at as int].1.push(position)),
                    ));
                }
            },
            None => {
                assert(!has_key(self.entries(), term@));
                let mut positions: Vec<u32> = Vec::new();
                positions.push(position);
                assert(positions@ =~= seq![position]);
                self.terms.push((term, positions));
                assert(self.entries() =~= old(self).entries().push((term@, seq![position])));
            },
        }
    }

    /// Groups tokens by term. Of more tokens than there are positions, those
    /// beyond are left out.
    pub fn from_tokens(tokens: Vec<Token>) -> (vector: TermVector)
        ensures
            vector.wf(),
            vector.entries() == grouped(
                token_views(tokens@).take(
                    if tokens@.len() <= MAX_TOKENS {
                        tokens@.len() as int
                    } else {
                        MAX_TOKENS as int
                    },
                ),
            ),
    {
        let mut vector = TermVector::new();
        let limit: usize = if tokens.len() <= MAX_TOKENS {
            tokens.len()
        } else {
            MAX_TOKENS
        };
        let ghost views = token_views(tokens@);
        let mut i: usize = 0;
        assert(views.take(0) =~= Seq::<(Seq<u8>, u32)>::empty());
        while i < limit
            invariant
                i <= limit <= tokens.len(),
                limit <= MAX_TOKENS,
                views == token_views(tokens@),
                vector.wf(),
                token_count(vector.entries()) == i,
                vector.entries() == grouped(views.take(i as int)),
            decreases limit - i,
        {
            proof {
                let next = views.take(i as int + 1);
                assert(next.drop_last() =~= views.take(i as int));
                assert(next.last() == views[i as int]);
            }
            vector.add(tokens[i].term.clone(), tokens[i].position);
            i += 1;
        }
        vector
    }

    /// The tokens of the vector in the order of their positions. Tokens at one
    /// position keep the order of their terms in the vector.
    #[verifier::spinoff_prover]
    pub fn into_tokens(self) -> (tokens: Vec<Token>)
        ensures
            ordered_by_position(token_views(tokens@)),
            token_views(tokens@).to_multiset() == flattened(self.entries()).to_multiset(),
    {
        let mut tokens: Vec<Token> = Vec::new();
        let mut i: usize = 0;
        assert(self.entries().subrange(0, 0) =~= Seq::<(Seq<u8>, Seq<u32>)>::empty());
        assert(token_views(tokens@) =~= flattened(self.entries().subrange(0, 0)));
        while i < self.terms.len()
            invariant
                i <= self.terms.len(),
                ordered_by_position(token_views(tokens@)),
                token_views(tokens@).to_multiset() == flattened(
                    self.entries().subrange(0, i as int),
                ).to_multiset(),
            decreases self.terms.len() - i,
        {
            let ghost done = flattened(self.entries().subrange(0, i as int));
            let ghost term = self.entries()[i as int].0;
            let ghost positions = self.entries()[i as int].1;
            let mut k: usize = 0;
            assert(done + tokens_of(term, positions.take(0)) =~= done);
            while k < self.terms[i].1.len()
                invariant
                    i < self.terms.len(),
                    k <= self.terms[i as int].1.len(),
                    term == self.entries()[i as int].0,
                    positions == self.entries()[i as int].1,
                    ordered_by_position(token_views(tokens@)),
                    token_views(tokens@).to_multiset() == (done + tokens_of(
                        term,
                        positions.take(k as int),
                    )).to_multiset(),
                decreases self.terms[i as int].1.len() - k,
            {
                let position = self.terms[i].1[k];
                let token = Token { term: self.terms[i].0.clone(), position };
                // The token goes behind every token that is not behind it.
                let mut at: usize = 0;
                while at < tokens.len() && tokens[at].position <= position
                    invariant
                        at <= tokens.len(),
                        forall|j: int| 0 <= j < at ==> token_views(tokens@)[j].1 <= position,
                    decreases tokens.len() - at,
                {
                    at += 1;
                }
                let ghost before = token_views(tokens@);
                tokens.insert(at, token);
                proof {
                    let after = token_views(tokens@);
                    let added_token = (term, position);
                    assert(after =~= before.insert(at as int, added_token));
                    to_multiset_insert(before, at as int, added_token);
                    let partial = tokens_of(term, positions.take(k as int));
                    let more = tokens_of(term, positions.take(k as int + 1));
                    assert(more =~= partial.push(added_token));
                    assert(done + more =~= (done + partial).push(added_token));
                    to_multiset_build(done + partial, added_token);
                    assert forall|a: int, b: int| 0 <= a < b < after.len() implies after[a].1
                        <= after[b].1 by {
                        let a0 = if a < at { a } else { a - 1 };
                        let b0 = if b < at { b } else { b - 1 };
                        if a != at && b != at {
                            assert(after[a] == before[a0]);
                            assert(after[b] == before[b0]);
                        } else if a == at {
                            assert(after[b] == before[b0]);
                            assert(before[at as int].1 > position);
                        } else {
                            assert(after[a] == before[a0]);
                        }
                    }
                }
                k += 1;
            }
            proof {
                assert(positions.take(k as int) =~= positions);
                let next = self.entries().subrange(0, i as int + 1);
                assert(next.drop_last() =~= self.entries().subrange(0, i as int));
                assert(next.last() == self.entries()[i as int]);
            }
            i += 1;
        }
        assert(self.entries().subrange(0, i as int) =~= self.entries());
        tokens
    }
}

impl From<Vec<Token>> for TermVector {
    /// Groups tokens by term, as `from_tokens` does.
    fn from(tokens: Vec<Token>) -> (vector: TermVector)
        ensures
            vector.wf(),
            vector.entries() == grouped(
                token_views(tokens@).take(
                    if tokens@.len() <= MAX_TOKENS {
                        tokens@.len() as int
                    } else {
                        MAX_TOKENS as int
                    },
                ),
            ),
    {
        TermVector::from_tokens(tokens)
    }
}

impl vstd::std_specs::convert::FromSpecImpl<Vec<Token>> for TermVector {
    open spec fn obeys_from_spec() -> bool {
        false
    }

    open spec fn from_spec(tokens: Vec<Token>) -> TermVector {
        arbitrary()
    }
}

impl From<TermVector> for Vec<Token> {
    /// The tokens of the vector in the order of their positions, as
    /// `into_tokens` hands them out.
    fn from(vector: TermVector) -> (tokens: Vec<Token>)
        ensures
            ordered_by_position(token_views(tokens@)),
            token_views(tokens@).to_multiset() == flattened(vector.entries()).to_multiset(),
    {
        vector.into_tokens()
    }
}

impl vstd::std_specs::convert::FromSpecImpl<TermVector> for Vec<Token> {
    open spec fn obeys_from_spec() -> bool {
        false
    }

    open spec fn from_spec(vector: TermVector) -> Vec<Token> {
        arbitrary()
    }
}

/// The first entries hold no more tokens than all of them.
pub proof fn lemma_token_count_prefix(entries: Seq<(Seq<u8>, Seq<u32>)>, n: int)
    requires
        0 <= n <= entries.len(),
    ensures
        token_count(entries.subrange(0, n)) <= token_count(entries),
    decreases entries.len() - n,
{
    if n == entries.len() {
        assert(entries.subrange(0, n) =~= entries);
    } else {
        let next = entries.subrange(0, n + 1);
        assert(next.drop_last() =~= entries.subrange(0, n));
        lemma_token_count_prefix(entries, n + 1);
    }
}

} // verus!
