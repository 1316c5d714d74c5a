//! Building a segment in memory, document by document.

use crate::assoc::{
    assoc_map, AssocVec, distinct_keys, has_key, key_index, lemma_assoc_entry, lemma_assoc_update,
};
use crate::doc_id_set::DocIdSet;
use crate::document::{Document, FieldValueModel};
use crate::encoding::{be_i64, write_i64_be};
use crate::schema::FieldId;
use crate::term::Term;
use crate::term_vector::{MAX_TOKENS, TermVector, token_count};
use vstd::prelude::*;

verus! {

/// The most documents that a segment holds.
pub const MAX_DOCS: u32 = 0x1_0000;

/// Where the squashing of a field's length stops counting up: at `length`, or
/// where three times the root of the tokens, less three, is nearer to `length`
/// than to the next number. `scaled` is 36 times the number of tokens.
pub open spec fn squash_from(scaled: nat, length: nat) -> nat
    decreases 255 - length,
{
    if length >= 255 || (2 * length + 7) * (2 * length + 7) > scaled {
        length
    } else {
        squash_from(scaled, length + 1)
    }
}

/// The length of a field of so many tokens, squashed into one byte: the root of
/// the number of tokens, less one, times three, rounded to the nearest whole
/// number and held between 0 and 255.
pub open spec fn squashed_length(tokens: nat) -> nat {
    if tokens == 0 {
        0
    } else {
        squash_from(36 * tokens, 0)
    }
}

/// `length` is the squashed length of a field of `tokens` tokens, said without
/// roots: `2 * length + 5 <= 6 * root < 2 * length + 7`, which is rounding to the
/// nearest, unless the length is held at 255.
pub open spec fn squashes_to(tokens: nat, length: nat) -> bool {
    if tokens == 0 {
        length == 0
    } else if 36 * tokens >= 515 * 515 {
        length == 255
    } else {
        (2 * length + 5) * (2 * length + 5) <= 36 * tokens < (2 * length + 7) * (2 * length + 7)
    }
}

proof fn lemma_squash_from(scaled: nat, length: nat)
    requires
        length <= 255,
        (2 * length + 5) * (2 * length + 5) <= scaled,
    ensures
        squash_from(scaled, length) <= 255,
        scaled >= 515 * 515 ==> squash_from(scaled, length) == 255,
        scaled < 515 * 515 ==> {
            let l = squash_from(scaled, length);
            (2 * l + 5) * (2 * l + 5) <= scaled < (2 * l + 7) * (2 * l + 7)
        },
    decreases 255 - length,
{
    if length >= 255 {
    } else if (2 * length + 7) * (2 * length + 7) > scaled {
        assert((2 * length + 7) * (2 * length + 7) <= 515 * 515) by (nonlinear_arith)
            requires
                length < 255,
        ;
    } else {
        lemma_squash_from(scaled, length + 1);
    }
}

/// The squashed length is the rounded, bounded root that it is said to be.
pub proof fn lemma_squashed_length(tokens: nat)
    ensures
        squashed_length(tokens) <= 255,
        squashes_to(tokens, squashed_length(tokens)),
{
    if tokens > 0 {
        lemma_squash_from(36 * tokens, 0);
    }
}

/// Squashes the length of a field into one byte.
pub fn squash_length(tokens: usize) -> (length: u8)
    ensures
        length == squashed_length(tokens as nat),
{
    if tokens == 0 {
        return 0;
    }
    let scaled: u128 = 36 * (tokens as u128);
    let mut length: u8 = 0;
    let mut more = true;
    while more
        invariant
            scaled == 36 * tokens,
            squash_from(scaled as nat, length as nat) == squash_from(scaled as nat, 0),
            !more ==> squash_from(scaled as nat, length as nat) == length,
        decreases 255 - length + (if more { 1int } else { 0int }),
    {
        if length == 255 {
            more = false;
        } else {
            let bound: u128 = 2 * (length as u128) + 7;
            assert(bound * bound <= 517 * 517) by (nonlinear_arith)
                requires
                    bound <= 517,
            ;
            if bound * bound > scaled {
                more = false;
            } else {
                length += 1;
            }
        }
    }
    length
}

/// The documents and tokens of a field in a segment.
#[derive(Clone, Copy, Debug, PartialEq, Eq, Structural)]
pub struct FieldTotals {
    /// The documents that have the field.
    pub docs: i64,
    /// The tokens of the field, over all documents.
    pub tokens: i64,
}

/// What a value kept for a document's field holds, a term being named by its
/// place among the terms of the segment.
#[derive(Clone, Copy, Debug, PartialEq, Eq, Structural)]
pub enum LocalKind {
    Value,
    Length,
    TermFrequency(usize),
}

/// A value kept for a field of a document.
#[derive(Debug)]
pub struct StoredValue {
    pub ord: u16,
    pub field: FieldId,
    pub kind: LocalKind,
    pub value: Vec<u8>,
}

/// What a value kept for a document's field holds, a term being named by its bytes.
pub enum StoredKindModel {
    Value,
    Length,
    TermFrequency(Seq<u8>),
}

/// A value kept for a field of a document, as plain data.
pub struct StoredValueModel {
    pub ord: u16,
    pub field: FieldId,
    pub kind: StoredKindModel,
    pub value: Seq<u8>,
}

/// A kept value as plain data, given the terms of the segment.
pub open spec fn stored_model(value: StoredValue, terms: Seq<Seq<u8>>) -> StoredValueModel {
    StoredValueModel {
        ord: value.ord,
        field: value.field,
        kind: match value.kind {
            LocalKind::Value => StoredKindModel::Value,
            LocalKind::Length => StoredKindModel::Length,
            LocalKind::TermFrequency(id) => StoredKindModel::TermFrequency(terms[id as int]),
        },
        value: value.value@,
    }
}

/// The place of a term among the terms.
pub open spec fn term_position(terms: Seq<Seq<u8>>, term: Seq<u8>) -> int {
    choose|i: int| 0 <= i < terms.len() && terms[i] == term
}

/// The ordinals of the documents that have the term in the field, given the
/// terms of a segment and its term directories.
pub open spec fn posting_of(
    terms: Seq<Seq<u8>>,
    directories: Seq<((u16, usize), DocIdSet)>,
    field: FieldId,
    term: Seq<u8>,
) -> Set<u16> {
    if terms.contains(term) && has_key(
        directories,
        (field.0, term_position(terms, term) as usize),
    ) {
        assoc_map(directories)[(field.0, term_position(terms, term) as usize)]@
    } else {
        Set::empty()
    }
}

/// The documents and tokens of the field, given the totals of a segment.
pub open spec fn totals_of(totals: Seq<(u16, FieldTotals)>, field: FieldId) -> FieldTotals {
    if has_key(totals, field.0) {
        assoc_map(totals)[field.0]
    } else {
        FieldTotals { docs: 0, tokens: 0 }
    }
}

/// The term frequencies kept for a field of a document: for every term that
/// occurs more than once, how often it occurs, as a signed number of eight bytes,
/// most significant first.
pub open spec fn term_frequency_values(
    ord: u16,
    field: FieldId,
    entries: Seq<(Seq<u8>, Seq<u32>)>,
) -> Seq<StoredValueModel>
    decreases entries.len(),
{
    if entries.len() == 0 {
        Seq::empty()
    } else {
        let before = term_frequency_values(ord, field, entries.drop_last());
        if entries.last().1.len() > 1 {
            before.push(
                StoredValueModel {
                    ord,
                    field,
                    kind: StoredKindModel::TermFrequency(entries.last().0),
                    value: be_i64(entries.last().1.len() as i64),
                },
            )
        } else {
            before
        }
    }
}

/// The length kept for a field of a document: its squashed length in one byte,
/// and nothing where that is zero.
pub open spec fn length_values(ord: u16, field: FieldId, tokens: nat) -> Seq<StoredValueModel> {
    if squashed_length(tokens) != 0 {
        seq![
            StoredValueModel {
                ord,
                field,
                kind: StoredKindModel::Length,
                value: seq![squashed_length(tokens) as u8],
            },
        ]
    } else {
        Seq::empty()
    }
}

/// What is kept for an indexed field of a document: the term frequencies, then
/// the length.
pub open spec fn indexed_field_values(
    ord: u16,
    field: FieldId,
    entries: Seq<(Seq<u8>, Seq<u32>)>,
) -> Seq<StoredValueModel> {
    term_frequency_values(ord, field, entries) + length_values(ord, field, token_count(entries))
}

/// What is kept for the indexed fields of a document, field after field.
pub open spec fn indexed_values(
    ord: u16,
    fields: Seq<(FieldId, Seq<(Seq<u8>, Seq<u32>)>)>,
) -> Seq<StoredValueModel>
    decreases fields.len(),
{
    if fields.len() == 0 {
        Seq::empty()
    } else {
        indexed_values(ord, fields.drop_last()) + indexed_field_values(
            ord,
            fields.last().0,
            fields.last().1,
        )
    }
}

/// What is kept for the stored fields of a document: the bytes of each value.
pub open spec fn stored_field_values(ord: u16, fields: Seq<(FieldId, FieldValueModel)>) -> Seq<
    StoredValueModel,
> {
    Seq::new(
        fields.len(),
        |i: int|
            StoredValueModel {
                ord,
                field: fields[i].0,
                kind: StoredKindModel::Value,
                value: fields[i].1.encoding(),
            },
    )
}

/// What is kept for a document: for its indexed fields, then for its stored fields.
pub open spec fn document_values(doc: Document, ord: u16) -> Seq<StoredValueModel> {
    indexed_values(ord, doc.indexed()) + stored_field_values(ord, doc.stored())
}

/// Every term is one of `before` or one of `allowed`.
#[verifier::opaque]
pub open spec fn terms_within(
    after: Seq<Seq<u8>>,
    before: Seq<Seq<u8>>,
    allowed: Set<Seq<u8>>,
) -> bool {
    forall|k: int|
        0 <= k < after.len() ==> before.contains(#[trigger] after[k]) || allowed.contains(after[k])
}

/// The terms of a term vector.
pub open spec fn vector_terms(entries: Seq<(Seq<u8>, Seq<u32>)>) -> Set<Seq<u8>> {
    Set::new(|term: Seq<u8>| has_key(entries, term))
}

/// The terms of the indexed fields of a document.
pub open spec fn document_terms(fields: Seq<(FieldId, Seq<(Seq<u8>, Seq<u32>)>)>) -> Set<Seq<u8>> {
    Set::new(
        |term: Seq<u8>| exists|i: int| 0 <= i < fields.len() && has_key((#[trigger] fields[i]).1, term),
    )
}

/// Terms are within themselves.
pub proof fn lemma_within_same(terms: Seq<Seq<u8>>, allowed: Set<Seq<u8>>)
    ensures
        terms_within(terms, terms, allowed),
{
    reveal(terms_within);
}

/// Terms stay within where one that is allowed is added, or none.
pub proof fn lemma_within_step(
    after: Seq<Seq<u8>>,
    before: Seq<Seq<u8>>,
    allowed: Set<Seq<u8>>,
    bigger: Set<Seq<u8>>,
    next: Seq<Seq<u8>>,
    term: Seq<u8>,
)
    requires
        terms_within(after, before, allowed),
        allowed.subset_of(bigger),
        bigger.contains(term),
        next == after || next == after.push(term),
    ensures
        terms_within(next, before, bigger),
{
    reveal(terms_within);
    assert forall|k: int| 0 <= k < next.len() implies before.contains(#[trigger] next[k])
        || bigger.contains(next[k]) by {
        if k < after.len() {
            assert(next[k] == after[k]);
        }
    }
}

/// Terms within terms that are within others are within those.
pub proof fn lemma_within_chain(
    first: Seq<Seq<u8>>,
    second: Seq<Seq<u8>>,
    third: Seq<Seq<u8>>,
    allowed: Set<Seq<u8>>,
    more: Set<Seq<u8>>,
    bigger: Set<Seq<u8>>,
)
    requires
        terms_within(second, first, allowed),
        terms_within(third, second, more),
        allowed.subset_of(bigger),
        more.subset_of(bigger),
    ensures
        terms_within(third, first, bigger),
{
    reveal(terms_within);
    assert forall|k: int| 0 <= k < third.len() implies first.contains(#[trigger] third[k])
        || bigger.contains(third[k]) by {
        if second.contains(third[k]) {
            let j = choose|j: int| 0 <= j < second.len() && second[j] == third[k];
            assert(first.contains(second[j]) || allowed.contains(second[j]));
        }
    }
}

/// One of the fields is `field` and has the term.
pub open spec fn seen_term(
    fields: Seq<(FieldId, Seq<(Seq<u8>, Seq<u32>)>)>,
    field: FieldId,
    term: Seq<u8>,
) -> bool {
    exists|i: int|
        0 <= i < fields.len() && (#[trigger] fields[i]).0 == field && has_key(fields[i].1, term)
}

/// The ordinal alone if the condition holds, and nothing if not.
pub open spec fn only_if(condition: bool, ord: u16) -> Set<u16> {
    if condition {
        set![ord]
    } else {
        Set::empty()
    }
}

/// The number of tokens that a document has in a field.
pub open spec fn tokens_in(
    fields: Seq<(FieldId, Seq<(Seq<u8>, Seq<u32>)>)>,
    field: FieldId,
) -> nat {
    if has_key(fields, field) {
        token_count(assoc_map(fields)[field])
    } else {
        0
    }
}

/// The totals of a field after a document with these indexed fields.
pub open spec fn totals_after(
    totals: FieldTotals,
    fields: Seq<(FieldId, Seq<(Seq<u8>, Seq<u32>)>)>,
    field: FieldId,
) -> FieldTotals {
    if has_key(fields, field) {
        FieldTotals {
            docs: (totals.docs + 1) as i64,
            tokens: (totals.tokens + tokens_in(fields, field)) as i64,
        }
    } else {
        totals
    }
}

/// Why a document was not added to a segment.
#[derive(Clone, Copy, Debug, PartialEq, Eq, Structural)]
pub enum DocumentInsertError {
    /// The segment holds as many documents as a segment takes.
    SegmentFull,
}

/// A term that is there has one place.
pub proof fn lemma_term_position(terms: Seq<Seq<u8>>, i: int)
    requires
        terms.no_duplicates(),
        0 <= i < terms.len(),
    ensures
        terms.contains(terms[i]),
        term_position(terms, terms[i]) == i,
{
}

/// A new term changes no posting.
pub proof fn lemma_posting_new_term(
    terms: Seq<Seq<u8>>,
    directories: Seq<((u16, usize), DocIdSet)>,
    new_term: Seq<u8>,
)
    requires
        terms.no_duplicates(),
        terms.len() < usize::MAX,
        !terms.contains(new_term),
        forall|i: int| 0 <= i < directories.len() ==> (#[trigger] directories[i]).0.1 < terms.len(),
    ensures
        terms.push(new_term).no_duplicates(),
        forall|field: FieldId, term: Seq<u8>| #[trigger]
            posting_of(terms.push(new_term), directories, field, term) == posting_of(
                terms,
                directories,
                field,
                term,
            ),
{
    let more = terms.push(new_term);
    assert forall|a: int, b: int| 0 <= a < more.len() && 0 <= b < more.len() && a != b implies more[a]
        != more[b] by {
        if a < terms.len() {
            assert(more[a] == terms[a]);
        }
        if b < terms.len() {
            assert(more[b] == terms[b]);
        }
    }
    assert forall|field: FieldId, term: Seq<u8>| #[trigger]
        posting_of(more, directories, field, term) == posting_of(
            terms,
            directories,
            field,
            term,
        ) by {
        if terms.contains(term) {
            let i = term_position(terms, term);
            assert(more[i] == term);
            lemma_term_position(more, i);
        } else if term == new_term {
            assert(more[terms.len() as int] == term);
            lemma_term_position(more, terms.len() as int);
            let key = (field.0, terms.len() as usize);
            if has_key(directories, key) {
                let j = key_index(directories, key);
                assert(directories[j].0.1 < terms.len());
            }
        } else {
            if more.contains(term) {
                let i = choose|i: int| 0 <= i < more.len() && more[i] == term;
                assert(terms[i] == term);
            }
        }
    }
}

/// Setting the directory of a field and a term sets the posting of the two and
/// changes no other.
pub proof fn lemma_posting_set(
    terms: Seq<Seq<u8>>,
    before: Seq<((u16, usize), DocIdSet)>,
    after: Seq<((u16, usize), DocIdSet)>,
    field: FieldId,
    id: usize,
    set: DocIdSet,
)
    requires
        terms.no_duplicates(),
        terms.len() <= usize::MAX,
        id < terms.len(),
        assoc_map(after) == assoc_map(before).insert((field.0, id), set),
    ensures
        forall|f: FieldId, t: Seq<u8>| #[trigger]
            posting_of(terms, after, f, t) == (if f == field && t == terms[id as int] {
                set@
            } else {
                posting_of(terms, before, f, t)
            }),
{
    lemma_term_position(terms, id as int);
    assert forall|f: FieldId, t: Seq<u8>| #[trigger]
        posting_of(terms, after, f, t) == (if f == field && t == terms[id as int] {
            set@
        } else {
            posting_of(terms, before, f, t)
        }) by {
        if terms.contains(t) {
            let key = (f.0, term_position(terms, t) as usize);
            assert(has_key(after, key) == assoc_map(after).contains_key(key));
            assert(has_key(before, key) == assoc_map(before).contains_key(key));
            if f == field && t == terms[id as int] {
                assert(key == (field.0, id));
            } else {
                assert(key != (field.0, id));
            }
        }
    }
}

/// A segment in the making: what the documents added so far amount to.
pub struct SegmentBuilder {
    doc_count: u32,
    terms: Vec<Term>,
    directories: AssocVec<(u16, usize), DocIdSet>,
    field_totals: AssocVec<u16, FieldTotals>,
    stored_values: Vec<StoredValue>,
}

impl SegmentBuilder {
    /// The number of documents added.
    pub closed spec fn doc_count(&self) -> nat {
        self.doc_count as nat
    }

    /// The terms of the segment, in the order in which they came. The place of
    /// a term in this order is its id within the segment.
    pub closed spec fn terms(&self) -> Seq<Seq<u8>> {
        Seq::new(self.terms@.len(), |i: int| self.terms@[i]@)
    }

    /// The terms are no more than a place can name.
    pub proof fn lemma_terms_fit(&self)
        ensures
            self.terms().len() <= usize::MAX,
    {
        assert(self.terms@.len() == self.terms.len());
    }

    /// The term directories: for a field and a term, named by its place, the
    /// ordinals of the documents that have the term in the field.
    pub closed spec fn directories(&self) -> Seq<((u16, usize), DocIdSet)> {
        self.directories.items()
    }

    /// The documents and tokens of each field.
    pub closed spec fn totals(&self) -> Seq<(u16, FieldTotals)> {
        self.field_totals.items()
    }

    /// The values kept, in the order in which they came.
    pub closed spec fn stored_values(&self) -> Seq<StoredValue> {
        self.stored_values@
    }

    /// The values kept, as plain data.
    pub open spec fn stored(&self) -> Seq<StoredValueModel> {
        Seq::new(
            self.stored_values().len(),
            |i: int| stored_model(self.stored_values()[i], self.terms()),
        )
    }

    /// The ordinals of the documents that have the term in the field.
    pub open spec fn posting(&self, field: FieldId, term: Seq<u8>) -> Set<u16> {
        posting_of(self.terms(), self.directories(), field, term)
    }

    /// The number of documents that have the field.
    pub open spec fn field_docs(&self, field: FieldId) -> int {
        totals_of(self.totals(), field).docs as int
    }

    /// The number of tokens of the field, over all documents.
    pub open spec fn field_tokens(&self, field: FieldId) -> int {
        totals_of(self.totals(), field).tokens as int
    }

    /// What holds of every builder: no more documents than a segment takes, no
    /// term twice, one directory for a field and a term, one pair of totals for a
    /// field, and nothing that speaks of a term or a document that is not there.
    pub open spec fn wf(&self) -> bool {
        &&& self.doc_count() <= MAX_DOCS
        &&& self.terms().no_duplicates()
        &&& distinct_keys(self.directories())
        &&& distinct_keys(self.totals())
        &&& forall|i: int|
            0 <= i < self.directories().len() ==> (#[trigger] self.directories()[i]).0.1
                < self.terms().len()
        &&& forall|i: int, ord: u16|
            0 <= i < self.directories().len() && #[trigger] self.directories()[i].1@.contains(ord)
                ==> ord < self.doc_count()
        &&& forall|i: int|
            0 <= i < self.stored_values().len() ==> (#[trigger] self.stored_values()[i]).ord
                < self.doc_count()
        &&& forall|i: int|
            0 <= i < self.stored_values().len() ==> ((#[trigger] self.stored_values()[i]).kind
                matches LocalKind::TermFrequency(id) ==> id < self.terms().len())
        &&& forall|i: int|
            0 <= i < self.totals().len() ==> 0 <= (#[trigger] self.totals()[i]).1.docs
                <= self.doc_count() && 0 <= self.totals()[i].1.tokens <= self.doc_count()
                * MAX_TOKENS
    }

    /// A builder without documents.
    pub fn new() -> (builder: SegmentBuilder)
        ensures
            builder.wf(),
            builder.doc_count() == 0,
            builder.terms() == Seq::<Seq<u8>>::empty(),
            builder.directories() == Seq::<((u16, usize), DocIdSet)>::empty(),
            builder.totals() == Seq::<(u16, FieldTotals)>::empty(),
            builder.stored_values() == Seq::<StoredValue>::empty(),
    {
        let builder = SegmentBuilder {
            doc_count: 0,
            terms: Vec::new(),
            directories: AssocVec::new(),
            field_totals: AssocVec::new(),
            stored_values: Vec::new(),
        };
        assert(builder.terms() =~= Seq::<Seq<u8>>::empty());
        builder
    }

    /// The place of the term among the terms of the segment; a term not seen
    /// before comes last.
    fn intern(&mut self, term: &Term) -> (id: usize)
        requires
            old(self).wf(),
        ensures
            final(self).wf(),
            id < final(self).terms().len(),
            final(self).terms()[id as int] == term@,
            final(self).terms() == (if old(self).terms().contains(term@) {
                old(self).terms()
            } else {
                old(self).terms().push(term@)
            }),
            final(self).doc_count() == old(self).doc_count(),
            final(self).directories() == old(self).directories(),
            final(self).totals() == old(self).totals(),
            final(self).stored_values() == old(self).stored_values(),
    {
        let mut i: usize = 0;
        while i < self.terms.len()
            invariant
                i <= self.terms.len(),
                *self == *old(self),
                self.wf(),
                forall|j: int| 0 <= j < i ==> self.terms()[j] != term@,
            decreases self.terms.len() - i,
        {
            if crate::assoc::bytes_eq(self.terms[i].as_bytes(), term.as_bytes()) {
                assert(self.terms()[i as int] == term@);
                assert(self.terms().contains(term@));
                return i;
            }
            i += 1;
        }
        proof {
            if self.terms().contains(term@) {
                let j = choose|j: int| 0 <= j < self.terms().len() && self.terms()[j] == term@;
                assert(false);
            }
        }
        self.terms.push(term.clone());
        proof {
            let before = old(self).terms();
            let after = self.terms();
            assert(after =~= before.push(term@));
            assert forall|a: int, b: int|
                0 <= a < after.len() && 0 <= b < after.len() && a != b implies after[a]
                != after[b] by {
                if a < before.len() {
                    assert(after[a] == before[a]);
                }
                if b < before.len() {
                    assert(after[b] == before[b]);
                }
            }
        }
        i
    }

    /// Records that the document `ord` has the term in the field.
    #[verifier::spinoff_prover]
    fn add_posting(&mut self, field: FieldId, term: &Term, ord: u16) -> (id: usize)
        requires
            old(self).wf(),
            ord < old(self).doc_count(),
        ensures
            final(self).wf(),
            id < final(self).terms().len(),
            final(self).terms()[id as int] == term@,
            final(self).terms() == (if old(self).terms().contains(term@) {
                old(self).terms()
            } else {
                old(self).terms().push(term@)
            }),
            forall|f: FieldId, t: Seq<u8>| #[trigger]
                final(self).posting(f, t) == (if f == field && t == term@ {
                    old(self).posting(f, t).insert(ord)
                } else {
                    old(self).posting(f, t)
                }),
            final(self).doc_count() == old(self).doc_count(),
            final(self).totals() == old(self).totals(),
            final(self).stored_values() == old(self).stored_values(),
            final(self).stored() == old(self).stored(),
    {
        let id = self.intern(term);
        let ghost terms = self.terms();
        let ghost before = self.directories();
        assert(terms.len() == self.terms.len());
        proof {
            assert forall|i: int| 0 <= i < self.stored_values().len() implies stored_model(
                self.stored_values()[i],
                terms,
            ) == stored_model(old(self).stored_values()[i], old(self).terms()) by {
                if let LocalKind::TermFrequency(t) = self.stored_values()[i].kind {
                    assert(t < old(self).terms().len());
                    assert(terms[t as int] == old(self).terms()[t as int]);
                }
            }
            assert(self.stored() =~= old(self).stored());
        }
        proof {
            if !old(self).terms().contains(term@) {
                lemma_posting_new_term(old(self).terms(), before, term@);
            }
            assert forall|f: FieldId, t: Seq<u8>| #[trigger]
                posting_of(terms, before, f, t) == old(self).posting(f, t) by {}
        }
        let key = (field.0, id);
        match self.directories.position(&key) {
            Some(i) => {
                proof {
                    lemma_assoc_entry(before, i as int);
                }
                let set = self.directories.value_mut(i);
                set.insert(ord);
                proof {
                    let after = self.directories();
                    let grown = after[i as int].1;
                    assert(after == before.update(i as int, (key, grown)));
                    lemma_assoc_update(before, i as int, grown);
                    lemma_posting_set(terms, before, after, field, id, grown);
                    assert forall|j: int| 0 <= j < after.len() implies (#[trigger] after[j]).0.1
                        < terms.len() by {
                        if j != i {
                            assert(after[j] == before[j]);
                        }
                    }
                    assert forall|j: int, o: u16|
                        0 <= j < after.len() && #[trigger] after[j].1@.contains(o) implies o
                        < self.doc_count() by {
                        if j != i {
                            assert(after[j] == before[j]);
                            assert(before[j].1@.contains(o));
                        } else {
                            if o != ord {
                                assert(before[i as int].1@.contains(o));
                            }
                        }
                    }
                }
            },
            None => {
                let mut set = DocIdSet::new();
                set.insert(ord);
                self.directories.push(key, set);
                proof {
                    let after = self.directories();
                    lemma_posting_set(terms, before, after, field, id, set);
                    assert(posting_of(terms, before, field, term@) =~= Set::<u16>::empty());
                    assert(set@ =~= Set::<u16>::empty().insert(ord));
                    assert forall|j: int| 0 <= j < after.len() implies (#[trigger] after[j]).0.1
                        < terms.len() by {
                        if j < before.len() {
                            assert(after[j] == before[j]);
                        }
                    }
                    assert forall|j: int, o: u16|
                        0 <= j < after.len() && #[trigger] after[j].1@.contains(o) implies o
                        < self.doc_count() by {
                        if j < before.len() {
                            assert(after[j] == before[j]);
                            assert(before[j].1@.contains(o));
                        }
                    }
                }
            },
        }
        id
    }

    /// Keeps a value for a field of a document.
    fn push_stored(&mut self, value: StoredValue)
        requires
            old(self).wf(),
            value.ord < old(self).doc_count(),
            value.kind matches LocalKind::TermFrequency(id) ==> id < old(self).terms().len(),
        ensures
            final(self).wf(),
            final(self).stored() == old(self).stored().push(
                stored_model(value, old(self).terms()),
            ),
            final(self).stored_values() == old(self).stored_values().push(value),
            final(self).terms() == old(self).terms(),
            final(self).directories() == old(self).directories(),
            final(self).totals() == old(self).totals(),
            final(self).doc_count() == old(self).doc_count(),
    {
        self.stored_values.push(value);
        proof {
            let before = old(self).stored_values();
            let after = self.stored_values();
            assert forall|i: int| 0 <= i < after.len() implies (#[trigger] after[i]).ord
                < self.doc_count() by {
                if i < before.len() {
                    assert(after[i] == before[i]);
                }
            }
            assert forall|i: int| 0 <= i < after.len() implies ((#[trigger] after[i]).kind
                matches LocalKind::TermFrequency(id) ==> id < self.terms().len()) by {
                if i < before.len() {
                    assert(after[i] == before[i]);
                }
            }
            assert(self.stored() =~= old(self).stored().push(
                stored_model(value, old(self).terms()),
            ));
        }
    }

    /// Counts one more document with the field, of so many tokens.
    #[verifier::spinoff_prover]
    fn add_totals(&mut self, field: FieldId, tokens: usize)
        requires
            old(self).wf(),
            tokens <= MAX_TOKENS,
            totals_of(old(self).totals(), field).docs < old(self).doc_count(),
            totals_of(old(self).totals(), field).tokens <= (old(self).doc_count() - 1) * MAX_TOKENS,
        ensures
            final(self).wf(),
            forall|f: FieldId| #[trigger]
                totals_of(final(self).totals(), f) == (if f == field {
                    FieldTotals {
                        docs: (totals_of(old(self).totals(), f).docs + 1) as i64,
                        tokens: (totals_of(old(self).totals(), f).tokens + tokens) as i64,
                    }
                } else {
                    totals_of(old(self).totals(), f)
                }),
            final(self).terms() == old(self).terms(),
            final(self).directories() == old(self).directories(),
            final(self).stored_values() == old(self).stored_values(),
            final(self).doc_count() == old(self).doc_count(),
    {
        let ghost before = self.totals();
        let ghost count = self.doc_count();
        assert((count - 1) * MAX_TOKENS + MAX_TOKENS == count * MAX_TOKENS) by (nonlinear_arith);
        assert(count * MAX_TOKENS <= 0x1_0000 * 0xffff_ffff) by (nonlinear_arith)
            requires
                count <= 0x1_0000,
        ;
        match self.field_totals.position(&field.0) {
            Some(i) => {
                proof {
                    lemma_assoc_entry(before, i as int);
                }
                let totals = self.field_totals.value_mut(i);
                let grown = FieldTotals {
                    docs: totals.docs + 1,
                    tokens: totals.tokens + tokens as i64,
                };
                *totals = grown;
                proof {
                    let after = self.totals();
                    lemma_assoc_update(before, i as int, grown);
                    assert forall|j: int| 0 <= j < after.len() implies 0 <= (#[trigger] after[j]).1.docs
                        <= count && 0 <= after[j].1.tokens <= count * MAX_TOKENS by {
                        if j != i {
                            assert(after[j] == before[j]);
                        }
                    }
                    assert forall|f: FieldId| #[trigger]
                        totals_of(after, f) == (if f == field {
                            grown
                        } else {
                            totals_of(before, f)
                        }) by {
                        assert(has_key(after, f.0) == assoc_map(after).contains_key(f.0));
                        assert(has_key(before, f.0) == assoc_map(before).contains_key(f.0));
                    }
                }
            },
            None => {
                let grown = FieldTotals { docs: 1, tokens: tokens as i64 };
                self.field_totals.push(field.0, grown);
                proof {
                    let after = self.totals();
                    assert forall|j: int| 0 <= j < after.len() implies 0 <= (#[trigger] after[j]).1.docs
                        <= count && 0 <= after[j].1.tokens <= count * MAX_TOKENS by {
                        if j < before.len() {
                            assert(after[j] == before[j]);
                        }
                    }
                    assert forall|f: FieldId| #[trigger]
                        totals_of(after, f) == (if f == field {
                            grown
                        } else {
                            totals_of(before, f)
                        }) by {
                        assert(has_key(after, f.0) == assoc_map(after).contains_key(f.0));
                        assert(has_key(before, f.0) == assoc_map(before).contains_key(f.0));
                    }
                }
            },
        }
    }

    /// Adds an indexed field of the document `ord`: the document joins the
    /// posting of each term of the field, the frequencies of the terms that occur
    /// more than once and the length of the field are kept, and the field's
    /// totals grow.
    #[verifier::spinoff_prover]
    fn add_indexed_field(&mut self, ord: u16, field: FieldId, vector: &TermVector)
        requires
            old(self).wf(),
            vector.wf(),
            ord < old(self).doc_count(),
            totals_of(old(self).totals(), field).docs < old(self).doc_count(),
            totals_of(old(self).totals(), field).tokens <= (old(self).doc_count() - 1) * MAX_TOKENS,
        ensures
            final(self).wf(),
            final(self).doc_count() == old(self).doc_count(),
            forall|f: FieldId, t: Seq<u8>| #[trigger]
                final(self).posting(f, t) == old(self).posting(f, t).union(
                    only_if(f == field && has_key(vector.entries(), t), ord),
                ),
            final(self).stored() == old(self).stored() + indexed_field_values(
                ord,
                field,
                vector.entries(),
            ),
            forall|f: FieldId| #[trigger]
                totals_of(final(self).totals(), f) == (if f == field {
                    FieldTotals {
                        docs: (totals_of(old(self).totals(), f).docs + 1) as i64,
                        tokens: (totals_of(old(self).totals(), f).tokens + token_count(
                            vector.entries(),
                        )) as i64,
                    }
                } else {
                    totals_of(old(self).totals(), f)
                }),
            terms_within(final(self).terms(), old(self).terms(), vector_terms(vector.entries())),
    {
        let ghost entries = vector.entries();
        let mut tokens: usize = 0;
        let mut j: usize = 0;
        proof {
            lemma_within_same(self.terms(), vector_terms(entries.subrange(0, 0)));
            assert(entries.subrange(0, 0) =~= Seq::<(Seq<u8>, Seq<u32>)>::empty());
            assert(self.stored() =~= old(self).stored() + term_frequency_values(
                ord,
                field,
                entries.subrange(0, 0),
            ));
            assert forall|f: FieldId, t: Seq<u8>| #[trigger]
                self.posting(f, t) == old(self).posting(f, t).union(
                    only_if(f == field && has_key(entries.subrange(0, 0), t), ord),
                ) by {
                assert(!has_key(entries.subrange(0, 0), t));
                assert(old(self).posting(f, t).union(Set::<u16>::empty()) =~= old(self).posting(
                    f,
                    t,
                ));
            }
        }
        while j < vector.len()
            invariant
                j <= entries.len(),
                entries == vector.entries(),
                vector.wf(),
                self.wf(),
                ord < self.doc_count(),
                self.doc_count() == old(self).doc_count(),
                self.totals() == old(self).totals(),
                tokens == token_count(entries.subrange(0, j as int)),
                forall|f: FieldId, t: Seq<u8>| #[trigger]
                    self.posting(f, t) == old(self).posting(f, t).union(
                        only_if(f == field && has_key(entries.subrange(0, j as int), t), ord),
                    ),
                self.stored() == old(self).stored() + term_frequency_values(
                    ord,
                    field,
                    entries.subrange(0, j as int),
                ),
                terms_within(
                    self.terms(),
                    old(self).terms(),
                    vector_terms(entries.subrange(0, j as int)),
                ),
            decreases entries.len() - j,
        {
            let ghost head = entries.subrange(0, j as int);
            let ghost next = entries.subrange(0, j as int + 1);
            let ghost before = *self;
            let term = vector.term_at(j);
            let positions = vector.positions_at(j);
            proof {
                assert(next.drop_last() =~= head);
                assert(next.last() == entries[j as int]);
                crate::term_vector::lemma_token_count_prefix(entries, j as int + 1);
            }
            let id = self.add_posting(field, term, ord);
            proof {
                assert(vector_terms(head).subset_of(vector_terms(next))) by {
                    assert forall|t: Seq<u8>| has_key(head, t) implies has_key(next, t) by {
                        let a = key_index(head, t);
                        assert(next[a].0 == t);
                    }
                }
                assert(next[j as int].0 == term@);
                lemma_within_step(
                    before.terms(),
                    old(self).terms(),
                    vector_terms(head),
                    vector_terms(next),
                    self.terms(),
                    term@,
                );
            }
            proof {
                assert forall|f: FieldId, t: Seq<u8>| #[trigger]
                    self.posting(f, t) == old(self).posting(f, t).union(
                        only_if(f == field && has_key(next, t), ord),
                    ) by {
                    if has_key(head, t) {
                        let a = key_index(head, t);
                        assert(next[a].0 == t);
                    }
                    if has_key(next, t) {
                        let a = key_index(next, t);
                        if a < j {
                            assert(head[a].0 == t);
                        }
                    }
                    assert(next[j as int].0 == term@);
                    assert(self.posting(f, t) =~= old(self).posting(f, t).union(
                        only_if(f == field && has_key(next, t), ord),
                    ));
                }
            }
            if positions.len() > 1 {
                let ghost posted = *self;
                let frequency = write_i64_be(positions.len() as i64);
                self.push_stored(
                    StoredValue { ord, field, kind: LocalKind::TermFrequency(id), value: frequency },
                );
                proof {
                    assert forall|f: FieldId, t: Seq<u8>| #[trigger]
                        self.posting(f, t) == old(self).posting(f, t).union(
                            only_if(f == field && has_key(next, t), ord),
                        ) by {
                        assert(self.posting(f, t) == posted.posting(f, t));
                    }
                }
            }
            tokens = tokens + positions.len();
            j += 1;
        }
        assert(entries.subrange(0, j as int) =~= entries);
        let length = squash_length(tokens);
        if length != 0 {
            let mut value: Vec<u8> = Vec::new();
            value.push(length);
            assert(value@ =~= seq![length]);
            let ghost before = *self;
            self.push_stored(StoredValue { ord, field, kind: LocalKind::Length, value });
            proof {
                assert forall|f: FieldId, t: Seq<u8>| #[trigger]
                    self.posting(f, t) == before.posting(f, t) by {}
            }
        }
        assert(self.stored() =~= old(self).stored() + indexed_field_values(ord, field, entries));
        let ghost before = *self;
        self.add_totals(field, tokens);
        proof {
            assert forall|f: FieldId, t: Seq<u8>| #[trigger]
                self.posting(f, t) == before.posting(f, t) by {}
            assert(self.stored() =~= before.stored());
        }
    }

    /// Adds a document to the segment and hands back its ordinal, the number of
    /// documents there were. Fails, changing nothing, exactly where the segment
    /// is full.
    #[verifier::spinoff_prover]
    pub fn add_document(&mut self, doc: &Document) -> (result: Result<u16, DocumentInsertError>)
        requires
            old(self).wf(),
            doc.wf(),
        ensures
            final(self).wf(),
            match result {
                Ok(ord) => {
                    &&& old(self).doc_count() < MAX_DOCS
                    &&& ord == old(self).doc_count()
                    &&& final(self).doc_count() == old(self).doc_count() + 1
                    &&& forall|f: FieldId, t: Seq<u8>| #[trigger]
                        final(self).posting(f, t) == old(self).posting(f, t).union(
                            only_if(doc.has_term(f, t), ord),
                        )
                    &&& final(self).stored() == old(self).stored() + document_values(*doc, ord)
                    &&& forall|f: FieldId| #[trigger]
                        totals_of(final(self).totals(), f) == totals_after(
                            totals_of(old(self).totals(), f),
                            doc.indexed(),
                            f,
                        )
                    &&& terms_within(
                        final(self).terms(),
                        old(self).terms(),
                        document_terms(doc.indexed()),
                    )
                },
                Err(error) => {
                    &&& error == DocumentInsertError::SegmentFull
                    &&& old(self).doc_count() == MAX_DOCS
                    &&& final(self).doc_count() == old(self).doc_count()
                    &&& final(self).terms() == old(self).terms()
                    &&& final(self).directories() == old(self).directories()
                    &&& final(self).totals() == old(self).totals()
                    &&& final(self).stored_values() == old(self).stored_values()
                },
            },
    {
        if self.doc_count >= MAX_DOCS {
            return Err(DocumentInsertError::SegmentFull);
        }
        let ord = self.doc_count as u16;
        self.doc_count = self.doc_count + 1;
        let ghost fields = doc.indexed();
        proof {
            assert(self.stored() =~= old(self).stored());
            assert forall|f: FieldId, t: Seq<u8>| #[trigger]
                self.posting(f, t) == old(self).posting(f, t) by {}
            let fewer = old(self).doc_count();
            let more = self.doc_count();
            assert(fewer * MAX_TOKENS <= more * MAX_TOKENS) by (nonlinear_arith)
                requires
                    fewer <= more,
            ;
            assert(self.wf());
            assert(fields.subrange(0, 0) =~= Seq::<(FieldId, Seq<(Seq<u8>, Seq<u32>)>)>::empty());
            assert(self.stored() =~= old(self).stored() + indexed_values(
                ord,
                fields.subrange(0, 0),
            ));
            assert forall|f: FieldId, t: Seq<u8>| #[trigger]
                self.posting(f, t) == old(self).posting(f, t).union(
                    only_if(seen_term(fields.subrange(0, 0), f, t), ord),
                ) by {
                assert(!seen_term(fields.subrange(0, 0), f, t));
                assert(old(self).posting(f, t).union(Set::<u16>::empty()) =~= old(self).posting(
                    f,
                    t,
                ));
            }
            assert forall|f: FieldId| #[trigger]
                totals_of(self.totals(), f) == totals_after(
                    totals_of(old(self).totals(), f),
                    fields.subrange(0, 0),
                    f,
                ) by {
                assert(!has_key(fields.subrange(0, 0), f));
            }
        }
        proof {
            lemma_within_same(self.terms(), document_terms(fields.subrange(0, 0)));
            assert(self.terms() == old(self).terms());
        }
        let mut i: usize = 0;
        while i < doc.indexed_fields.len()
            invariant
                i <= doc.indexed_fields.len(),
                fields == doc.indexed(),
                terms_within(
                    self.terms(),
                    old(self).terms(),
                    document_terms(fields.subrange(0, i as int)),
                ),
                doc.wf(),
                old(self).wf(),
                self.wf(),
                ord == old(self).doc_count(),
                self.doc_count() == old(self).doc_count() + 1,
                forall|f: FieldId, t: Seq<u8>| #[trigger]
                    self.posting(f, t) == old(self).posting(f, t).union(
                        only_if(seen_term(fields.subrange(0, i as int), f, t), ord),
                    ),
                self.stored() == old(self).stored() + indexed_values(
                    ord,
                    fields.subrange(0, i as int),
                ),
                forall|f: FieldId| #[trigger]
                    totals_of(self.totals(), f) == totals_after(
                        totals_of(old(self).totals(), f),
                        fields.subrange(0, i as int),
                        f,
                    ),
            decreases doc.indexed_fields.len() - i,
        {
            let ghost head = fields.subrange(0, i as int);
            let ghost next = fields.subrange(0, i as int + 1);
            let ghost before = *self;
            let field = doc.indexed_fields[i].0;
            let vector = &doc.indexed_fields[i].1;
            proof {
                assert(next.drop_last() =~= head);
                assert(next.last() == fields[i as int]);
                assert(fields[i as int] == (field, vector.entries()));
                // The field was not counted for this document yet.
                if has_key(head, field) {
                    let a = key_index(head, field);
                    assert(fields[a].0 == fields[i as int].0);
                    assert(false);
                }
                let was = totals_of(old(self).totals(), field);
                assert(totals_of(self.totals(), field) == was);
                if has_key(old(self).totals(), field.0) {
                    let a = key_index(old(self).totals(), field.0);
                    lemma_assoc_entry(old(self).totals(), a);
                }
                assert(distinct_keys(next)) by {
                    assert forall|a: int, b: int|
                        0 <= a < next.len() && 0 <= b < next.len() && a != b implies next[a].0
                        != next[b].0 by {
                        assert(next[a] == fields[a]);
                        assert(next[b] == fields[b]);
                    }
                }
                lemma_assoc_entry(next, i as int);
            }
            self.add_indexed_field(ord, field, vector);
            proof {
                assert(document_terms(head).subset_of(document_terms(next))) by {
                    assert forall|t: Seq<u8>| document_terms(head).contains(t) implies document_terms(
                        next,
                    ).contains(t) by {
                        let a = choose|a: int| 0 <= a < head.len() && has_key((#[trigger] head[a]).1, t);
                        assert(next[a] == head[a]);
                    }
                }
                assert(vector_terms(vector.entries()).subset_of(document_terms(next))) by {
                    assert forall|t: Seq<u8>| has_key(vector.entries(), t) implies document_terms(
                        next,
                    ).contains(t) by {
                        assert(next[i as int].1 == vector.entries());
                    }
                }
                lemma_within_chain(
                    old(self).terms(),
                    before.terms(),
                    self.terms(),
                    document_terms(head),
                    vector_terms(vector.entries()),
                    document_terms(next),
                );
            }
            proof {
                assert forall|f: FieldId, t: Seq<u8>| #[trigger]
                    self.posting(f, t) == old(self).posting(f, t).union(
                        only_if(seen_term(next, f, t), ord),
                    ) by {
                    if seen_term(head, f, t) {
                        let a = choose|a: int|
                            0 <= a < head.len() && (#[trigger] head[a]).0 == f && has_key(
                                head[a].1,
                                t,
                            );
                        assert(next[a] == head[a]);
                    }
                    if seen_term(next, f, t) {
                        let a = choose|a: int|
                            0 <= a < next.len() && (#[trigger] next[a]).0 == f && has_key(
                                next[a].1,
                                t,
                            );
                        if a < i {
                            assert(head[a] == next[a]);
                        }
                    }
                    if f == field && has_key(vector.entries(), t) {
                        assert(next[i as int].0 == f);
                    }
                    assert(before.posting(f, t).union(
                        only_if(f == field && has_key(vector.entries(), t), ord),
                    ) =~= old(self).posting(f, t).union(only_if(seen_term(next, f, t), ord)));
                }
                assert(self.stored() =~= old(self).stored() + indexed_values(ord, next));
                assert forall|f: FieldId| #[trigger]
                    totals_of(self.totals(), f) == totals_after(
                        totals_of(old(self).totals(), f),
                        next,
                        f,
                    ) by {
                    if f == field {
                        assert(next[i as int].0 == f);
                    } else {
                        if has_key(head, f) {
                            let a = key_index(head, f);
                            assert(distinct_keys(head)) by {
                                assert forall|x: int, y: int|
                                    0 <= x < head.len() && 0 <= y < head.len() && x
                                        != y implies head[x].0 != head[y].0 by {
                                    assert(head[x] == fields[x]);
                                    assert(head[y] == fields[y]);
                                }
                            }
                            lemma_assoc_entry(head, a);
                            assert(next[a] == head[a]);
                            lemma_assoc_entry(next, a);
                        }
                        if has_key(next, f) {
                            let a = key_index(next, f);
                            assert(a != i);
                            assert(head[a] == next[a]);
                        }
                    }
                }
            }
            i += 1;
        }
        assert(fields.subrange(0, i as int) =~= fields);
        proof {
            assert forall|f: FieldId, t: Seq<u8>|
                seen_term(fields, f, t) == #[trigger] doc.has_term(f, t) by {}
        }
        let ghost stored = doc.stored();
        let ghost indexed_done = *self;
        let mut k: usize = 0;
        assert(stored_field_values(ord, stored).subrange(0, 0) =~= Seq::<
            StoredValueModel,
        >::empty());
        assert(self.stored() =~= indexed_done.stored() + stored_field_values(ord, stored).subrange(
            0,
            0,
        ));
        while k < doc.stored_fields.len()
            invariant
                k <= doc.stored_fields.len(),
                stored == doc.stored(),
                self.wf(),
                ord < self.doc_count(),
                self.doc_count() == indexed_done.doc_count(),
                self.terms() == indexed_done.terms(),
                self.directories() == indexed_done.directories(),
                self.totals() == indexed_done.totals(),
                self.stored() == indexed_done.stored() + stored_field_values(ord, stored).subrange(
                    0,
                    k as int,
                ),
            decreases doc.stored_fields.len() - k,
        {
            let value = doc.stored_fields[k].1.to_bytes();
            self.push_stored(
                StoredValue { ord, field: doc.stored_fields[k].0, kind: LocalKind::Value, value },
            );
            proof {
                let all = stored_field_values(ord, stored);
                assert(all.subrange(0, k as int + 1) =~= all.subrange(0, k as int).push(
                    all[k as int],
                ));
            }
            k += 1;
        }
        proof {
            let all = stored_field_values(ord, stored);
            assert(all.subrange(0, k as int) =~= all);
            assert(self.stored() =~= old(self).stored() + document_values(*doc, ord));
            assert forall|f: FieldId, t: Seq<u8>| #[trigger]
                self.posting(f, t) == indexed_done.posting(f, t) by {}
        }
        Ok(ord)
    }

    /// The number of documents added.
    pub fn documents(&self) -> (count: u32)
        ensures
            count == self.doc_count(),
    {
        self.doc_count
    }

    /// The terms of the segment, in the order of their ids within the segment.
    pub fn term_list(&self) -> (terms: &Vec<Term>)
        ensures
            terms@.len() == self.terms().len(),
            forall|i: int| 0 <= i < terms@.len() ==> (#[trigger] terms@[i])@ == self.terms()[i],
    {
        &self.terms
    }

    /// The number of term directories.
    pub fn directory_count(&self) -> (count: usize)
        ensures
            count == self.directories().len(),
    {
        self.directories.len()
    }

    /// The term directory at a position: its field, its term by the id within
    /// the segment, and the ordinals.
    pub fn directory(&self, i: usize) -> (directory: (FieldId, usize, &DocIdSet))
        requires
            i < self.directories().len(),
        ensures
            directory.0.0 == self.directories()[i as int].0.0,
            directory.1 == self.directories()[i as int].0.1,
            *directory.2 == self.directories()[i as int].1,
    {
        let key = self.directories.key_at(i);
        (FieldId(key.0), key.1, self.directories.value_at(i))
    }

    /// The number of fields with totals.
    pub fn totals_count(&self) -> (count: usize)
        ensures
            count == self.totals().len(),
    {
        self.field_totals.len()
    }

    /// The totals at a position, with their field.
    pub fn totals_at(&self, i: usize) -> (totals: (FieldId, FieldTotals))
        requires
            i < self.totals().len(),
        ensures
            totals.0.0 == self.totals()[i as int].0,
            totals.1 == self.totals()[i as int].1,
    {
        (FieldId(*self.field_totals.key_at(i)), *self.field_totals.value_at(i))
    }

    /// The number of values kept.
    pub fn stored_count(&self) -> (count: usize)
        ensures
            count == self.stored_values().len(),
    {
        self.stored_values.len()
    }

    /// The value kept at a position.
    pub fn stored_at(&self, i: usize) -> (value: &StoredValue)
        requires
            i < self.stored_values().len(),
        ensures
            *value == self.stored_values()[i as int],
    {
        &self.stored_values[i]
    }
}

} // verus!
