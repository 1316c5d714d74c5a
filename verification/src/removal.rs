//! What a search finds after a document is taken out of the index.

use crate::document::DocId;
use crate::document_index::{deletion_list_whole, lemma_tombstone_deletes, tombstone};
use crate::key::{
    KeyModel, name_deleted_docs, name_total_docs, TAG_DELETION_LIST, TAG_STATISTIC,
    TAG_TERM_DIRECTORY, TAG_UNIQUE_KEY,
};
use crate::merged::context_in;
use crate::query::Query;
use crate::query::multi_term_selector::MultiTermSelector;
use crate::schema::FieldId;
use crate::search::{hits, matches_all, matches_any, SearchContext, selected_matches};
use crate::segment::{
    deleted_in, deletion_list_key, posting_in, statistic_in, statistic_key, term_directory_key,
};
use crate::term::TermId;
use crate::write_batch::{
    apply_batch, lemma_apply_concat, lemma_apply_push, lemma_apply_untouched, OpModel, stored,
    StoreModel,
};
use vstd::prelude::*;

verus! {

/// A search never returns a deleted document, whatever the query.
pub proof fn lemma_deleted_is_not_found(query: Query, context: SearchContext, ord: u16)
    requires
        deleted_in(context.entries, context.segment).contains(ord),
    ensures
        !hits(query, context).contains(ord),
{
}

/// A search for all documents returns every document of the segment that is
/// not deleted, and no other.
pub proof fn lemma_all_finds_the_rest(context: SearchContext, ord: u16)
    ensures
        hits(Query::All, context).contains(ord) <==> ord < context.total_docs && !deleted_in(
            context.entries,
            context.segment,
        ).contains(ord),
{
}

/// Two searches look at the same segment with the same terms, and read the
/// same number of documents and the same term directories.
pub open spec fn reads_alike(a: SearchContext, b: SearchContext) -> bool {
    &&& a.segment == b.segment
    &&& a.terms == b.terms
    &&& a.total_docs == b.total_docs
    &&& forall|field: FieldId, term: TermId| #[trigger]
        posting_in(a.entries, a.segment, field, term) == posting_in(
            b.entries,
            b.segment,
            field,
            term,
        )
}

/// Searches that read alike select the same documents by a selector.
pub proof fn lemma_selected_alike(
    a: SearchContext,
    b: SearchContext,
    field: FieldId,
    selector: MultiTermSelector,
    n: int,
)
    requires
        reads_alike(a, b),
    ensures
        selected_matches(a, field, selector, n) == selected_matches(b, field, selector, n),
    decreases n,
{
    if n > 0 {
        lemma_selected_alike(a, b, field, selector, n - 1);
    }
}

/// Searches that read alike match the same documents, whatever the query.
pub proof fn lemma_matches_alike(query: Query, a: SearchContext, b: SearchContext)
    requires
        reads_alike(a, b),
    ensures
        crate::search::matches(query, a) == crate::search::matches(query, b),
    decreases query,
{
    match query {
        Query::All => {},
        Query::Nothing => {},
        Query::Term { field, term } => {},
        Query::MultiTerm { field, term_selector } => {
            lemma_selected_alike(a, b, field, term_selector, a.terms.len() as int);
        },
        Query::Conjunction { queries } => {
            lemma_all_alike(queries@, queries@.len() as int, a, b);
        },
        Query::Disjunction { queries } => {
            lemma_any_alike(queries@, queries@.len() as int, a, b);
        },
        Query::DisjunctionMax { queries } => {
            lemma_any_alike(queries@, queries@.len() as int, a, b);
        },
        Query::Filter { query, filter } => {
            lemma_matches_alike(*query, a, b);
            lemma_matches_alike(*filter, a, b);
        },
        Query::Exclude { query, exclude } => {
            lemma_matches_alike(*query, a, b);
            lemma_matches_alike(*exclude, a, b);
        },
    }
}

/// Searches that read alike match the same documents by every one of the
/// first `n` queries.
pub proof fn lemma_all_alike(queries: Seq<Query>, n: int, a: SearchContext, b: SearchContext)
    requires
        reads_alike(a, b),
    ensures
        matches_all(queries, n, a) == matches_all(queries, n, b),
    decreases queries, n,
{
    if 0 < n <= queries.len() {
        lemma_all_alike(queries, n - 1, a, b);
        lemma_matches_alike(queries[n - 1], a, b);
    }
}

/// Searches that read alike match the same documents by one of the first `n`
/// queries.
pub proof fn lemma_any_alike(queries: Seq<Query>, n: int, a: SearchContext, b: SearchContext)
    requires
        reads_alike(a, b),
    ensures
        matches_any(queries, n, a) == matches_any(queries, n, b),
    decreases queries, n,
{
    if 0 < n <= queries.len() {
        lemma_any_alike(queries, n - 1, a, b);
        lemma_matches_alike(queries[n - 1], a, b);
    }
}

/// The writes that take the document of a key out of the index.
pub open spec fn removal(key: Seq<u8>, doc_id: DocId) -> Seq<OpModel> {
    seq![OpModel::Delete { key: (KeyModel::UniqueKey { key }).encoding() }] + tombstone(doc_id)
}

/// Taking a document out of the index changes what a search finds by that
/// document alone: a search of its segment returns what it returned before
/// without the document, and a search of another segment what it returned
/// before.
#[verifier::spinoff_prover]
pub proof fn lemma_removal_keeps_the_rest(
    store: StoreModel,
    key: Seq<u8>,
    doc_id: DocId,
    query: Query,
    segment: u32,
    terms: Seq<(Seq<u8>, TermId)>,
)
    requires
        deletion_list_whole(store, doc_id.0.0),
    ensures
        hits(query, context_in(apply_batch(store, removal(key, doc_id)), segment, terms)) == (
        if segment == doc_id.0.0 {
            hits(query, context_in(store, segment, terms)).remove(doc_id.1)
        } else {
            hits(query, context_in(store, segment, terms))
        }),
{
    let unique = (KeyModel::UniqueKey { key }).encoding();
    let first = seq![OpModel::Delete { key: unique }];
    let batch = removal(key, doc_id);
    let after = apply_batch(store, batch);
    let midway = apply_batch(store, first);
    lemma_apply_concat(store, first, tombstone(doc_id));
    assert(Seq::<OpModel>::empty().push(OpModel::Delete { key: unique }) =~= first);
    lemma_apply_push(store, Seq::empty(), OpModel::Delete { key: unique });
    assert(apply_batch(store, Seq::<OpModel>::empty()) == store);
    assert(midway == store.remove(unique));
    assert(unique[0] == TAG_UNIQUE_KEY);
    // The deletion lists are those of the store, with the document.
    assert forall|which: u32| stored(midway, #[trigger] deletion_list_key(which)) == stored(
        store,
        deletion_list_key(which),
    ) by {
        assert(deletion_list_key(which)[0] == TAG_DELETION_LIST);
    }
    lemma_tombstone_deletes(midway, doc_id);
    assert(deleted_in(after, segment) == (if segment == doc_id.0.0 {
        deleted_in(store, segment).insert(doc_id.1)
    } else {
        deleted_in(store, segment)
    }));
    // The term directories and the number of documents are those of the store.
    let a = context_in(after, segment, terms);
    let b = context_in(store, segment, terms);
    assert forall|about: Seq<u8>|
        about.len() > 0 && about != unique && about != tombstone(doc_id)[0].arrow_Merge_key()
            && about != tombstone(doc_id)[1].arrow_Merge_key() implies stored(after, about)
        == stored(store, about) by {
        assert(stored(midway, about) == stored(store, about));
        lemma_apply_untouched(midway, tombstone(doc_id), about);
    }
    assert forall|field: FieldId, term: TermId| #[trigger]
        posting_in(a.entries, a.segment, field, term) == posting_in(
            b.entries,
            b.segment,
            field,
            term,
        ) by {
        let about = term_directory_key(segment, field, term);
        assert(about[0] == TAG_TERM_DIRECTORY);
        assert(tombstone(doc_id)[0].arrow_Merge_key()[0] == TAG_DELETION_LIST);
        assert(tombstone(doc_id)[1].arrow_Merge_key()[0] == TAG_STATISTIC);
    }
    assert(statistic_in(after, segment, name_total_docs()) == statistic_in(
        store,
        segment,
        name_total_docs(),
    )) by {
        let about = statistic_key(segment, name_total_docs());
        assert(about[0] == TAG_STATISTIC);
        assert(about.len() == 5 + name_total_docs().len());
        assert(tombstone(doc_id)[0].arrow_Merge_key()[0] == TAG_DELETION_LIST);
        let counter = tombstone(doc_id)[1].arrow_Merge_key();
        assert(counter.len() == 5 + name_deleted_docs().len());
    }
    assert(reads_alike(a, b));
    lemma_matches_alike(query, a, b);
    assert(hits(query, a) =~= (if segment == doc_id.0.0 {
        hits(query, b).remove(doc_id.1)
    } else {
        hits(query, b)
    }));
}

} // verus!
