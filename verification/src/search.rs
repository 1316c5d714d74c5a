//! Evaluating a query on a segment.

use crate::assoc::{assoc_map, has_key};
use crate::doc_id_set::DocIdSet;
use crate::key::{name_total_docs, StatisticKey};
use crate::query::Query;
use crate::query::multi_term_selector::MultiTermSelector;
use crate::schema::FieldId;
use crate::segment::{deleted_in, posting_in, Segment, statistic_in};
use crate::term::{Term, TermId};
use crate::term_dictionary::TermDictionary;
use crate::write_batch::StoreModel;
use vstd::prelude::*;

verus! {

/// What a query is evaluated on: the entries of a store, the segment looked at,
/// the terms of the index with their ids, and the number of documents that the
/// segment ever took.
pub struct SearchContext {
    pub entries: StoreModel,
    pub segment: u32,
    pub terms: Seq<(Seq<u8>, TermId)>,
    pub total_docs: nat,
}

/// The ordinals of the documents of the segment that have the term in the field.
pub open spec fn term_matches(context: SearchContext, field: FieldId, term: Seq<u8>) -> Set<u16> {
    if has_key(context.terms, term) {
        posting_in(context.entries, context.segment, field, assoc_map(context.terms)[term])
    } else {
        Set::empty()
    }
}

/// The ordinals of the documents that have, in the field, one of the first `n`
/// terms of the index that the selector chooses.
pub open spec fn selected_matches(
    context: SearchContext,
    field: FieldId,
    selector: MultiTermSelector,
    n: int,
) -> Set<u16>
    decreases n,
{
    if n <= 0 {
        Set::empty()
    } else {
        let before = selected_matches(context, field, selector, n - 1);
        if selector.selects(context.terms[n - 1].0) {
            before.union(
                posting_in(context.entries, context.segment, field, context.terms[n - 1].1),
            )
        } else {
            before
        }
    }
}

/// The ordinals of the documents of a segment that match the query, deleted
/// ones among them.
pub open spec fn matches(query: Query, context: SearchContext) -> Set<u16>
    decreases query,
{
    match query {
        Query::All => Set::new(|ord: u16| ord < context.total_docs),
        Query::Nothing => Set::empty(),
        Query::Term { field, term } => term_matches(context, field, term@),
        Query::MultiTerm { field, term_selector } => selected_matches(
            context,
            field,
            term_selector,
            context.terms.len() as int,
        ),
        Query::Conjunction { queries } => if queries@.len() == 0 {
            Set::empty()
        } else {
            matches_all(queries@, queries@.len() as int, context)
        },
        Query::Disjunction { queries } => matches_any(queries@, queries@.len() as int, context),
        Query::DisjunctionMax { queries } => matches_any(queries@, queries@.len() as int, context),
        Query::Filter { query, filter } => matches(*query, context).intersect(
            matches(*filter, context),
        ),
        Query::Exclude { query, exclude } => matches(*query, context).difference(
            matches(*exclude, context),
        ),
    }
}

/// The ordinals that match every one of the first `n` queries; all of them for
/// no query.
pub open spec fn matches_all(queries: Seq<Query>, n: int, context: SearchContext) -> Set<u16>
    decreases queries, n,
{
    if n <= 0 || n > queries.len() {
        Set::full()
    } else {
        matches_all(queries, n - 1, context).intersect(matches(queries[n - 1], context))
    }
}

/// The ordinals that match one of the first `n` queries.
pub open spec fn matches_any(queries: Seq<Query>, n: int, context: SearchContext) -> Set<u16>
    decreases queries, n,
{
    if n <= 0 || n > queries.len() {
        Set::empty()
    } else {
        matches_any(queries, n - 1, context).union(matches(queries[n - 1], context))
    }
}

/// The ordinals of the documents that a search of the segment returns: those
/// that match the query and are not deleted.
pub open spec fn hits(query: Query, context: SearchContext) -> Set<u16> {
    matches(query, context).difference(deleted_in(context.entries, context.segment))
}

/// The number of documents that a segment ever took, as its statistic has it:
/// none where there is no count or the count is no number of documents.
pub open spec fn total_docs_in(entries: StoreModel, segment: u32) -> nat {
    match statistic_in(entries, segment, name_total_docs()) {
        Some(count) => if 0 <= count <= 0x1_0000 {
            count as nat
        } else {
            0
        },
        None => 0,
    }
}

/// What a query is evaluated on when a segment is searched.
pub open spec fn context_of<S: Segment>(segment: &S, dictionary: &TermDictionary) -> SearchContext {
    SearchContext {
        entries: segment.entries(),
        segment: segment.segment_id(),
        terms: dictionary.entries(),
        total_docs: total_docs_in(segment.entries(), segment.segment_id()),
    }
}

/// The ordinals below `count`.
fn first_ordinals(count: u32) -> (set: DocIdSet)
    requires
        count <= 0x1_0000,
    ensures
        set@ == Set::new(|ord: u16| ord < count),
{
    let mut set = DocIdSet::new();
    let mut ord: u32 = 0;
    while ord < count
        invariant
            ord <= count <= 0x1_0000,
            set@ == Set::new(|o: u16| o < ord),
        decreases count - ord,
    {
        set.insert(ord as u16);
        assert(set@ =~= Set::new(|o: u16| o < ord + 1));
        ord += 1;
    }
    set
}

/// Evaluates a query on a segment: the ordinals of the documents that match,
/// deleted ones among them. Fails only where the segment fails to load.
#[verifier::spinoff_prover]
pub fn evaluate<S: Segment>(
    segment: &S,
    query: &Query,
    dictionary: &TermDictionary,
    total_docs: u32,
) -> (result: Result<DocIdSet, String>)
    requires
        dictionary.wf(),
        total_docs == total_docs_in(segment.entries(), segment.segment_id()),
    ensures
        segment.reliable() ==> result is Ok,
        result matches Ok(set) ==> set@ == matches(*query, context_of(segment, dictionary)),
    decreases query,
{
    let ghost context = context_of(segment, dictionary);
    match query {
        Query::All => Ok(first_ordinals(total_docs)),
        Query::Nothing => Ok(DocIdSet::new()),
        Query::Term { field, term } => match dictionary.get(term) {
            Some(term_id) => match segment.load_term_directory(*field, term_id) {
                Ok(Some(set)) => Ok(set),
                Ok(None) => Ok(DocIdSet::new()),
                Err(error) => Err(error),
            },
            None => Ok(DocIdSet::new()),
        },
        Query::MultiTerm { field, term_selector } => {
            let mut found = DocIdSet::new();
            let mut i: usize = 0;
            while i < dictionary.len()
                invariant
                    i <= context.terms.len(),
                    context == context_of(segment, dictionary),
                    found@ == selected_matches(context, *field, *term_selector, i as int),
                decreases context.terms.len() - i,
            {
                let entry = dictionary.entry(i);
                let term = Term::from_bytes(entry.0.as_slice());
                if term_selector.matches(&term) {
                    match segment.load_term_directory(*field, entry.1) {
                        Ok(Some(set)) => {
                            found = found.union(&set);
                        },
                        Ok(None) => {
                            assert(found@.union(Set::<u16>::empty()) =~= found@);
                        },
                        Err(error) => {
                            return Err(error);
                        },
                    }
                }
                i += 1;
            }
            Ok(found)
        },
        Query::Conjunction { queries } => {
            if queries.len() == 0 {
                return Ok(DocIdSet::new());
            }
            proof {
                assert(query matches Query::Conjunction { queries: inner } && decreases_to!(*query => inner));
                assert(decreases_to!(*queries => queries[0]));
            }
            let mut found = match evaluate(segment, &queries[0], dictionary, total_docs) {
                Ok(set) => set,
                Err(error) => {
                    return Err(error);
                },
            };
            assert(found@ =~= matches_all(queries@, 1, context)) by {
                assert(matches_all(queries@, 0, context) =~= Set::full());
            }
            let mut i: usize = 1;
            while i < queries.len()
                invariant
                    1 <= i <= queries.len(),
                    dictionary.wf(),
                    total_docs == total_docs_in(segment.entries(), segment.segment_id()),
                    context == context_of(segment, dictionary),
                    *query == (Query::Conjunction { queries: *queries }),
                    found@ == matches_all(queries@, i as int, context),
                decreases queries.len() - i,
            {
                proof {
                    assert(query matches Query::Conjunction { queries: inner } && decreases_to!(*query => inner));
                    assert(decreases_to!(*queries => queries[i as int]));
                }
                match evaluate(segment, &queries[i], dictionary, total_docs) {
                    Ok(set) => {
                        found = found.intersection(&set);
                    },
                    Err(error) => {
                        return Err(error);
                    },
                }
                i += 1;
            }
            Ok(found)
        },
        Query::Disjunction { queries } => {
            let mut found = DocIdSet::new();
            let mut i: usize = 0;
            while i < queries.len()
                invariant
                    i <= queries.len(),
                    dictionary.wf(),
                    total_docs == total_docs_in(segment.entries(), segment.segment_id()),
                    context == context_of(segment, dictionary),
                    *query == (Query::Disjunction { queries: *queries }),
                    found@ == matches_any(queries@, i as int, context),
                decreases queries.len() - i,
            {
                proof {
                    assert(query matches Query::Disjunction { queries: inner } && decreases_to!(*query => inner));
                    assert(decreases_to!(*queries => queries[i as int]));
                }
                match evaluate(segment, &queries[i], dictionary, total_docs) {
                    Ok(set) => {
                        found = found.union(&set);
                    },
                    Err(error) => {
                        return Err(error);
                    },
                }
                i += 1;
            }
            Ok(found)
        },
        Query::DisjunctionMax { queries } => {
            let mut found = DocIdSet::new();
            let mut i: usize = 0;
            while i < queries.len()
                invariant
                    i <= queries.len(),
                    dictionary.wf(),
                    total_docs == total_docs_in(segment.entries(), segment.segment_id()),
                    context == context_of(segment, dictionary),
                    *query == (Query::DisjunctionMax { queries: *queries }),
                    found@ == matches_any(queries@, i as int, context),
                decreases queries.len() - i,
            {
                proof {
                    assert(query matches Query::DisjunctionMax { queries: inner } && decreases_to!(*query => inner));
                    assert(decreases_to!(*queries => queries[i as int]));
                }
                match evaluate(segment, &queries[i], dictionary, total_docs) {
                    Ok(set) => {
                        found = found.union(&set);
                    },
                    Err(error) => {
                        return Err(error);
                    },
                }
                i += 1;
            }
            Ok(found)
        },
        Query::Filter { query: inner, filter } => {
            let matched = match evaluate(segment, inner, dictionary, total_docs) {
                Ok(set) => set,
                Err(error) => {
                    return Err(error);
                },
            };
            let kept = match evaluate(segment, filter, dictionary, total_docs) {
                Ok(set) => set,
                Err(error) => {
                    return Err(error);
                },
            };
            Ok(matched.intersection(&kept))
        },
        Query::Exclude { query: inner, exclude } => {
            let matched = match evaluate(segment, inner, dictionary, total_docs) {
                Ok(set) => set,
                Err(error) => {
                    return Err(error);
                },
            };
            let dropped = match evaluate(segment, exclude, dictionary, total_docs) {
                Ok(set) => set,
                Err(error) => {
                    return Err(error);
                },
            };
            Ok(matched.exclusion(&dropped))
        },
    }
}

/// Searches a segment: the ordinals of the documents that match the query and
/// are not deleted. Fails only where the segment fails to load.
pub fn search_segment<S: Segment>(segment: &S, query: &Query, dictionary: &TermDictionary) -> (result:
    Result<DocIdSet, String>)
    requires
        dictionary.wf(),
    ensures
        segment.reliable() ==> result is Ok,
        result matches Ok(set) ==> {
            &&& set@ == hits(*query, context_of(segment, dictionary))
            &&& forall|ord: u16|
                deleted_in(segment.entries(), segment.segment_id()).contains(ord)
                    ==> !set@.contains(ord)
        },
{
    let name = StatisticKey::TotalDocs.to_bytes();
    let total_docs: u32 = match segment.load_statistic(name.as_slice()) {
        Ok(Some(count)) => if 0 <= count && count <= 0x1_0000 {
            count as u32
        } else {
            0
        },
        Ok(None) => 0,
        Err(error) => {
            return Err(error);
        },
    };
    let matched = match evaluate(segment, query, dictionary, total_docs) {
        Ok(set) => set,
        Err(error) => {
            return Err(error);
        },
    };
    match segment.load_deletion_list() {
        Ok(Some(deleted)) => Ok(matched.exclusion(&deleted)),
        Ok(None) => {
            assert(matched@.difference(Set::<u16>::empty()) =~= matched@);
            Ok(matched)
        },
        Err(error) => Err(error),
    }
}

/// Why a search of segments failed.
#[derive(Debug, PartialEq, Eq)]
pub enum SearchError {
    /// A segment is given twice.
    SegmentTwice(u32),
    /// A segment failed to load.
    Load(String),
}

/// No two of the segments have one id.
pub open spec fn distinct_segments<S: Segment>(segments: Seq<S>) -> bool {
    forall|i: int, j: int|
        0 <= i < segments.len() && 0 <= j < segments.len() && i != j ==> segments[i].segment_id()
            != segments[j].segment_id()
}

/// The first of the segments that has the id of a later one, if there is one.
fn repeated_segment<S: Segment>(segments: &Vec<S>) -> (twice: Option<u32>)
    ensures
        match twice {
            Some(id) => exists|i: int, j: int|
                0 <= i < j < segments@.len() && segments@[i].segment_id() == id
                    && segments@[j].segment_id() == id,
            None => distinct_segments(segments@),
        },
{
    let mut i: usize = 0;
    while i < segments.len()
        invariant
            i <= segments.len(),
            forall|a: int, b: int|
                0 <= a < i && a < b < segments@.len() ==> segments@[a].segment_id()
                    != segments@[b].segment_id(),
        decreases segments.len() - i,
    {
        let id = segments[i].id();
        let mut j: usize = i + 1;
        while j < segments.len()
            invariant
                i < j <= segments.len(),
                id == segments@[i as int].segment_id(),
                forall|b: int| i < b < j ==> segments@[b].segment_id() != id,
            decreases segments.len() - j,
        {
            if segments[j].id() == id {
                return Some(id);
            }
            j += 1;
        }
        i += 1;
    }
    None
}

/// Searches segments: for each of them, in their order, its id and the
/// ordinals of the documents that match the query and are not deleted. Fails
/// where a segment is given twice, and where a segment fails to load.
pub fn search_all<S: Segment>(segments: &Vec<S>, query: &Query, dictionary: &TermDictionary) -> (result:
    Result<Vec<(u32, DocIdSet)>, SearchError>)
    requires
        dictionary.wf(),
    ensures
        match result {
            Ok(found) => {
                &&& distinct_segments(segments@)
                &&& found@.len() == segments@.len()
                &&& forall|i: int|
                    0 <= i < segments@.len() ==> (#[trigger] found@[i]).0
                        == segments@[i].segment_id() && found@[i].1@ == hits(
                        *query,
                        context_of(&segments@[i], dictionary),
                    )
                &&& forall|i: int, j: int|
                    0 <= i < found@.len() && 0 <= j < found@.len() && i != j ==> found@[i].0
                        != found@[j].0
            },
            Err(SearchError::SegmentTwice(id)) => exists|i: int, j: int|
                0 <= i < j < segments@.len() && segments@[i].segment_id() == id
                    && segments@[j].segment_id() == id,
            Err(SearchError::Load(_)) => distinct_segments(segments@) && exists|i: int|
                0 <= i < segments@.len() && !(#[trigger] segments@[i]).reliable(),
        },
{
    match repeated_segment(segments) {
        Some(id) => {
            return Err(SearchError::SegmentTwice(id));
        },
        None => {},
    }
    let mut found: Vec<(u32, DocIdSet)> = Vec::new();
    let mut i: usize = 0;
    while i < segments.len()
        invariant
            i <= segments.len(),
            dictionary.wf(),
            distinct_segments(segments@),
            found@.len() == i,
            forall|k: int|
                0 <= k < i ==> (#[trigger] found@[k]).0 == segments@[k].segment_id() && found@[k].1@
                    == hits(*query, context_of(&segments@[k], dictionary)),
        decreases segments.len() - i,
    {
        let set = match search_segment(&segments[i], query, dictionary) {
            Ok(set) => set,
            Err(error) => {
                assert(!segments@[i as int].reliable());
                return Err(SearchError::Load(error));
            },
        };
        found.push((segments[i].id(), set));
        i += 1;
    }
    Ok(found)
}

} // verus!
