//! Queries: which documents to find.

pub mod multi_term_selector;

use crate::query::multi_term_selector::MultiTermSelector;
use crate::schema::FieldId;
use crate::term::Term;
use vstd::prelude::*;

verus! {

/// A query, as far as it says which documents match.
#[derive(Debug, PartialEq)]
pub enum Query {
    /// Every document.
    All,
    /// No document.
    Nothing,
    /// The documents that have the term in the field.
    Term { field: FieldId, term: Term },
    /// The documents that have one of the chosen terms in the field.
    MultiTerm { field: FieldId, term_selector: MultiTermSelector },
    /// The documents that match every one of the queries; none where there is
    /// no query.
    Conjunction { queries: Vec<Query> },
    /// The documents that match one of the queries.
    Disjunction { queries: Vec<Query> },
    /// The documents that match one of the queries. Differs from a disjunction
    /// in how a document is scored only.
    DisjunctionMax { queries: Vec<Query> },
    /// The documents that match both the query and the filter.
    Filter { query: Box<Query>, filter: Box<Query> },
    /// The documents that match the query and not the other.
    Exclude { query: Box<Query>, exclude: Box<Query> },
}

impl Query {
    /// The query that every document matches.
    pub fn all() -> (query: Query)
        ensures
            query == Query::All,
    {
        Query::All
    }

    /// The query for the documents that hold a term in a field.
    pub fn term(field: FieldId, term: Term) -> (query: Query)
        ensures
            query == (Query::Term { field, term }),
    {
        Query::Term { field, term }
    }

    /// This query, kept to the documents that `filter` matches too.
    pub fn filter(self, filter: Query) -> (query: Query)
        ensures
            query == (Query::Filter { query: Box::new(self), filter: Box::new(filter) }),
    {
        Query::Filter { query: Box::new(self), filter: Box::new(filter) }
    }

    /// This query, without the documents that `exclude` matches.
    pub fn exclude(self, exclude: Query) -> (query: Query)
        ensures
            query == (Query::Exclude { query: Box::new(self), exclude: Box::new(exclude) }),
    {
        Query::Exclude { query: Box::new(self), exclude: Box::new(exclude) }
    }
}

} // verus!
