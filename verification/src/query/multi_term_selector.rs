//! Selecting several terms at once.

use crate::key::starts_with;
use crate::term::Term;
use vstd::prelude::*;
use vstd::utf8::encode_utf8;

verus! {

/// A choice of terms.
#[derive(Debug, PartialEq)]
pub enum MultiTermSelector {
    /// The terms that begin with the text.
    Prefix(String),
}

impl MultiTermSelector {
    /// The selector chooses the term.
    pub open spec fn selects(&self, term: Seq<u8>) -> bool {
        match *self {
            MultiTermSelector::Prefix(prefix) => encode_utf8(prefix@).len() <= term.len()
                && term.subrange(0, encode_utf8(prefix@).len() as int) == encode_utf8(prefix@),
        }
    }

    /// Whether the selector chooses the term.
    pub fn matches(&self, term: &Term) -> (chosen: bool)
        ensures
            chosen == self.selects(term@),
    {
        match self {
            MultiTermSelector::Prefix(prefix) => {
                return starts_with(term.as_bytes(), prefix.as_str().as_bytes());
            },
        }
    }
}

} // verus!
