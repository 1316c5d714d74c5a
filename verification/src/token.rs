//! Tokens: terms at positions.

use crate::term::Term;
use vstd::prelude::*;

verus! {

/// A term at a position of a field's text.
#[derive(Debug, PartialEq)]
pub struct Token {
    pub term: Term,
    pub position: u32,
}

impl Clone for Token {
    fn clone(&self) -> (copy: Token)
        ensures
            copy.term@ == self.term@,
            copy.position == self.position,
    {
        Token { term: self.term.clone(), position: self.position }
    }
}

} // verus!
