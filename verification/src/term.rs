//! Terms: the byte strings that documents are indexed under.

use vstd::prelude::*;
use vstd::utf8::encode_utf8;

verus! {

/// Identifies a term. Term ids are handed out in increasing order; once a term
/// has its id, the two stay together.
#[derive(Clone, Copy, Debug, PartialEq, Eq, Hash, Structural)]
pub struct TermId(pub u32);

/// A copy of the bytes.
pub fn copy_bytes(bytes: &[u8]) -> (copy: Vec<u8>)
    ensures
        copy@ == bytes@,
{
    let mut copy: Vec<u8> = Vec::new();
    let mut i: usize = 0;
    while i < bytes.len()
        invariant
            i <= bytes.len(),
            copy@ == bytes@.subrange(0, i as int),
        decreases bytes.len() - i,
    {
        copy.push(bytes[i]);
        assert(bytes@.subrange(0, i as int).push(bytes@[i as int]) =~= bytes@.subrange(
            0,
            i as int + 1,
        ));
        i += 1;
    }
    assert(bytes@.subrange(0, i as int) =~= bytes@);
    copy
}

/// A term: UTF-8 for text, raw bytes otherwise.
#[derive(Debug, PartialEq, Eq, Hash)]
pub struct Term(Vec<u8>);

impl View for Term {
    type V = Seq<u8>;

    closed spec fn view(&self) -> Seq<u8> {
        self.0@
    }
}

impl Term {
    /// The term of the bytes.
    pub fn from_bytes(bytes: &[u8]) -> (term: Term)
        ensures
            term@ == bytes@,
    {
        Term(copy_bytes(bytes))
    }

    /// The term whose bytes are the UTF-8 encoding of `string`.
    pub fn from_string(string: &str) -> (term: Term)
        ensures
            term@ == encode_utf8(string@),
    {
        Term(copy_bytes(string.as_bytes()))
    }

    /// The bytes of the term.
    pub fn as_bytes(&self) -> (bytes: &[u8])
        ensures
            bytes@ == self@,
    {
        self.0.as_slice()
    }
}

impl Clone for Term {
    fn clone(&self) -> (copy: Term)
        ensures
            copy@ == self@,
    {
        Term(copy_bytes(self.0.as_slice()))
    }
}

} // verus!
