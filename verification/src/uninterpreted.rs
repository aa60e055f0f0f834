//! RDF terms before interpretation, by vocabulary index.
use vstd::prelude::*;

verus! {

/// RDF term: an IRI, a blank node identifier or a literal, each given by
/// its index in the vocabulary.
#[derive(Debug, Clone, Copy, PartialEq, Eq, Structural, Hash, PartialOrd, Ord)]
pub enum Term {
    Iri(u32),
    Blank(u32),
    Literal(u32),
}

/// RDF triple of terms.
#[derive(Debug, Clone, Copy, PartialEq, Eq, Structural, Hash, PartialOrd, Ord)]
pub struct Triple(pub Term, pub Term, pub Term);

/// RDF quad of terms, with an optional graph.
#[derive(Debug, Clone, Copy, PartialEq, Eq, Structural, Hash, PartialOrd, Ord)]
pub struct Quad(pub Term, pub Term, pub Term, pub Option<Term>);

impl Triple {
    pub fn new(s: Term, p: Term, o: Term) -> (r: Triple)
        ensures
            r == Triple(s, p, o),
    {
        Triple(s, p, o)
    }
}

} // verus!
