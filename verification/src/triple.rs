use vstd::prelude::*;

use crate::id::Id;

verus! {

/// Interpreted RDF triple (subject, predicate, object).
#[derive(Debug, Clone, Copy, PartialEq, Eq, Structural, Hash, PartialOrd, Ord)]
pub struct Triple(pub Id, pub Id, pub Id);

/// Interpreted RDF quad (subject, predicate, object, optional graph).
#[derive(Debug, Clone, Copy, PartialEq, Eq, Structural, Hash, PartialOrd, Ord)]
pub struct Quad(pub Id, pub Id, pub Id, pub Option<Id>);

/// A value with attached metadata.
#[derive(Debug, Clone, Copy, PartialEq, Eq, Hash, PartialOrd, Ord)]
pub struct Meta<T, M>(pub T, pub M);

/// `x`, with `b` replaced by `a`.
pub open spec fn replaced_id(x: Id, a: Id, b: Id) -> Id {
    if x == b {
        a
    } else {
        x
    }
}

/// The triple with every occurrence of `b` replaced by `a`.
pub open spec fn replaced_triple(t: Triple, a: Id, b: Id) -> Triple {
    Triple(replaced_id(t.0, a, b), replaced_id(t.1, a, b), replaced_id(t.2, a, b))
}

/// The quad with every occurrence of `b` replaced by `a`.
pub open spec fn replaced_quad(q: Quad, a: Id, b: Id) -> Quad {
    Quad(
        replaced_id(q.0, a, b),
        replaced_id(q.1, a, b),
        replaced_id(q.2, a, b),
        match q.3 {
            Some(g) => Some(replaced_id(g, a, b)),
            None => None,
        },
    )
}

fn replace_in_id(x: &mut Id, a: Id, b: Id)
    ensures
        *final(x) == replaced_id(*old(x), a, b),
{
    if *x == b {
        *x = a;
    }
}

impl Triple {
    /// Replaces every occurrence of `b` with `a`.
    pub fn replace_id(&mut self, a: Id, b: Id)
        ensures
            *final(self) == replaced_triple(*old(self), a, b),
    {
        replace_in_id(&mut self.0, a, b);
        replace_in_id(&mut self.1, a, b);
        replace_in_id(&mut self.2, a, b);
    }

    pub fn new(s: Id, p: Id, o: Id) -> (r: Triple)
        ensures
            r == Triple(s, p, o),
    {
        Triple(s, p, o)
    }

    pub fn subject(&self) -> (r: Id)
        ensures
            r == self.0,
    {
        self.0
    }

    pub fn predicate(&self) -> (r: Id)
        ensures
            r == self.1,
    {
        self.1
    }

    pub fn object(&self) -> (r: Id)
        ensures
            r == self.2,
    {
        self.2
    }

    /// Puts the triple in the given graph.
    pub fn into_quad(self, g: Option<Id>) -> (r: Quad)
        ensures
            r == Quad(self.0, self.1, self.2, g),
    {
        Quad(self.0, self.1, self.2, g)
    }

    /// Component-wise equality.
    pub fn eq(&self, other: &Triple) -> (r: bool)
        ensures
            r <==> *self == *other,
    {
        self.0 == other.0 && self.1 == other.1 && self.2 == other.2
    }
}

impl Quad {
    /// Replaces every occurrence of `b` with `a`.
    pub fn replace_id(&mut self, a: Id, b: Id)
        ensures
            *final(self) == replaced_quad(*old(self), a, b),
    {
        replace_in_id(&mut self.0, a, b);
        replace_in_id(&mut self.1, a, b);
        replace_in_id(&mut self.2, a, b);
        if let Some(g) = &mut self.3 {
            replace_in_id(g, a, b);
        }
    }

    pub fn new(s: Id, p: Id, o: Id, g: Option<Id>) -> (r: Quad)
        ensures
            r == Quad(s, p, o, g),
    {
        Quad(s, p, o, g)
    }

    /// Splits the quad into its triple and graph.
    pub fn into_triple(self) -> (r: (Triple, Option<Id>))
        ensures
            r.0 == Triple(self.0, self.1, self.2),
            r.1 == self.3,
    {
        (Triple(self.0, self.1, self.2), self.3)
    }

    pub fn graph(&self) -> (r: Option<Id>)
        ensures
            r == self.3,
    {
        self.3
    }
}

} // verus!
