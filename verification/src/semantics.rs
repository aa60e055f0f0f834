//! Statements deduced by a semantics, and how far they are trusted.
use vstd::prelude::*;

use crate::id::Id;
use crate::triple::{replaced_id, replaced_quad, Quad, Triple};

verus! {

/// Statement about a triple: the triple itself, or the equality of two
/// resources.
#[derive(Debug, Clone, Copy, PartialEq, Eq, Structural, PartialOrd, Ord, Hash)]
pub enum TripleStatement {
    Triple(Triple),
    Eq(Id, Id),
}

/// Statement in a graph: a quad, or the equality of two resources in the
/// given graph.
#[derive(Debug, Clone, Copy, PartialEq, Eq, Structural)]
pub enum QuadStatement {
    Quad(Quad),
    Eq(Id, Id, Option<Id>),
}

impl TripleStatement {
    /// The statement, in the given graph.
    pub fn with_graph(self, g: Option<Id>) -> (r: QuadStatement)
        ensures
            r == (match self {
                TripleStatement::Triple(t) => QuadStatement::Quad(Quad(t.0, t.1, t.2, g)),
                TripleStatement::Eq(a, b) => QuadStatement::Eq(a, b, g),
            }),
    {
        match self {
            TripleStatement::Triple(t) => QuadStatement::Quad(t.into_quad(g)),
            TripleStatement::Eq(a, b) => QuadStatement::Eq(a, b, g),
        }
    }
}

/// The statement with every occurrence of `b` replaced by `a`.
pub open spec fn replaced_statement(s: QuadStatement, a: Id, b: Id) -> QuadStatement {
    match s {
        QuadStatement::Quad(q) => QuadStatement::Quad(replaced_quad(q, a, b)),
        QuadStatement::Eq(c, d, g) => QuadStatement::Eq(
            replaced_id(c, a, b),
            replaced_id(d, a, b),
            match g {
                Some(g) => Some(replaced_id(g, a, b)),
                None => None,
            },
        ),
    }
}

fn replaced(x: Id, a: Id, b: Id) -> (r: Id)
    ensures
        r == replaced_id(x, a, b),
{
    if x == b {
        a
    } else {
        x
    }
}

impl QuadStatement {
    /// Replaces every occurrence of `b` with `a`.
    pub fn replace_id(&mut self, a: Id, b: Id)
        ensures
            *final(self) == replaced_statement(*old(self), a, b),
    {
        let s = *self;
        *self = match s {
            QuadStatement::Quad(q) => {
                let mut q = q;
                q.replace_id(a, b);
                QuadStatement::Quad(q)
            },
            QuadStatement::Eq(c, d, g) => QuadStatement::Eq(
                replaced(c, a, b),
                replaced(d, a, b),
                match g {
                    Some(g) => Some(replaced(g, a, b)),
                    None => None,
                },
            ),
        };
    }
}

/// Whether a deduced statement can be believed as it stands.
#[derive(Debug, Clone, Copy, PartialEq, Eq, Structural, PartialOrd, Ord, Hash)]
pub enum Trust {
    Trusted,
    Untrusted,
}

impl Trust {
    /// Equality of two trusts.
    pub fn same_as(&self, other: &Trust) -> (r: bool)
        ensures
            r <==> *self == *other,
    {
        match (self, other) {
            (Trust::Trusted, Trust::Trusted) => true,
            (Trust::Untrusted, Trust::Untrusted) => true,
            _ => false,
        }
    }

    pub fn is_trusted(&self) -> (r: bool)
        ensures
            r <==> *self == Trust::Trusted,
    {
        match self {
            Trust::Trusted => true,
            Trust::Untrusted => false,
        }
    }

    pub fn is_untrusted(&self) -> (r: bool)
        ensures
            r <==> *self == Trust::Untrusted,
    {
        match self {
            Trust::Trusted => false,
            Trust::Untrusted => true,
        }
    }
}

/// A value, trusted or not.
#[derive(Debug, Clone, Copy, PartialEq, Eq, PartialOrd, Ord, Hash)]
pub enum MaybeTrusted<T> {
    Trusted(T),
    Untrusted(T),
}

/// The value of a possibly trusted value.
pub open spec fn spec_value<T>(m: MaybeTrusted<T>) -> T {
    match m {
        MaybeTrusted::Trusted(t) => t,
        MaybeTrusted::Untrusted(t) => t,
    }
}

/// `u`, trusted exactly when `m` is.
pub open spec fn trusted_like<T, U>(m: MaybeTrusted<T>, u: U) -> MaybeTrusted<U> {
    match m {
        MaybeTrusted::Trusted(_) => MaybeTrusted::Trusted(u),
        MaybeTrusted::Untrusted(_) => MaybeTrusted::Untrusted(u),
    }
}

/// The trust of a possibly trusted value.
pub open spec fn spec_trust<T>(m: MaybeTrusted<T>) -> Trust {
    match m {
        MaybeTrusted::Trusted(_) => Trust::Trusted,
        MaybeTrusted::Untrusted(_) => Trust::Untrusted,
    }
}

impl<T> MaybeTrusted<T> {
    pub fn new(value: T, trust: Trust) -> (r: MaybeTrusted<T>)
        ensures
            spec_value(r) == value,
            spec_trust(r) == trust,
    {
        match trust {
            Trust::Trusted => MaybeTrusted::Trusted(value),
            Trust::Untrusted => MaybeTrusted::Untrusted(value),
        }
    }

    pub fn value(&self) -> (r: &T)
        ensures
            *r == spec_value(*self),
    {
        match self {
            MaybeTrusted::Trusted(t) => t,
            MaybeTrusted::Untrusted(t) => t,
        }
    }

    pub fn as_parts(&self) -> (r: (&T, Trust))
        ensures
            *r.0 == spec_value(*self),
            r.1 == spec_trust(*self),
    {
        match self {
            MaybeTrusted::Trusted(t) => (t, Trust::Trusted),
            MaybeTrusted::Untrusted(t) => (t, Trust::Untrusted),
        }
    }

    pub fn into_parts(self) -> (r: (T, Trust))
        ensures
            r.0 == spec_value(self),
            r.1 == spec_trust(self),
    {
        match self {
            MaybeTrusted::Trusted(t) => (t, Trust::Trusted),
            MaybeTrusted::Untrusted(t) => (t, Trust::Untrusted),
        }
    }

    /// Applies `f` to the value, keeping the trust.
    pub fn map<U>(self, f: impl FnOnce(T) -> U) -> (r: MaybeTrusted<U>)
        requires
            f.requires((spec_value(self),)),
        ensures
            spec_trust(r) == spec_trust(self),
            f.ensures((spec_value(self),), spec_value(r)),
    {
        match self {
            MaybeTrusted::Trusted(t) => MaybeTrusted::Trusted(f(t)),
            MaybeTrusted::Untrusted(t) => MaybeTrusted::Untrusted(f(t)),
        }
    }
}

/// Putting a value back together from its parts gives it back.
pub proof fn lemma_parts_round_trip<T>(m: MaybeTrusted<T>)
    ensures
        (match spec_trust(m) {
            Trust::Trusted => MaybeTrusted::Trusted(spec_value(m)),
            Trust::Untrusted => MaybeTrusted::Untrusted(spec_value(m)),
        }) == m,
{
}

} // verus!
