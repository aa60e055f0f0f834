use vstd::prelude::*;

verus! {

/// Polarity of a statement: asserted (positive) or denied (negative).
#[derive(Debug, Clone, Copy, PartialEq, Eq, Structural, Hash, PartialOrd, Ord)]
pub enum Sign {
    Positive,
    Negative,
}

impl Sign {
    pub fn is_positive(&self) -> (r: bool)
        ensures
            r <==> *self == Sign::Positive,
    {
        match self {
            Sign::Positive => true,
            Sign::Negative => false,
        }
    }

    pub fn is_negative(&self) -> (r: bool)
        ensures
            r <==> *self == Sign::Negative,
    {
        match self {
            Sign::Positive => false,
            Sign::Negative => true,
        }
    }

    /// Equality of two signs.
    pub fn same_as(&self, other: &Sign) -> (r: bool)
        ensures
            r <==> *self == *other,
    {
        match (self, other) {
            (Sign::Positive, Sign::Positive) => true,
            (Sign::Negative, Sign::Negative) => true,
            _ => false,
        }
    }
}

/// A value together with its polarity.
#[derive(Debug, Clone, Copy, Hash, PartialOrd, Ord, PartialEq, Eq)]
pub struct Signed<T>(pub Sign, pub T);

impl<T> Signed<T> {
    pub fn sign(&self) -> (r: Sign)
        ensures
            r == self.0,
    {
        self.0
    }

    pub fn value(&self) -> (r: &T)
        ensures
            *r == self.1,
    {
        &self.1
    }

    pub fn into_value(self) -> (r: T)
        ensures
            r == self.1,
    {
        self.1
    }

    pub fn is_positive(&self) -> (r: bool)
        ensures
            r <==> self.0 == Sign::Positive,
    {
        self.0.is_positive()
    }

    pub fn is_negative(&self) -> (r: bool)
        ensures
            r <==> self.0 == Sign::Negative,
    {
        self.0.is_negative()
    }
}

} // verus!
