use vstd::prelude::*;

verus! {

/// Interpreted resource identifier.
#[derive(Debug, Clone, Copy, PartialEq, Eq, Structural, Hash, PartialOrd, Ord)]
pub struct Id(pub u32);

impl Id {
    /// Index of the resource, as a `usize`.
    pub fn index(&self) -> (r: usize)
        ensures
            r as int == self.0 as int,
    {
        self.0 as usize
    }

    /// Wraps a raw identifier.
    pub fn from_u32(value: u32) -> (r: Id)
        ensures
            r.0 == value,
    {
        Id(value)
    }

    /// The raw identifier.
    pub fn into_u32(self) -> (r: u32)
        ensures
            r == self.0,
    {
        self.0
    }
}

} // verus!
