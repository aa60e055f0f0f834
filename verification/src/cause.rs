use vstd::prelude::*;

use crate::id::Id;

verus! {

/// Why a fact is in a dataset.
#[derive(Debug, Clone, Copy, PartialEq, Eq, Structural, Hash, PartialOrd, Ord)]
pub enum Cause {
    /// Stated in the given input.
    Stated(u32),
    /// Entailed by the given entailment.
    Entailed(u32),
}

impl Cause {
    pub fn into_entailed(self) -> (r: Option<u32>)
        ensures
            r == (match self {
                Cause::Stated(_) => None,
                Cause::Entailed(i) => Some(i),
            }),
    {
        match self {
            Cause::Stated(_) => None,
            Cause::Entailed(i) => Some(i),
        }
    }
}

/// Triple entailment.
#[derive(Debug, Clone, PartialEq, Eq, Hash, PartialOrd, Ord)]
pub struct Entailment {
    /// Rule identifier.
    pub rule: Id,
    /// Rule variables substitution.
    pub substitution: Vec<Id>,
}

/// An entailment by its rule and substitution.
pub open spec fn entailment_view(e: Entailment) -> (Id, Seq<Id>) {
    (e.rule, e.substitution@)
}

impl Entailment {
    pub fn new(rule: Id, substitution: Vec<Id>) -> (r: Entailment)
        ensures
            r.rule == rule,
            r.substitution@ == substitution@,
    {
        Entailment { rule, substitution }
    }
}

} // verus!
