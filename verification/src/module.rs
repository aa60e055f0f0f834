//! Modules: interpretations and datasets that can be composed.
use vstd::prelude::*;

use crate::class::classification::LocalClassification;
use crate::dataset::standard::Standard;
use crate::interpretation::local::Interpretation;

pub mod sub_module;

verus! {

/// A module of its own: its interpretation, its dataset and the
/// classification of its anonymous resources.
pub struct LocalModule {
    pub interpretation: Interpretation,
    pub dataset: Standard,
    pub classification: LocalClassification,
}

impl LocalModule {
    pub fn new(interpretation: Interpretation, dataset: Standard, classification: LocalClassification) -> (r: LocalModule)
        ensures
            r == (LocalModule { interpretation, dataset, classification }),
    {
        LocalModule { interpretation, dataset, classification }
    }
}

/// A module of its own, borrowed part by part.
pub struct LocalModuleRef<'r> {
    pub interpretation: &'r Interpretation,
    pub dataset: &'r Standard,
    pub classification: &'r LocalClassification,
}

impl<'r> LocalModuleRef<'r> {
    pub fn new(
        interpretation: &'r Interpretation,
        dataset: &'r Standard,
        classification: &'r LocalClassification,
    ) -> (r: LocalModuleRef<'r>)
        ensures
            r == (LocalModuleRef { interpretation, dataset, classification }),
    {
        LocalModuleRef { interpretation, dataset, classification }
    }
}

} // verus!
