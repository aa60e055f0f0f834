//! Interpretations: which resource each RDF term denotes.
use vstd::prelude::*;

use crate::id::Id;

pub mod composite;
pub mod local;
pub mod reservable_slab;

verus! {

/// Equality contradiction: the two resources are both equal and different.
#[derive(Debug)]
pub struct Contradiction(pub Id, pub Id);

} // verus!
