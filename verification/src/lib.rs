//! Verified core of an RDF inference engine: resources, triples, patterns,
//! datasets and interpretations.

pub mod cause;
pub mod class;
pub mod dataset;
mod containers;
pub mod id;
pub mod inference;
pub mod interpretation;
pub mod module;
pub mod pattern;
pub mod rdfs;
pub mod semantics;
pub mod sign;
pub mod triple;
pub mod uninterpreted;
pub mod utils;
mod order;

pub use cause::{Cause, Entailment};
pub use id::Id;
pub use sign::{Sign, Signed};
pub use triple::{Meta, Quad, Triple};
