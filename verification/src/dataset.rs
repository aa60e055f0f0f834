//! RDF datasets.
use vstd::prelude::*;

use crate::cause::Cause;
use crate::id::Id;
use crate::sign::Signed;
use crate::triple::{Meta, Quad, Triple};

pub mod graph;
pub mod standard;

verus! {

/// Statement contradiction: the triple is both asserted and denied.
#[derive(Debug)]
pub struct Contradiction(pub Triple);

/// Dataset fact: a signed quad and its cause.
pub type Fact = Meta<Signed<Quad>, Cause>;

/// Triple identifier in a dataset.
#[derive(Debug, Clone, Copy, PartialEq, Eq, Structural)]
pub struct TripleId {
    /// Identifier of the graph the triple is in.
    pub graph: Option<Id>,
    /// Index of the triple in the graph.
    pub index: u32,
}

impl TripleId {
    pub fn new(graph: Option<Id>, index: u32) -> (r: TripleId)
        ensures
            r.graph == graph,
            r.index == index,
    {
        TripleId { graph, index }
    }
}

/// The graph fact, in the given graph.
pub open spec fn spec_with_graph(f: graph::Fact, g: Option<Id>) -> Fact {
    Meta(Signed(f.0.0, Quad(f.0.1.0, f.0.1.1, f.0.1.2, g)), f.1)
}

/// The dataset fact, split into its graph fact and its graph.
pub open spec fn spec_into_graph_fact(f: Fact) -> (graph::Fact, Option<Id>) {
    (Meta(Signed(f.0.0, Triple(f.0.1.0, f.0.1.1, f.0.1.2)), f.1), f.0.1.3)
}

/// Puts a graph fact in the given graph.
pub fn with_graph(f: graph::Fact, g: Option<Id>) -> (r: Fact)
    ensures
        r == spec_with_graph(f, g),
{
    Meta(Signed(f.0.0, f.0.1.into_quad(g)), f.1)
}

/// Splits a dataset fact into its graph fact and its graph.
pub fn into_graph_fact(f: Fact) -> (r: (graph::Fact, Option<Id>))
    ensures
        r == spec_into_graph_fact(f),
{
    let (triple, g) = f.0.1.into_triple();
    (Meta(Signed(f.0.0, triple), f.1), g)
}

} // verus!
