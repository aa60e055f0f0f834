//! Standard dataset: a default graph and named graphs.
use vstd::prelude::*;

use crate::containers::{
    graph_map_entries, graph_map_get, graph_map_insert, graph_map_keys, graph_map_new,
    graph_map_remove, GraphMap,
};
use crate::dataset::graph::{
    self, contradicted, extends, fact_sign, fact_triple, has_triple_at, holds, inserted, matching_set, mentioning, mentions,
    replaced_fact, Graph,
};
use crate::dataset::{spec_with_graph, with_graph};
use crate::pattern::Canonical;
use crate::sign::Signed;
use crate::dataset::{into_graph_fact, spec_into_graph_fact, Contradiction, Fact};
use crate::id::Id;
use crate::sign::Sign;
use crate::triple::{Meta, Triple};

verus! {

/// Whether graph `v` holds triple `t` with sign `sign`.
pub open spec fn holds_signed(v: Map<usize, graph::Fact>, t: Triple, sign: Sign) -> bool {
    exists|k: usize| has_triple_at(v, k, t) && fact_sign(v[k]) == sign
}

/// Whether the graph, if it exists, lacks the triple.
pub open spec fn lacks_triple(view: Option<Map<usize, graph::Fact>>, t: Triple) -> bool {
    match view {
        Some(v) => !graph::has_triple(v, t),
        None => true,
    }
}

/// Standard dataset.
pub struct Standard {
    default_graph: Graph,
    named_graphs: GraphMap,
}

impl Standard {
    /// The facts of the default graph.
    pub closed spec fn default_graph_view(&self) -> Map<usize, graph::Fact> {
        self.default_graph@
    }

    /// The facts of each named graph, by name.
    pub closed spec fn named_graphs(&self) -> Map<u32, Map<usize, graph::Fact>> {
        graph_map_entries(self.named_graphs).map_values(|g: Graph| g@)
    }

    /// The facts of the given graph, if it exists.
    pub open spec fn graph_view(&self, g: Option<Id>) -> Option<Map<usize, graph::Fact>> {
        match g {
            None => Some(self.default_graph_view()),
            Some(id) => if self.named_graphs().contains_key(id.0) {
                Some(self.named_graphs()[id.0])
            } else {
                None
            },
        }
    }

    /// The facts of the given graph (none if it does not exist).
    pub open spec fn graph_or_empty(&self, g: Option<Id>) -> Map<usize, graph::Fact> {
        match self.graph_view(g) {
            Some(v) => v,
            None => Map::empty(),
        }
    }

    pub closed spec fn wf(&self) -> bool {
        &&& self.default_graph.wf()
        &&& forall|k: u32| #[trigger] graph_map_entries(self.named_graphs).contains_key(k) ==> graph_map_entries(
            self.named_graphs,
        )[k].wf()
    }

    pub fn new() -> (r: Standard)
        ensures
            r.wf(),
            r.default_graph_view() == Map::<usize, graph::Fact>::empty(),
            r.named_graphs() == Map::<u32, Map<usize, graph::Fact>>::empty(),
    {
        let r = Standard { default_graph: Graph::new(), named_graphs: graph_map_new() };
        assert(r.named_graphs() =~= Map::<u32, Map<usize, graph::Fact>>::empty());
        r
    }

    /// The given graph, if it exists.
    pub fn graph(&self, id: Option<Id>) -> (r: Option<&Graph>)
        requires
            self.wf(),
        ensures
            match r {
                Some(g) => g.wf() && self.graph_view(id) == Some(g@),
                None => self.graph_view(id) is None,
            },
    {
        match id {
            None => Some(&self.default_graph),
            Some(id) => graph_map_get(&self.named_graphs, id.0),
        }
    }

    /// Every graph with its name: the default graph first, then the named
    /// graphs in no particular order.
    pub fn graphs(&self) -> (r: Vec<(Option<Id>, &Graph)>)
        requires
            self.wf(),
        ensures
            r@.len() > 0 && r@[0].0 is None,
            forall|a: int, b: int| 0 <= a < b < r@.len() ==> r@[a].0 != r@[b].0,
            forall|a: int| 0 <= a < r@.len() ==> (#[trigger] r@[a]).1.wf() && self.graph_view(r@[a].0) == Some(r@[a].1@),
            forall|g: Option<Id>| #[trigger] self.graph_view(g) is Some ==> exists|a: int| 0 <= a < r@.len() && r@[a].0 == g,
    {
        let keys = graph_map_keys(&self.named_graphs);
        let mut r: Vec<(Option<Id>, &Graph)> = Vec::new();
        r.push((None, &self.default_graph));
        let mut j: usize = 0;
        while j < keys.len()
            invariant
                self.wf(),
                j <= keys@.len(),
                keys@.no_duplicates(),
                forall|k: u32| graph_map_entries(self.named_graphs).contains_key(k) <==> keys@.contains(k),
                r@.len() == j + 1,
                r@[0].0 is None,
                r@[0].1 == &self.default_graph,
                forall|a: int| 0 < a <= j ==> #[trigger] r@[a].0 == Some(Id(keys@[a - 1])) && graph_map_entries(
                    self.named_graphs,
                ).contains_key(keys@[a - 1]) && *r@[a].1 == graph_map_entries(self.named_graphs)[keys@[a - 1]],
            decreases keys@.len() - j,
        {
            let k = keys[j];
            proof {
                assert(keys@.contains(k));
            }
            let g = graph_map_get(&self.named_graphs, k).unwrap();
            r.push((Some(Id(k)), g));
            j = j + 1;
        }
        proof {
            assert forall|a: int, b: int| 0 <= a < b < r@.len() implies r@[a].0 != r@[b].0 by {
                if a > 0 {
                    assert(keys@[a - 1] != keys@[b - 1]);
                }
            }
            assert forall|g: Option<Id>| #[trigger] self.graph_view(g) is Some implies exists|a: int|
                0 <= a < r@.len() && r@[a].0 == g by {
                if let Some(id) = g {
                    assert(keys@.contains(id.0));
                    let t = choose|t: int| 0 <= t < keys@.len() && keys@[t] == id.0;
                    assert(r@[t + 1].0 == g);
                } else {
                    assert(r@[0].0 == g);
                }
            }
        }
        r
    }
}

impl Standard {
    /// Inserts the fact in its graph, creating the graph if needed.
    /// Returns the graph, the index of the triple in it and whether the
    /// fact is new; the triple being held with the other sign is a
    /// contradiction.
    pub fn insert(&mut self, fact: Fact) -> (r: Result<(Option<Id>, u32, bool), Contradiction>)
        requires
            old(self).wf(),
            old(self).graph_or_empty(fact.0.1.3).len() < u32::MAX,
        ensures
            final(self).wf(),
            forall|h: Option<Id>| h != fact.0.1.3 ==> #[trigger] final(self).graph_view(h) == old(self).graph_view(h),
            ({
                let (gf, g) = spec_into_graph_fact(fact);
                match r {
                    Ok((g2, i, added)) => {
                        &&& g2 == g
                        &&& final(self).graph_view(g) is Some
                        &&& inserted(old(self).graph_or_empty(g), final(self).graph_or_empty(g), gf, i, added)
                    },
                    Err(c) => contradicted(old(self).graph_or_empty(g), final(self).graph_or_empty(g), gf, c.0),
                }
            }),
    {
        let (gf, g) = into_graph_fact(fact);
        match g {
            None => {
                let r = self.default_graph.insert(gf);
                proof {
                    assert forall|h: Option<Id>| h != g implies #[trigger] self.graph_view(h) == old(self).graph_view(h) by {
                        assert(self.named_graphs() == old(self).named_graphs());
                    }
                }
                match r {
                    Ok((i, added)) => Ok((None, i, added)),
                    Err(c) => Err(c),
                }
            },
            Some(id) => {
                let mut graph = match graph_map_remove(&mut self.named_graphs, id.0) {
                    Some(graph) => graph,
                    None => Graph::new(),
                };
                let r = graph.insert(gf);
                graph_map_insert(&mut self.named_graphs, id.0, graph);
                proof {
                    assert forall|k: u32| #[trigger] graph_map_entries(self.named_graphs).contains_key(k) implies graph_map_entries(
                        self.named_graphs,
                    )[k].wf() by {
                        if k != id.0 {
                            assert(graph_map_entries(old(self).named_graphs).contains_key(k));
                        }
                    }
                    assert forall|h: Option<Id>| h != g implies #[trigger] self.graph_view(h) == old(self).graph_view(h) by {
                        if let Some(hid) = h {
                            assert(hid.0 != id.0);
                            assert(self.named_graphs().contains_key(hid.0) == old(self).named_graphs().contains_key(hid.0));
                        }
                    }
                }
                match r {
                    Ok((i, added)) => Ok((Some(id), i, added)),
                    Err(c) => Err(c),
                }
            },
        }
    }

    /// Whether some graph holds the triple with the given sign.
    pub fn contains_triple(&self, triple: Triple, sign: Sign) -> (r: bool)
        requires
            self.wf(),
        ensures
            r <==> exists|g: Option<Id>| #[trigger] self.graph_view(g) matches Some(v) && holds_signed(v, triple, sign),
    {
        let graphs = self.graphs();
        let mut j: usize = 0;
        while j < graphs.len()
            invariant
                self.wf(),
                j <= graphs@.len(),
                forall|a: int| 0 <= a < graphs@.len() ==> (#[trigger] graphs@[a]).1.wf() && self.graph_view(graphs@[a].0)
                    == Some(graphs@[a].1@),
                forall|g: Option<Id>| #[trigger] self.graph_view(g) is Some ==> exists|a: int|
                    0 <= a < graphs@.len() && graphs@[a].0 == g,
                forall|a: int| 0 <= a < j ==> !holds_signed((#[trigger] graphs@[a]).1@, triple, sign),
            decreases graphs@.len() - j,
        {
            let (g, graph) = graphs[j];
            if graph.contains(triple, sign) {
                proof {
                    assert(self.graph_view(g) == Some(graph@));
                }
                return true;
            }
            j = j + 1;
        }
        proof {
            assert forall|g: Option<Id>| !(#[trigger] self.graph_view(g) matches Some(v) && holds_signed(v, triple, sign)) by {
                if self.graph_view(g) is Some {
                    let a = choose|a: int| 0 <= a < graphs@.len() && graphs@[a].0 == g;
                    assert(!holds_signed(graphs@[a].1@, triple, sign));
                }
            }
        }
        false
    }

    /// The fact holding the triple, with its graph and index: in the
    /// default graph first, then in the named graphs.
    pub fn find_triple(&self, triple: Triple) -> (r: Option<(Option<Id>, u32, &graph::Fact)>)
        requires
            self.wf(),
        ensures
            match r {
                Some((g, i, f)) => self.graph_view(g) matches Some(v) && has_triple_at(v, i as usize, triple) && *f
                    == v[i as usize],
                None => forall|g: Option<Id>| lacks_triple(#[trigger] self.graph_view(g), triple),
            },
    {
        let graphs = self.graphs();
        let mut j: usize = 0;
        while j < graphs.len()
            invariant
                self.wf(),
                j <= graphs@.len(),
                forall|a: int| 0 <= a < graphs@.len() ==> (#[trigger] graphs@[a]).1.wf() && self.graph_view(graphs@[a].0)
                    == Some(graphs@[a].1@),
                forall|g: Option<Id>| #[trigger] self.graph_view(g) is Some ==> exists|a: int|
                    0 <= a < graphs@.len() && graphs@[a].0 == g,
                forall|a: int| 0 <= a < j ==> !graph::has_triple((#[trigger] graphs@[a]).1@, triple),
            decreases graphs@.len() - j,
        {
            let (g, graph) = graphs[j];
            match graph.find_triple(triple) {
                Some((i, f)) => {
                    proof {
                        assert(self.graph_view(g) == Some(graph@));
                    }
                    return Some((g, i, f));
                },
                None => {},
            }
            j = j + 1;
        }
        proof {
            assert forall|g: Option<Id>| lacks_triple(#[trigger] self.graph_view(g), triple) by {
                if self.graph_view(g) is Some {
                    let a = choose|a: int| 0 <= a < graphs@.len() && graphs@[a].0 == g;
                    assert(!graph::has_triple(graphs@[a].1@, triple));
                }
            }
        }
        None
    }

    /// Removes and returns the named graph.
    pub fn remove_graph(&mut self, id: Id) -> (r: Option<Graph>)
        requires
            old(self).wf(),
        ensures
            final(self).wf(),
            final(self).default_graph_view() == old(self).default_graph_view(),
            final(self).named_graphs() == old(self).named_graphs().remove(id.0),
            match r {
                Some(g) => g.wf() && old(self).named_graphs().contains_key(id.0) && g@ == old(self).named_graphs()[id.0],
                None => !old(self).named_graphs().contains_key(id.0),
            },
    {
        let r = graph_map_remove(&mut self.named_graphs, id.0);
        proof {
            assert(self.named_graphs() =~= old(self).named_graphs().remove(id.0));
            assert forall|k: u32| #[trigger] graph_map_entries(self.named_graphs).contains_key(k) implies graph_map_entries(
                self.named_graphs,
            )[k].wf() by {
                assert(graph_map_entries(old(self).named_graphs).contains_key(k));
            }
        }
        r
    }

    /// Names the graph, returning the graph it replaces.
    pub fn insert_graph(&mut self, id: Id, graph: Graph) -> (r: Option<Graph>)
        requires
            old(self).wf(),
            graph.wf(),
        ensures
            final(self).wf(),
            final(self).default_graph_view() == old(self).default_graph_view(),
            final(self).named_graphs() == old(self).named_graphs().insert(id.0, graph@),
            match r {
                Some(g) => g.wf() && old(self).named_graphs().contains_key(id.0) && g@ == old(self).named_graphs()[id.0],
                None => !old(self).named_graphs().contains_key(id.0),
            },
    {
        let ghost v = graph@;
        let r = graph_map_insert(&mut self.named_graphs, id.0, graph);
        proof {
            assert(self.named_graphs() =~= old(self).named_graphs().insert(id.0, v));
            assert forall|k: u32| #[trigger] graph_map_entries(self.named_graphs).contains_key(k) implies graph_map_entries(
                self.named_graphs,
            )[k].wf() by {
                if k != id.0 {
                    assert(graph_map_entries(old(self).named_graphs).contains_key(k));
                }
            }
        }
        r
    }
}

/// A matching fact of a dataset: its graph, its index in the graph, and
/// the fact.
pub type Match<'a> = (Option<Id>, u32, &'a graph::Fact);

impl Standard {
    /// Whether the fact at index `i` of graph `g` is `f` and matches the
    /// pattern and sign.
    pub open spec fn matches_in(&self, g: Option<Id>, i: u32, f: graph::Fact, pattern: Canonical, sign: Option<Sign>) -> bool {
        match self.graph_view(g) {
            Some(v) => matching_set(v, pattern, sign).contains(i) && f == v[i as usize],
            None => false,
        }
    }

    /// Every fact of every graph that matches the pattern and, if one is
    /// given, the sign: graph by graph, the default graph first, by
    /// increasing index within a graph.
    pub fn full_matching(&self, pattern: Canonical, sign: Option<Sign>) -> (r: Vec<Match<'_>>)
        requires
            self.wf(),
        ensures
            forall|x: Match<'_>| #[trigger] r@.contains(x) <==> self.matches_in(x.0, x.1, *x.2, pattern, sign),
    {
        let graphs = self.graphs();
        let mut r: Vec<Match<'_>> = Vec::new();
        let mut j: usize = 0;
        while j < graphs.len()
            invariant
                self.wf(),
                j <= graphs@.len(),
                forall|a: int, b: int| 0 <= a < b < graphs@.len() ==> graphs@[a].0 != graphs@[b].0,
                forall|a: int| 0 <= a < graphs@.len() ==> (#[trigger] graphs@[a]).1.wf() && self.graph_view(graphs@[a].0)
                    == Some(graphs@[a].1@),
                forall|g: Option<Id>| #[trigger] self.graph_view(g) is Some ==> exists|a: int|
                    0 <= a < graphs@.len() && graphs@[a].0 == g,
                forall|x: Match<'_>| #[trigger] r@.contains(x) <==> exists|a: int|
                    0 <= a < j && graphs@[a].0 == x.0 && matching_set(graphs@[a].1@, pattern, sign).contains(x.1) && *x.2
                        == graphs@[a].1@[x.1 as usize],
            decreases graphs@.len() - j,
        {
            let (g, graph) = graphs[j];
            let mut m = graph.full_matching(pattern, sign);
            let mut exhausted = false;
            while !exhausted
                invariant
                    m.wf(),
                    m.graph() == graph@,
                    j < graphs@.len(),
                    graphs@[j as int] == (g, graph),
                    m.remaining().subset_of(matching_set(graph@, pattern, sign)),
                    exhausted ==> m.remaining() =~= Set::<u32>::empty(),
                    forall|x: Match<'_>| #[trigger] r@.contains(x) <==> (exists|a: int|
                        0 <= a < j && graphs@[a].0 == x.0 && matching_set(graphs@[a].1@, pattern, sign).contains(x.1)
                            && *x.2 == graphs@[a].1@[x.1 as usize]) || (x.0 == g && matching_set(graph@, pattern, sign).contains(x.1)
                        && !m.remaining().contains(x.1) && *x.2 == graph@[x.1 as usize]),
                decreases m.left(), if exhausted { 0int } else { 1int },
            {
                let ghost r0 = r@;
                let ghost rem0 = m.remaining();
                match m.next() {
                    Some((i, f)) => {
                        r.push((g, i, f));
                        proof {
                            assert forall|x: Match<'_>| #[trigger] r@.contains(x) <==> r0.contains(x) || x == (g, i, f) by {
                                if r@.contains(x) {
                                    let y = choose|y: int| 0 <= y < r@.len() && r@[y] == x;
                                    if y < r0.len() {
                                        assert(r0[y] == x);
                                    }
                                }
                                if r0.contains(x) {
                                    let y = choose|y: int| 0 <= y < r0.len() && r0[y] == x;
                                    assert(r@[y] == x);
                                }
                                if x == (g, i, f) {
                                    assert(r@[r0.len() as int] == x);
                                }
                            }
                        }
                    },
                    None => {
                        exhausted = true;
                    },
                }
            }
            j = j + 1;
        }
        proof {
            assert forall|x: Match<'_>| #[trigger] r@.contains(x) <==> self.matches_in(x.0, x.1, *x.2, pattern, sign) by {
                if self.graph_view(x.0) is Some {
                    let a = choose|a: int| 0 <= a < graphs@.len() && graphs@[a].0 == x.0;
                }
            }
        }
        r
    }
}

impl Standard {
    /// Every fact of every graph that matches the pattern.
    pub fn matching(&self, pattern: Canonical) -> (r: Vec<Match<'_>>)
        requires
            self.wf(),
        ensures
            forall|x: Match<'_>| #[trigger] r@.contains(x) <==> self.matches_in(x.0, x.1, *x.2, pattern, None),
    {
        self.full_matching(pattern, None)
    }

    /// Every fact of every graph that matches the pattern with the sign.
    pub fn signed_matching(&self, pattern: Signed<Canonical>) -> (r: Vec<Match<'_>>)
        requires
            self.wf(),
        ensures
            forall|x: Match<'_>| #[trigger] r@.contains(x) <==> self.matches_in(x.0, x.1, *x.2, pattern.1, Some(pattern.0)),
    {
        self.full_matching(pattern.1, Some(pattern.0))
    }

    /// Whether `x` is a fact of the dataset mentioning the resource.
    pub open spec fn mentioning_fact(&self, x: Fact, id: Id) -> bool {
        match self.graph_view(x.0.1.3) {
            Some(v) => exists|k: usize| mentions(v, k, id) && x == spec_with_graph(v[k], x.0.1.3),
            None => false,
        }
    }

    /// Every fact mentioning the resource, with its graph: graph by graph,
    /// the named graphs first and the default graph last, by increasing
    /// index within a graph.
    pub fn resource_facts(&self, id: Id) -> (r: Vec<Fact>)
        requires
            self.wf(),
        ensures
            forall|x: Fact| #[trigger] r@.contains(x) <==> self.mentioning_fact(x, id),
    {
        let graphs = self.graphs();
        let mut r: Vec<Fact> = Vec::new();
        let mut j: usize = graphs.len();
        while j > 0
            invariant
                self.wf(),
                j <= graphs@.len(),
                forall|a: int, b: int| 0 <= a < b < graphs@.len() ==> graphs@[a].0 != graphs@[b].0,
                forall|a: int| 0 <= a < graphs@.len() ==> (#[trigger] graphs@[a]).1.wf() && self.graph_view(graphs@[a].0)
                    == Some(graphs@[a].1@),
                forall|g: Option<Id>| #[trigger] self.graph_view(g) is Some ==> exists|a: int|
                    0 <= a < graphs@.len() && graphs@[a].0 == g,
                forall|x: Fact| #[trigger] r@.contains(x) <==> exists|a: int|
                    j <= a < graphs@.len() && graphs@[a].0 == x.0.1.3 && exists|k: usize|
                        mentions(graphs@[a].1@, k, id) && x == spec_with_graph(graphs@[a].1@[k], x.0.1.3),
            decreases j,
        {
            j = j - 1;
            let (g, graph) = graphs[j];
            let mut facts = graph.resource_facts(id);
            let mut exhausted = false;
            while !exhausted
                invariant
                    facts.wf(),
                    facts.graph() == graph@,
                    j < graphs@.len(),
                    graphs@[j as int] == (g, graph),
                    forall|x: u32| #[trigger] facts.remaining().contains(x) ==> mentions(graph@, x as usize, id),
                    exhausted ==> facts.remaining() =~= Set::<u32>::empty(),
                    forall|x: Fact| #[trigger] r@.contains(x) <==> (exists|a: int|
                        j < a < graphs@.len() && graphs@[a].0 == x.0.1.3 && exists|k: usize|
                            mentions(graphs@[a].1@, k, id) && x == spec_with_graph(graphs@[a].1@[k], x.0.1.3)) || (
                    x.0.1.3 == g && exists|k: usize|
                        mentions(graph@, k, id) && k < u32::MAX && !facts.remaining().contains(k as u32) && x == spec_with_graph(graph@[k], g)),
                    graph.wf(),
                decreases facts.left(), if exhausted { 0int } else { 1int },
            {
                let ghost r0 = r@;
                match facts.next() {
                    Some((i, f)) => {
                        let quad = with_graph(*f, g);
                        r.push(quad);
                        proof {
                            assert forall|x: Fact| #[trigger] r@.contains(x) <==> r0.contains(x) || x == quad by {
                                if r@.contains(x) {
                                    let y = choose|y: int| 0 <= y < r@.len() && r@[y] == x;
                                    if y < r0.len() {
                                        assert(r0[y] == x);
                                    }
                                }
                                if r0.contains(x) {
                                    let y = choose|y: int| 0 <= y < r0.len() && r0[y] == x;
                                    assert(r@[y] == x);
                                }
                                if x == quad {
                                    assert(r@[r0.len() as int] == x);
                                }
                            }
                            graph.lemma_indexes_fit();
                            assert(quad == spec_with_graph(graph@[i as usize], g));
                            assert(mentions(graph@, i as usize, id));
                        }
                    },
                    None => {
                        exhausted = true;
                    },
                }
            }
            proof {
                graph.lemma_indexes_fit();
                assert(graphs@[j as int].1@ == graph@);
            }
        }
        proof {
            assert forall|x: Fact| #[trigger] r@.contains(x) <==> self.mentioning_fact(x, id) by {
                if self.mentioning_fact(x, id) {
                    let a = choose|a: int| 0 <= a < graphs@.len() && graphs@[a].0 == x.0.1.3;
                    let v = graphs@[a].1@;
                    assert(self.graph_view(x.0.1.3) == Some(v));
                    let k = choose|k: usize| mentions(v, k, id) && x == spec_with_graph(v[k], x.0.1.3);
                    assert(0 <= a < graphs@.len() && graphs@[a].0 == x.0.1.3 && mentions(graphs@[a].1@, k, id) && x == spec_with_graph(graphs@[a].1@[k], x.0.1.3));
                    assert(r@.contains(x));
                }
                if r@.contains(x) {
                    let a = choose|a: int| 0 <= a < graphs@.len() && graphs@[a].0 == x.0.1.3 && exists|k: usize|
                        mentions(graphs@[a].1@, k, id) && x == spec_with_graph(graphs@[a].1@[k], x.0.1.3);
                    assert(self.graph_view(x.0.1.3) == Some(graphs@[a].1@));
                }
            }
        }
        r
    }
}

impl Standard {
    /// Every fact of every graph, with its graph and its index: the
    /// default graph first.
    pub fn iter(&self) -> (r: Vec<(Option<Id>, u32, &graph::Fact)>)
        requires
            self.wf(),
        ensures
            forall|a: int| 0 <= a < r@.len() ==> {
                let (g, i, f) = #[trigger] r@[a];
                &&& self.graph_view(g) is Some
                &&& self.graph_or_empty(g).contains_key(i as usize)
                &&& *f == self.graph_or_empty(g)[i as usize]
            },
            forall|g: Option<Id>, k: usize| #[trigger] self.graph_or_empty(g).contains_key(k) ==> exists|a: int|
                0 <= a < r@.len() && r@[a].0 == g && r@[a].1 as usize == k,
    {
        let graphs = self.graphs();
        let mut r: Vec<(Option<Id>, u32, &graph::Fact)> = Vec::new();
        let mut j: usize = 0;
        while j < graphs.len()
            invariant
                self.wf(),
                j <= graphs@.len(),
                forall|a: int| 0 <= a < graphs@.len() ==> (#[trigger] graphs@[a]).1.wf() && self.graph_view(graphs@[a].0)
                    == Some(graphs@[a].1@),
                forall|a: int| 0 <= a < r@.len() ==> {
                    let (g, i, f) = #[trigger] r@[a];
                    &&& self.graph_view(g) is Some
                    &&& self.graph_or_empty(g).contains_key(i as usize)
                    &&& *f == self.graph_or_empty(g)[i as usize]
                },
                forall|t: int, k: usize| 0 <= t < j && #[trigger] graphs@[t].1@.contains_key(k) ==> exists|a: int|
                    0 <= a < r@.len() && r@[a].0 == graphs@[t].0 && r@[a].1 as usize == k,
            decreases graphs@.len() - j,
        {
            let (g, graph) = graphs[j];
            let facts = graph.iter();
            let ghost r0 = r@;
            let mut k: usize = 0;
            while k < facts.len()
                invariant
                    self.wf(),
                    j < graphs@.len(),
                    g == graphs@[j as int].0,
                    graph == graphs@[j as int].1,
                    self.graph_view(g) == Some(graph@),
                    k <= facts@.len(),
                    r0.len() <= r@.len(),
                    forall|a: int| 0 <= a < r0.len() ==> r@[a] == r0[a],
                    forall|a: int| 0 <= a < facts@.len() ==> graph@.contains_key(#[trigger] facts@[a].0 as usize)
                        && *facts@[a].1 == graph@[facts@[a].0 as usize],
                    forall|a: int| 0 <= a < r@.len() ==> {
                        let (g, i, f) = #[trigger] r@[a];
                        &&& self.graph_view(g) is Some
                        &&& self.graph_or_empty(g).contains_key(i as usize)
                        &&& *f == self.graph_or_empty(g)[i as usize]
                    },
                    forall|b: int| 0 <= b < k ==> #[trigger] r@[r0.len() + b] == (g, facts@[b].0, facts@[b].1),
                    r@.len() == r0.len() + k,
                decreases facts@.len() - k,
            {
                let (i, f) = facts[k];
                r.push((g, i, f));
                k = k + 1;
            }
            proof {
                assert forall|t: int, x: usize| 0 <= t < j + 1 && #[trigger] graphs@[t].1@.contains_key(x) implies exists|a: int|
                    0 <= a < r@.len() && r@[a].0 == graphs@[t].0 && r@[a].1 as usize == x by {
                    if t < j {
                        let a = choose|a: int| 0 <= a < r0.len() && r0[a].0 == graphs@[t].0 && r0[a].1 as usize == x;
                        assert(r@[a] == r0[a]);
                    } else {
                        let b = choose|b: int| 0 <= b < facts@.len() && facts@[b].0 as usize == x;
                        assert(r@[r0.len() + b] == (g, facts@[b].0, facts@[b].1));
                    }
                }
            }
            j = j + 1;
        }
        proof {
            assert forall|g: Option<Id>, x: usize| #[trigger] self.graph_or_empty(g).contains_key(x) implies exists|a: int|
                0 <= a < r@.len() && r@[a].0 == g && r@[a].1 as usize == x by {
                assert(self.graph_view(g) is Some);
                let t = choose|t: int| 0 <= t < graphs@.len() && graphs@[t].0 == g;
                assert(graphs@[t].1@.contains_key(x));
            }
        }
        r
    }
}

/// Outcome of rewriting the facts of graph `v` mentioning `b`, giving
/// `w`: the facts not mentioning `b` stay, and every fact is a fact of `v`
/// with `b` replaced by `a`.
pub open spec fn rewritten_graph(v: Map<usize, graph::Fact>, w: Map<usize, graph::Fact>, a: Id, b: Id) -> bool {
    &&& extends(v.remove_keys(mentioning(v, b)), w)
    &&& forall|k: usize| #[trigger] w.contains_key(k) ==> exists|k0: usize| v.contains_key(k0) && w[k] == replaced_fact(v[k0], a, b)
}

/// Outcome of replacing `b` with `a` in graph `v`, giving `w`: the graph
/// is rewritten, and each rewritten fact is held unless `filter` rejected
/// it.
pub open spec fn replaced_graph<F: Fn(&graph::Fact) -> Result<bool, Contradiction>>(
    v: Map<usize, graph::Fact>,
    w: Map<usize, graph::Fact>,
    a: Id,
    b: Id,
    filter: F,
) -> bool {
    &&& rewritten_graph(v, w, a, b)
    &&& forall|k0: usize| #[trigger] mentions(v, k0, b) ==> filter.ensures((&replaced_fact(v[k0], a, b),), Ok(false)) || holds(w, replaced_fact(v[k0], a, b))
}

/// Whether `filter` rejected a fact with the triple and the sign of `f`.
pub open spec fn rejected_like<F: Fn(&graph::Fact) -> Result<bool, Contradiction>>(filter: F, f: graph::Fact) -> bool {
    exists|y: graph::Fact| fact_triple(y) == fact_triple(f) && fact_sign(y) == fact_sign(f) && #[trigger] filter.ensures((&y,), Ok(false))
}

/// No fact of `v` mentions `b`.
pub open spec fn free_of(v: Map<usize, graph::Fact>, b: Id) -> bool {
    forall|k: usize| !#[trigger] mentions(v, k, b)
}

proof fn lemma_replaced_unmentioned(v: Map<usize, graph::Fact>, k: usize, a: Id, b: Id)
    requires
        v.contains_key(k),
        !mentions(v, k, b),
    ensures
        replaced_fact(v[k], a, b) == v[k],
{
}

proof fn lemma_replaced_twice(f: graph::Fact, a: Id, b: Id)
    ensures
        replaced_fact(replaced_fact(f, a, b), a, b) == replaced_fact(f, a, b),
{
}

proof fn lemma_holds_extends(v: Map<usize, graph::Fact>, w: Map<usize, graph::Fact>, f: graph::Fact)
    requires
        extends(v, w),
        holds(v, f),
    ensures
        holds(w, f),
{
    let k = choose|k: usize| has_triple_at(v, k, fact_triple(f)) && fact_sign(v[k]) == fact_sign(f);
    assert(has_triple_at(w, k, fact_triple(f)) && fact_sign(w[k]) == fact_sign(f));
}

/// The graph-level outcome of a replacement, in the form the dataset
/// speaks of.
proof fn lemma_rewritten_graph<F: Fn(&graph::Fact) -> Result<bool, Contradiction>>(
    v: Map<usize, graph::Fact>,
    w: Map<usize, graph::Fact>,
    a: Id,
    b: Id,
    filter: F,
)
    requires
        extends(v.remove_keys(mentioning(v, b)), w),
        forall|k: usize|
            #[trigger] w.contains_key(k) && !v.remove_keys(mentioning(v, b)).contains_key(k) ==> exists|k0: usize|
                mentions(v, k0, b) && w[k] == replaced_fact(v[k0], a, b) && filter.ensures((&w[k],), Ok(true)),
    ensures
        rewritten_graph(v, w, a, b),
{
    assert forall|k: usize| #[trigger] w.contains_key(k) implies exists|k0: usize| v.contains_key(k0) && w[k] == replaced_fact(v[k0], a, b) by {
        if v.remove_keys(mentioning(v, b)).contains_key(k) {
            assert(!mentions(v, k, b));
            lemma_replaced_unmentioned(v, k, a, b);
        } else {
            let k0 = choose|k0: usize| mentions(v, k0, b) && w[k] == replaced_fact(v[k0], a, b) && filter.ensures((&w[k],), Ok(true));
        }
    }
}

/// Per graph, either the graph is rewritten or it is as it was.
pub open spec fn rewritten_or_same(o: Map<usize, graph::Fact>, w: Map<usize, graph::Fact>, a: Id, b: Id) -> bool {
    rewritten_graph(o, w, a, b) || w == o
}

impl Standard {
    /// Whether `f` is a fact of some graph, as it is or rewritten.
    pub open spec fn rewrites(&self, f: graph::Fact, a: Id, b: Id) -> bool {
        exists|g: Option<Id>, k0: usize| #[trigger] self.graph_or_empty(g).contains_key(k0) && (f == self.graph_or_empty(g)[k0]
            || f == replaced_fact(self.graph_or_empty(g)[k0], a, b))
    }

    /// Whether `f` is a fact of some graph, rewritten.
    pub open spec fn rewritten_from(&self, f: graph::Fact, a: Id, b: Id) -> bool {
        exists|g: Option<Id>, k0: usize| #[trigger] self.graph_or_empty(g).contains_key(k0) && f == replaced_fact(self.graph_or_empty(g)[k0], a, b)
    }

    /// What holds of every graph whether the replacement is done or not.
    pub open spec fn replacing(&self, o: Standard, a: Id, b: Id) -> bool {
        &&& self.wf()
        &&& forall|g: Option<Id>| g != Some(a) && #[trigger] o.graph_view(g) is None ==> self.graph_view(g) is None
        &&& forall|g: Option<Id>| g != Some(b) ==> extends(
            o.graph_or_empty(g).remove_keys(mentioning(o.graph_or_empty(g), b)),
            #[trigger] self.graph_or_empty(g),
        )
        &&& forall|g: Option<Id>, k: usize| #[trigger] self.graph_or_empty(g).contains_key(k) ==> o.rewrites(
            self.graph_or_empty(g)[k],
            a,
            b,
        )
    }

    proof fn lemma_progress(&self, o: Standard, a: Id, b: Id)
        requires
            self.wf(),
            self.named_graphs().dom() == o.named_graphs().dom(),
            forall|g: Option<Id>| #[trigger] rewritten_or_same(o.graph_or_empty(g), self.graph_or_empty(g), a, b),
        ensures
            self.replacing(o, a, b),
    {
        assert forall|g: Option<Id>| g != Some(b) implies extends(
            o.graph_or_empty(g).remove_keys(mentioning(o.graph_or_empty(g), b)),
            #[trigger] self.graph_or_empty(g),
        ) by {
            assert(rewritten_or_same(o.graph_or_empty(g), self.graph_or_empty(g), a, b));
        }
        assert forall|g: Option<Id>, k: usize| #[trigger] self.graph_or_empty(g).contains_key(k) implies o.rewrites(
            self.graph_or_empty(g)[k],
            a,
            b,
        ) by {
            assert(rewritten_or_same(o.graph_or_empty(g), self.graph_or_empty(g), a, b));
            if self.graph_or_empty(g) == o.graph_or_empty(g) {
                assert(o.graph_or_empty(g).contains_key(k));
            } else {
                let k0 = choose|k0: usize| o.graph_or_empty(g).contains_key(k0) && self.graph_or_empty(g)[k] == replaced_fact(o.graph_or_empty(g)[k0], a, b);
                assert(o.graph_or_empty(g).contains_key(k0));
            }
        }
        assert forall|g: Option<Id>| g != Some(a) && #[trigger] o.graph_view(g) is None implies self.graph_view(g) is None by {
            if let Some(id) = g {
                assert(!o.named_graphs().dom().contains(id.0));
            }
        }
    }

    /// Each graph of a dataset holds each triple at most once.
    pub proof fn lemma_graph_unique_triples(&self, g: Option<Id>)
        requires
            self.wf(),
        ensures
            graph::unique_triples(self.graph_or_empty(g)),
    {
        match g {
            None => self.default_graph.lemma_unique_triples(),
            Some(id) => {
                if graph_map_entries(self.named_graphs).contains_key(id.0) {
                    graph_map_entries(self.named_graphs)[id.0].lemma_unique_triples();
                }
            },
        }
    }

    /// Whether `replace_id(a, b, ..)` has room: every graph has fewer than
    /// `u32::MAX` facts, and so have graphs `a` and `b` together.
    pub open spec fn replace_fits(&self, a: Id, b: Id) -> bool {
        &&& forall|g: Option<Id>| #[trigger] self.graph_or_empty(g).len() < u32::MAX
        &&& self.graph_or_empty(Some(a)).len() + self.graph_or_empty(Some(b)).len() < u32::MAX
    }

    /// Whether `replace_id(a, b, ..)` has room.
    pub fn replace_room(&self, a: Id, b: Id) -> (r: bool)
        requires
            self.wf(),
        ensures
            r == self.replace_fits(a, b),
    {
        let graphs = self.graphs();
        let mut j: usize = 0;
        while j < graphs.len()
            invariant
                self.wf(),
                j <= graphs@.len(),
                forall|i: int| 0 <= i < graphs@.len() ==> (#[trigger] graphs@[i]).1.wf() && self.graph_view(graphs@[i].0)
                    == Some(graphs@[i].1@),
                forall|i: int| 0 <= i < j ==> (#[trigger] graphs@[i]).1@.len() < u32::MAX,
            decreases graphs@.len() - j,
        {
            if graphs[j].1.len() >= 4294967295 {
                proof {
                    assert(self.graph_or_empty(graphs@[j as int].0).len() >= u32::MAX);
                }
                return false;
            }
            j = j + 1;
        }
        proof {
            assert forall|g: Option<Id>| #[trigger] self.graph_or_empty(g).len() < u32::MAX by {
                if self.graph_view(g) is Some {
                    let i = choose|i: int| 0 <= i < graphs@.len() && graphs@[i].0 == g;
                    assert(graphs@[i].1@.len() < u32::MAX);
                }
            }
        }
        let la: usize = match self.graph(Some(a)) {
            Some(ga) => ga.len(),
            None => 0,
        };
        let lb: usize = match self.graph(Some(b)) {
            Some(gb) => gb.len(),
            None => 0,
        };
        (la as u64) + (lb as u64) < 4294967295
    }

    /// Replaces every occurrence of `b` with `a`: in each graph, the facts
    /// mentioning `b` are rewritten, and kept if `filter` accepts them;
    /// then the facts of graph `b` are moved to graph `a`, if `filter`
    /// accepts them. Stops at the first error of `filter` or contradiction.
    pub fn replace_id(&mut self, a: Id, b: Id, filter: impl Fn(&graph::Fact) -> Result<bool, Contradiction>) -> (r: Result<(), Contradiction>)
        requires
            old(self).wf(),
            forall|g: Option<Id>| #[trigger] old(self).graph_or_empty(g).len() < u32::MAX,
            old(self).graph_or_empty(Some(a)).len() + old(self).graph_or_empty(Some(b)).len() < u32::MAX,
            forall|f: graph::Fact| filter.requires((&f,)),
        ensures
            final(self).replacing(*old(self), a, b),
            match r {
                Ok(()) => {
                    &&& forall|g: Option<Id>, k0: usize| g != Some(b) && #[trigger] mentions(old(self).graph_or_empty(g), k0, b) ==> {
                        let f = replaced_fact(old(self).graph_or_empty(g)[k0], a, b);
                        filter.ensures((&f,), Ok(false)) || holds(final(self).graph_or_empty(g), f)
                    }
                    &&& forall|k0: usize| #[trigger] old(self).graph_or_empty(Some(b)).contains_key(k0) ==> {
                        let f = replaced_fact(old(self).graph_or_empty(Some(b))[k0], a, b);
                        rejected_like(filter, f) || holds(final(self).graph_or_empty(Some(a)), f)
                    }
                    &&& a != b ==> final(self).graph_view(Some(b)) is None
                    &&& a != b ==> forall|g: Option<Id>| #[trigger] free_of(final(self).graph_or_empty(g), b)
                },
                Err(e) => exists|g: Option<Id>, k0: usize| #[trigger] old(self).graph_or_empty(g).contains_key(k0) && {
                    let f = replaced_fact(old(self).graph_or_empty(g)[k0], a, b);
                    filter.ensures((&f,), Err(e)) || e.0 == fact_triple(f)
                },
            },
    {
        let ghost o: Standard = *old(self);
        proof {
            assert(o.graph_or_empty(None).len() < u32::MAX);
        }
        let rd = self.default_graph.replace_id(a, b, &filter);
        proof {
            assert(self.named_graphs() == o.named_graphs());
        }
        if let Err(e) = rd {
            proof {
                let k0 = choose|k0: usize| #[trigger] mentions(o.default_graph_view(), k0, b) && {
                    let f = replaced_fact(o.default_graph_view()[k0], a, b);
                    filter.ensures((&f,), Err(e)) || (filter.ensures((&f,), Ok(true)) && e.0 == fact_triple(f))
                };
                assert(o.graph_or_empty(None).contains_key(k0));
                assert forall|g: Option<Id>| #[trigger] rewritten_or_same(o.graph_or_empty(g), self.graph_or_empty(g), a, b) by {
                    assert(self.graph_or_empty(g) == o.graph_or_empty(g) || g is None);
                    if g is None {
                        lemma_rewritten_graph(o.default_graph_view(), self.default_graph_view(), a, b, filter);
                    }
                }
                self.lemma_progress(o, a, b);
            }
            return Err(e);
        }
        proof {
            lemma_rewritten_graph(o.default_graph_view(), self.default_graph_view(), a, b, filter);
            assert forall|g: Option<Id>| #[trigger] self.graph_or_empty(g).len() <= o.graph_or_empty(g).len() by {
                if g is Some {
                    assert(self.graph_or_empty(g) == o.graph_or_empty(g));
                }
            }
        }
        let keys = graph_map_keys(&self.named_graphs);
        let mut j: usize = 0;
        while j < keys.len()
            invariant
                self.wf(),
                o == *old(self),
                forall|g: Option<Id>| #[trigger] o.graph_or_empty(g).len() < u32::MAX,
                forall|f: graph::Fact| filter.requires((&f,)),
                j <= keys@.len(),
                keys@.no_duplicates(),
                forall|k: u32| graph_map_entries(o.named_graphs).contains_key(k) <==> keys@.contains(k),
                self.named_graphs().dom() == o.named_graphs().dom(),
                forall|g: Option<Id>| #[trigger] self.graph_or_empty(g).len() <= o.graph_or_empty(g).len(),
                replaced_graph(o.default_graph_view(), self.default_graph_view(), a, b, filter),
                forall|t: int| 0 <= t < j ==> replaced_graph(
                    o.named_graphs()[#[trigger] keys@[t]],
                    self.named_graphs()[keys@[t]],
                    a,
                    b,
                    filter,
                ),
                forall|t: int| j <= t < keys@.len() ==> self.named_graphs()[#[trigger] keys@[t]] == o.named_graphs()[keys@[t]],
            decreases keys@.len() - j,
        {
            let k = keys[j];
            proof {
                assert(keys@.contains(k));
                assert(o.graph_or_empty(Some(Id(k))).len() < u32::MAX);
                assert(self.named_graphs()[k] == o.named_graphs()[k]);
            }
            let ghost before = self.named_graphs();
            let ghost sb: Standard = *self;
            let mut graph = graph_map_remove(&mut self.named_graphs, k).unwrap();
            let rk = graph.replace_id(a, b, &filter);
            graph_map_insert(&mut self.named_graphs, k, graph);
            proof {
                assert(self.named_graphs() =~= before.insert(k, graph@));
                assert forall|x: u32| #[trigger] graph_map_entries(self.named_graphs).contains_key(x) implies graph_map_entries(
                    self.named_graphs,
                )[x].wf() by {
                    if x != k {
                        assert(graph_map_entries(old(self).named_graphs).contains_key(x) || graph_map_entries(self.named_graphs)[x] == graph_map_entries(self.named_graphs)[x]);
                    }
                }
            }
            if let Err(e) = rk {
                proof {
                    let k0 = choose|k0: usize| #[trigger] mentions(o.named_graphs()[k], k0, b) && {
                        let f = replaced_fact(o.named_graphs()[k][k0], a, b);
                        filter.ensures((&f,), Err(e)) || (filter.ensures((&f,), Ok(true)) && e.0 == fact_triple(f))
                    };
                    assert(o.graph_or_empty(Some(Id(k))).contains_key(k0));
                    lemma_rewritten_graph(o.named_graphs()[k], graph@, a, b, filter);
                    assert forall|g: Option<Id>| #[trigger] rewritten_or_same(o.graph_or_empty(g), self.graph_or_empty(g), a, b) by {
                        if let Some(id) = g {
                            if self.named_graphs().contains_key(id.0) {
                                assert(keys@.contains(id.0));
                                let t = choose|t: int| 0 <= t < keys@.len() && keys@[t] == id.0;
                                if t < j {
                                    assert(replaced_graph(o.named_graphs()[keys@[t]], before[keys@[t]], a, b, filter));
                                    assert(rewritten_graph(o.named_graphs()[keys@[t]], before[keys@[t]], a, b));
                                } else if t > j {
                                    assert(self.named_graphs()[keys@[t]] == before[keys@[t]]);
                                }
                            }
                        }
                    }
                    self.lemma_progress(o, a, b);
                }
                return Err(e);
            }
            proof {
                lemma_rewritten_graph(o.named_graphs()[k], graph@, a, b, filter);
                assert forall|t: int| 0 <= t < j + 1 implies replaced_graph(
                    o.named_graphs()[#[trigger] keys@[t]],
                    self.named_graphs()[keys@[t]],
                    a,
                    b,
                    filter,
                ) by {
                    if t < j {
                        assert(keys@[t] != k);
                    }
                }
                assert forall|t: int| j + 1 <= t < keys@.len() implies self.named_graphs()[#[trigger] keys@[t]] == o.named_graphs()[keys@[t]] by {
                    assert(keys@[t] != k);
                }
                assert forall|g: Option<Id>| #[trigger] self.graph_or_empty(g).len() <= o.graph_or_empty(g).len() by {
                    assert(sb.graph_or_empty(g).len() <= o.graph_or_empty(g).len());
                    if g != Some(Id(k)) {
                        assert(self.graph_or_empty(g) == sb.graph_or_empty(g));
                    }
                }
            }
            j = j + 1;
        }
        proof {
            assert forall|g: Option<Id>| #[trigger] replaced_graph(o.graph_or_empty(g), self.graph_or_empty(g), a, b, filter) by {
                if let Some(id) = g {
                    if self.named_graphs().contains_key(id.0) {
                        assert(keys@.contains(id.0));
                        let t = choose|t: int| 0 <= t < keys@.len() && keys@[t] == id.0;
                        assert(replaced_graph(o.named_graphs()[keys@[t]], self.named_graphs()[keys@[t]], a, b, filter));
                    } else {
                        assert(o.graph_or_empty(g) =~= Map::empty());
                        assert(self.graph_or_empty(g) =~= Map::empty());
                    }
                }
            }
        }
        let ghost mid: Standard = *self;
        proof {
            assert forall|g: Option<Id>| #[trigger] replaced_graph(o.graph_or_empty(g), mid.graph_or_empty(g), a, b, filter) by {
                assert(replaced_graph(o.graph_or_empty(g), self.graph_or_empty(g), a, b, filter));
            }
        }
        let removed = graph_map_remove(&mut self.named_graphs, b.0);
        let graph = match removed {
            None => {
                proof {
                    assert(self.named_graphs() =~= mid.named_graphs());
                    assert forall|g: Option<Id>| #[trigger] replaced_graph(o.graph_or_empty(g), self.graph_or_empty(g), a, b, filter) by {
                        assert(replaced_graph(o.graph_or_empty(g), mid.graph_or_empty(g), a, b, filter));
                        assert(self.graph_or_empty(g) == mid.graph_or_empty(g));
                    }
                    self.lemma_replaced_all(o, a, b, filter);
                }
                return Ok(());
            },
            Some(graph) => graph,
        };
        let ghost mid_b = graph@;
        proof {
            assert(mid.named_graphs().contains_key(b.0) && mid.named_graphs()[b.0] == mid_b);
            assert(replaced_graph(o.graph_or_empty(Some(b)), mid.graph_or_empty(Some(b)), a, b, filter));
            assert(mid.graph_or_empty(Some(b)) == mid_b);
            assert(mid_b.len() <= o.graph_or_empty(Some(b)).len());
            assert(mid.graph_or_empty(Some(a)).len() <= o.graph_or_empty(Some(a)).len());
        }
        let (mut target, mut touched) = match graph_map_remove(&mut self.named_graphs, a.0) {
            Some(g) => (g, true),
            None => (Graph::new(), false),
        };
        let ghost start = target@;
        proof {
            assert(self.named_graphs() =~= mid.named_graphs().remove(b.0).remove(a.0));
            assert(start == (if a == b {
                Map::<usize, graph::Fact>::empty()
            } else {
                mid.graph_or_empty(Some(a))
            }));
            assert forall|x: u32| #[trigger] graph_map_entries(self.named_graphs).contains_key(x) implies graph_map_entries(
                self.named_graphs,
            )[x].wf() by {
                assert(graph_map_entries(mid.named_graphs).contains_key(x));
            }
        }
        proof {
            assert forall|g: Option<Id>| #[trigger] rewritten_graph(o.graph_or_empty(g), mid.graph_or_empty(g), a, b) by {
                assert(replaced_graph(o.graph_or_empty(g), mid.graph_or_empty(g), a, b, filter));
            }
        }
        let facts = graph.iter();
        let mut t: usize = 0;
        while t < facts.len()
            invariant
                0 <= t <= facts@.len(),
                facts@.len() <= mid_b.len(),
                start.len() + mid_b.len() < u32::MAX,
                graph.wf(),
                graph@ == mid_b,
                mid_b == mid.graph_or_empty(Some(b)),
                mid.named_graphs().contains_key(b.0),
                forall|x: int| 0 <= x < facts@.len() ==> graph@.contains_key(#[trigger] facts@[x].0 as usize)
                    && *facts@[x].1 == graph@[facts@[x].0 as usize],
                forall|k: usize| #[trigger] graph@.contains_key(k) ==> exists|x: int| 0 <= x < facts@.len() && facts@[x].0 as usize == k,
                self.wf(),
                self.default_graph_view() == mid.default_graph_view(),
                self.named_graphs() == mid.named_graphs().remove(b.0).remove(a.0),
                o == *old(self),
                mid.named_graphs().dom() == o.named_graphs().dom(),
                forall|g: Option<Id>| #[trigger] replaced_graph(o.graph_or_empty(g), mid.graph_or_empty(g), a, b, filter),
                start == (if a == b {
                    Map::<usize, graph::Fact>::empty()
                } else {
                    mid.graph_or_empty(Some(a))
                }),
                target.wf(),
                target@.len() <= start.len() + t,
                extends(start, target@),
                !touched ==> target@ == start && (a == b || !mid.named_graphs().contains_key(a.0)),
                forall|f: graph::Fact| filter.requires((&f,)),
                forall|k: usize| #[trigger] target@.contains_key(k) && !start.contains_key(k) ==> o.rewritten_from(target@[k], a, b),
                forall|g: Option<Id>| #[trigger] rewritten_graph(o.graph_or_empty(g), mid.graph_or_empty(g), a, b),
                forall|x: int| 0 <= x < t ==> filter.ensures((&replaced_fact(*#[trigger] facts@[x].1, a, b),), Ok(false))
                    || holds(target@, replaced_fact(*facts@[x].1, a, b)),
            decreases facts@.len() - t,
        {
            let (_, f) = facts[t];
            let fact = Meta(Signed(f.0.0, {
                let mut tr = f.0.1;
                tr.replace_id(a, b);
                tr
            }), f.1);
            let ghost kk = facts@[t as int].0 as usize;
            proof {
                assert(graph@.contains_key(kk));
                assert(replaced_graph(o.graph_or_empty(Some(b)), mid.graph_or_empty(Some(b)), a, b, filter));
                assert(rewritten_graph(o.graph_or_empty(Some(b)), mid.graph_or_empty(Some(b)), a, b));
                let k1 = choose|k1: usize| o.graph_or_empty(Some(b)).contains_key(k1) && mid_b[kk] == replaced_fact(o.graph_or_empty(Some(b))[k1], a, b);
                lemma_replaced_twice(o.graph_or_empty(Some(b))[k1], a, b);
                assert(fact == replaced_fact(o.graph_or_empty(Some(b))[k1], a, b));
                assert(o.graph_or_empty(Some(b)).contains_key(k1));
                assert(o.rewritten_from(fact, a, b));
            }
            match filter(&fact) {
                Err(e) => {
                    let ghost tv = target@;
                    self.put_back(a, target, touched);
                    proof {
                        self.lemma_after_move(o, mid, a, b, start, tv, touched);
                        let k1 = choose|k1: usize| o.graph_or_empty(Some(b)).contains_key(k1) && fact == replaced_fact(o.graph_or_empty(Some(b))[k1], a, b);
                        assert(o.graph_or_empty(Some(b)).contains_key(k1));
                    }
                    return Err(e);
                },
                Ok(accept) => {
                    if accept {
                        touched = true;
                        let ghost before = target@;
                        match target.insert(fact) {
                            Ok((i, _)) => {
                                proof {
                                    assert(has_triple_at(target@, i as usize, fact_triple(fact)) && fact_sign(target@[i as usize]) == fact_sign(fact));
                                    assert(holds(target@, fact));
                                    assert forall|x: int| 0 <= x < t implies filter.ensures((&replaced_fact(*#[trigger] facts@[x].1, a, b),), Ok(false))
                                        || holds(target@, replaced_fact(*facts@[x].1, a, b)) by {
                                        if holds(before, replaced_fact(*facts@[x].1, a, b)) {
                                            lemma_holds_extends(before, target@, replaced_fact(*facts@[x].1, a, b));
                                        }
                                    }
                                }
                            },
                            Err(c) => {
                                let ghost tv = target@;
                                self.put_back(a, target, touched);
                                proof {
                                    self.lemma_after_move(o, mid, a, b, start, tv, touched);
                                    let k1 = choose|k1: usize| o.graph_or_empty(Some(b)).contains_key(k1) && fact == replaced_fact(o.graph_or_empty(Some(b))[k1], a, b);
                                    assert(o.graph_or_empty(Some(b)).contains_key(k1));
                                }
                                return Err(c);
                            },
                        }
                    }
                },
            }
            t = t + 1;
        }
        let ghost tv = target@;
        self.put_back(a, target, touched);
        proof {
            self.lemma_after_move(o, mid, a, b, start, tv, touched);
            self.lemma_moved_ok(o, mid, a, b, start, tv, touched, filter);
            assert forall|k0: usize| #[trigger] o.graph_or_empty(Some(b)).contains_key(k0) implies {
                let f = replaced_fact(o.graph_or_empty(Some(b))[k0], a, b);
                rejected_like(filter, f) || holds(self.graph_or_empty(Some(a)), f)
            } by {
                let f = replaced_fact(o.graph_or_empty(Some(b))[k0], a, b);
                let y0 = o.graph_or_empty(Some(b))[k0];
                if mentions(o.graph_or_empty(Some(b)), k0, b) {
                    if filter.ensures((&f,), Ok(false)) {
                        assert(rejected_like(filter, f));
                    } else {
                        assert(holds(mid_b, f));
                        let kk = choose|kk: usize| has_triple_at(mid_b, kk, fact_triple(f)) && fact_sign(mid_b[kk]) == fact_sign(f);
                        let x = choose|x: int| 0 <= x < facts@.len() && facts@[x].0 as usize == kk;
                        let y = mid_b[kk];
                        assert(*facts@[x].1 == y);
                        assert(rewritten_graph(o.graph_or_empty(Some(b)), mid_b, a, b));
                        let k1 = choose|k1: usize| o.graph_or_empty(Some(b)).contains_key(k1) && y == replaced_fact(o.graph_or_empty(Some(b))[k1], a, b);
                        lemma_replaced_twice(o.graph_or_empty(Some(b))[k1], a, b);
                        assert(replaced_fact(y, a, b) == y);
                        if filter.ensures((&y,), Ok(false)) {
                            assert(rejected_like(filter, f));
                        } else {
                            assert(holds(tv, y));
                            let kt = choose|kt: usize| has_triple_at(tv, kt, fact_triple(y)) && fact_sign(tv[kt]) == fact_sign(y);
                            assert(has_triple_at(tv, kt, fact_triple(f)) && fact_sign(tv[kt]) == fact_sign(f));
                            assert(touched);
                        }
                    }
                } else {
                    assert(o.graph_or_empty(Some(b)).remove_keys(mentioning(o.graph_or_empty(Some(b)), b)).contains_key(k0));
                    assert(mid_b.contains_key(k0) && mid_b[k0] == y0);
                    lemma_replaced_unmentioned(o.graph_or_empty(Some(b)), k0, a, b);
                    let x = choose|x: int| 0 <= x < facts@.len() && facts@[x].0 as usize == k0;
                    assert(*facts@[x].1 == y0);
                    if filter.ensures((&f,), Ok(false)) {
                        assert(rejected_like(filter, f));
                    } else {
                        assert(holds(tv, f));
                        assert(touched);
                    }
                }
            }
        }
        Ok(())
    }

    /// Puts graph `a` back, if it is to exist.
    fn put_back(&mut self, a: Id, target: Graph, touched: bool)
        requires
            old(self).wf(),
            target.wf(),
        ensures
            final(self).wf(),
            final(self).default_graph_view() == old(self).default_graph_view(),
            final(self).named_graphs() == (if touched {
                old(self).named_graphs().insert(a.0, target@)
            } else {
                old(self).named_graphs()
            }),
    {
        if touched {
            graph_map_insert(&mut self.named_graphs, a.0, target);
            proof {
                assert(self.named_graphs() =~= old(self).named_graphs().insert(a.0, target@));
                assert forall|x: u32| #[trigger] graph_map_entries(self.named_graphs).contains_key(x) implies graph_map_entries(
                    self.named_graphs,
                )[x].wf() by {
                    if x != a.0 {
                        assert(graph_map_entries(old(self).named_graphs).contains_key(x));
                    }
                }
            }
        }
    }

    proof fn lemma_after_move(
        &self,
        o: Standard,
        mid: Standard,
        a: Id,
        b: Id,
        start: Map<usize, graph::Fact>,
        target: Map<usize, graph::Fact>,
        touched: bool,
    )
        requires
            self.wf(),
            self.default_graph_view() == mid.default_graph_view(),
            self.named_graphs() == (if touched {
                mid.named_graphs().remove(b.0).remove(a.0).insert(a.0, target)
            } else {
                mid.named_graphs().remove(b.0).remove(a.0)
            }),
            !touched ==> target == start && (a == b || !mid.named_graphs().contains_key(a.0)),
            mid.named_graphs().contains_key(b.0),
            mid.named_graphs().dom() == o.named_graphs().dom(),
            forall|g: Option<Id>| #[trigger] rewritten_graph(o.graph_or_empty(g), mid.graph_or_empty(g), a, b),
            start == (if a == b {
                Map::<usize, graph::Fact>::empty()
            } else {
                mid.graph_or_empty(Some(a))
            }),
            extends(start, target),
            forall|k: usize| #[trigger] target.contains_key(k) && !start.contains_key(k) ==> o.rewritten_from(target[k], a, b),
        ensures
            self.replacing(o, a, b),
            touched ==> self.graph_view(Some(a)) == Some(target),
            !touched ==> self.graph_view(Some(a)) is None,
            a != b ==> self.graph_view(Some(b)) is None,
            forall|g: Option<Id>| g != Some(a) && g != Some(b) ==> #[trigger] self.graph_view(g) == mid.graph_view(g),
    {
        assert forall|g: Option<Id>| g != Some(a) && g != Some(b) implies #[trigger] self.graph_view(g) == mid.graph_view(g) by {
            if let Some(id) = g {
                assert(id.0 != a.0 && id.0 != b.0);
            }
        }
        self.lemma_moved(o, mid, a, b, start, target);
    }

    proof fn lemma_moved_ok<F: Fn(&graph::Fact) -> Result<bool, Contradiction>>(
        &self,
        o: Standard,
        mid: Standard,
        a: Id,
        b: Id,
        start: Map<usize, graph::Fact>,
        target: Map<usize, graph::Fact>,
        touched: bool,
        filter: F,
    )
        requires
            touched ==> self.graph_view(Some(a)) == Some(target),
            !touched ==> self.graph_view(Some(a)) is None && target == start && (a == b || !mid.named_graphs().contains_key(a.0)),
            a != b ==> self.graph_view(Some(b)) is None,
            forall|g: Option<Id>| g != Some(a) && g != Some(b) ==> #[trigger] self.graph_view(g) == mid.graph_view(g),
            forall|g: Option<Id>| #[trigger] replaced_graph(o.graph_or_empty(g), mid.graph_or_empty(g), a, b, filter),
            start == (if a == b {
                Map::<usize, graph::Fact>::empty()
            } else {
                mid.graph_or_empty(Some(a))
            }),
            extends(start, target),
            forall|k: usize| #[trigger] target.contains_key(k) && !start.contains_key(k) ==> o.rewritten_from(target[k], a, b),
        ensures
            forall|g: Option<Id>, k0: usize| g != Some(b) && #[trigger] mentions(o.graph_or_empty(g), k0, b) ==> {
                let f = replaced_fact(o.graph_or_empty(g)[k0], a, b);
                filter.ensures((&f,), Ok(false)) || holds(self.graph_or_empty(g), f)
            },
            a != b ==> forall|g: Option<Id>| #[trigger] free_of(self.graph_or_empty(g), b),
    {
        assert forall|g: Option<Id>, k0: usize| g != Some(b) && #[trigger] mentions(o.graph_or_empty(g), k0, b) implies {
            let f = replaced_fact(o.graph_or_empty(g)[k0], a, b);
            filter.ensures((&f,), Ok(false)) || holds(self.graph_or_empty(g), f)
        } by {
            let f = replaced_fact(o.graph_or_empty(g)[k0], a, b);
            assert(replaced_graph(o.graph_or_empty(g), mid.graph_or_empty(g), a, b, filter));
            if !filter.ensures((&f,), Ok(false)) {
                assert(holds(mid.graph_or_empty(g), f));
                if g == Some(a) {
                    let k = choose|k: usize| has_triple_at(mid.graph_or_empty(g), k, fact_triple(f)) && fact_sign(mid.graph_or_empty(g)[k]) == fact_sign(f);
                    assert(mid.named_graphs().contains_key(a.0));
                    lemma_holds_extends(start, target, f);
                } else {
                    assert(self.graph_view(g) == mid.graph_view(g));
                }
            }
        }
        if a != b {
            assert forall|g: Option<Id>| #[trigger] free_of(self.graph_or_empty(g), b) by {
                assert forall|k: usize| !#[trigger] mentions(self.graph_or_empty(g), k, b) by {
                    if g == Some(a) {
                        if self.graph_or_empty(g).contains_key(k) {
                            if start.contains_key(k) {
                                assert(replaced_graph(o.graph_or_empty(g), mid.graph_or_empty(g), a, b, filter));
                                let k0 = choose|k0: usize| o.graph_or_empty(g).contains_key(k0) && mid.graph_or_empty(g)[k] == replaced_fact(o.graph_or_empty(g)[k0], a, b);
                            } else {
                                let (g0, k0) = choose|g0: Option<Id>, k0: usize| #[trigger] o.graph_or_empty(g0).contains_key(k0) && target[k] == replaced_fact(o.graph_or_empty(g0)[k0], a, b);
                            }
                        }
                    } else if g != Some(b) {
                        assert(self.graph_view(g) == mid.graph_view(g));
                        assert(replaced_graph(o.graph_or_empty(g), mid.graph_or_empty(g), a, b, filter));
                        if mid.graph_or_empty(g).contains_key(k) {
                            let k0 = choose|k0: usize| o.graph_or_empty(g).contains_key(k0) && mid.graph_or_empty(g)[k] == replaced_fact(o.graph_or_empty(g)[k0], a, b);
                        }
                    }
                }
            }
        }
    }

    /// What holds once graph `b` has been taken out and its facts moved to
    /// `target`, the new graph `a`.
    proof fn lemma_moved(
        &self,
        o: Standard,
        mid: Standard,
        a: Id,
        b: Id,
        start: Map<usize, graph::Fact>,
        target: Map<usize, graph::Fact>,
    )
        requires
            self.wf(),
            mid.named_graphs().dom() == o.named_graphs().dom(),
            forall|g: Option<Id>| #[trigger] rewritten_graph(o.graph_or_empty(g), mid.graph_or_empty(g), a, b),
            forall|g: Option<Id>| g != Some(a) && g != Some(b) ==> #[trigger] self.graph_view(g) == mid.graph_view(g),
            a != b ==> self.graph_view(Some(b)) is None,
            self.graph_view(Some(a)) is Some ==> self.graph_or_empty(Some(a)) == target,
            self.graph_view(Some(a)) is None ==> target == start && (a == b || mid.graph_view(Some(a)) is None),
            start == (if a == b {
                Map::<usize, graph::Fact>::empty()
            } else {
                mid.graph_or_empty(Some(a))
            }),
            extends(start, target),
            forall|k: usize| #[trigger] target.contains_key(k) && !start.contains_key(k) ==> o.rewritten_from(target[k], a, b),
        ensures
            self.replacing(o, a, b),
    {
        assert forall|g: Option<Id>| g != Some(a) && #[trigger] o.graph_view(g) is None implies self.graph_view(g) is None by {
            if g != Some(b) {
                assert(self.graph_view(g) == mid.graph_view(g));
                if let Some(id) = g {
                    assert(!mid.named_graphs().dom().contains(id.0));
                }
            }
        }
        assert forall|g: Option<Id>| g != Some(b) implies extends(
            o.graph_or_empty(g).remove_keys(mentioning(o.graph_or_empty(g), b)),
            #[trigger] self.graph_or_empty(g),
        ) by {
            assert(rewritten_graph(o.graph_or_empty(g), mid.graph_or_empty(g), a, b));
            if g == Some(a) {
                if self.graph_view(Some(a)) is None {
                    assert(mid.graph_or_empty(Some(a)) =~= Map::empty());
                    assert(self.graph_or_empty(Some(a)) =~= Map::empty());
                }
            } else {
                assert(self.graph_view(g) == mid.graph_view(g));
            }
        }
        assert forall|g: Option<Id>, k: usize| #[trigger] self.graph_or_empty(g).contains_key(k) implies o.rewrites(
            self.graph_or_empty(g)[k],
            a,
            b,
        ) by {
            assert(rewritten_graph(o.graph_or_empty(g), mid.graph_or_empty(g), a, b));
            if g == Some(a) {
                assert(self.graph_view(Some(a)) is Some);
                if !start.contains_key(k) {
                    assert(target.contains_key(k));
                    let (g0, k0) = choose|g0: Option<Id>, k0: usize| #[trigger] o.graph_or_empty(g0).contains_key(k0) && target[k] == replaced_fact(o.graph_or_empty(g0)[k0], a, b);
                    assert(o.graph_or_empty(g0).contains_key(k0));
                } else {
                    assert(rewritten_graph(o.graph_or_empty(Some(a)), mid.graph_or_empty(Some(a)), a, b));
                    assert(mid.graph_or_empty(Some(a)).contains_key(k));
                    let k0 = choose|k0: usize| o.graph_or_empty(Some(a)).contains_key(k0) && mid.graph_or_empty(Some(a))[k] == replaced_fact(o.graph_or_empty(Some(a))[k0], a, b);
                    assert(o.graph_or_empty(Some(a)).contains_key(k0));
                }
            } else if g == Some(b) {
                assert(self.graph_view(Some(b)) is None);
            } else {
                assert(self.graph_view(g) == mid.graph_view(g));
                assert(mid.graph_or_empty(g).contains_key(k));
                let k0 = choose|k0: usize| o.graph_or_empty(g).contains_key(k0) && mid.graph_or_empty(g)[k] == replaced_fact(o.graph_or_empty(g)[k0], a, b);
                assert(o.graph_or_empty(g).contains_key(k0));
            }
        }
    }

    proof fn lemma_replaced_all<F: Fn(&graph::Fact) -> Result<bool, Contradiction>>(&self, o: Standard, a: Id, b: Id, filter: F)
        requires
            self.wf(),
            self.named_graphs().dom() == o.named_graphs().dom(),
            !o.named_graphs().contains_key(b.0),
            forall|g: Option<Id>| #[trigger] replaced_graph(o.graph_or_empty(g), self.graph_or_empty(g), a, b, filter),
        ensures
            self.replacing(o, a, b),
            forall|g: Option<Id>, k0: usize| g != Some(b) && #[trigger] mentions(o.graph_or_empty(g), k0, b) ==> {
                let f = replaced_fact(o.graph_or_empty(g)[k0], a, b);
                filter.ensures((&f,), Ok(false)) || holds(self.graph_or_empty(g), f)
            },
            forall|k0: usize| #[trigger] o.graph_or_empty(Some(b)).contains_key(k0) ==> {
                let f = replaced_fact(o.graph_or_empty(Some(b))[k0], a, b);
                rejected_like(filter, f) || holds(self.graph_or_empty(Some(a)), f)
            },
            a != b ==> self.graph_view(Some(b)) is None,
            a != b ==> forall|g: Option<Id>| #[trigger] free_of(self.graph_or_empty(g), b),
    {
        assert forall|g: Option<Id>| #[trigger] rewritten_or_same(o.graph_or_empty(g), self.graph_or_empty(g), a, b) by {
            assert(replaced_graph(o.graph_or_empty(g), self.graph_or_empty(g), a, b, filter));
        }
        self.lemma_progress(o, a, b);
        assert forall|g: Option<Id>, k0: usize| g != Some(b) && #[trigger] mentions(o.graph_or_empty(g), k0, b) implies {
            let f = replaced_fact(o.graph_or_empty(g)[k0], a, b);
            filter.ensures((&f,), Ok(false)) || holds(self.graph_or_empty(g), f)
        } by {
            assert(replaced_graph(o.graph_or_empty(g), self.graph_or_empty(g), a, b, filter));
        }
        if a != b {
            assert forall|g: Option<Id>| #[trigger] free_of(self.graph_or_empty(g), b) by {
                assert(replaced_graph(o.graph_or_empty(g), self.graph_or_empty(g), a, b, filter));
                assert forall|k: usize| !#[trigger] mentions(self.graph_or_empty(g), k, b) by {
                    if self.graph_or_empty(g).contains_key(k) {
                        let k0 = choose|k0: usize| o.graph_or_empty(g).contains_key(k0) && self.graph_or_empty(g)[k] == replaced_fact(o.graph_or_empty(g)[k0], a, b);
                    }
                }
            }
        }
    }
}

} // verus!
