//! Classes of the strongly connected components of the dependency graph of
//! anonymous nodes, one component at a time: a component without a cycle
//! is a single resource, whose class is given by its properties; one with
//! a cycle is a group of resources put in normal form together.
use vstd::prelude::*;

use crate::class::group::sorting::{binding_less, binding_lt, lemma_empty_to_multiset};
use crate::class::group::{Binding, Description, GroupNormalizer, Member};
use crate::class::{Class, Reference};
use crate::dataset::graph;
use crate::dataset::standard::Standard;
use crate::interpretation::local::{Interpretation, ResourceView};
use crate::pattern::{Canonical, GivenSubject, GivenSubjectAnyPredicate};
use crate::containers::{class_of_entries, class_of_get, class_of_insert, class_of_new, ClassOfMap};
use crate::id::Id;
use crate::inference::scc::{
    adjacency_ok, adjacency_view, closed_under, component_edge, condensation_of, condense, lemma_component_has_inner_edge,
    lemma_unmarked_update, mutual, reaches, unmarked, Condensation,
};
use crate::class::classification::{Layer, LocalClassification};
use crate::class::group::GroupId;
use crate::inference::{LayerClass, LayerGroups};
use crate::sign::Signed;
use crate::triple::{Meta, Triple};

verus! {

/// A resource of the dependency graph.
#[derive(Debug, Clone, Copy, PartialEq, Eq, Structural, PartialOrd, Ord, Hash)]
pub enum ResourceNode {
    Anonymous(Id),
    Named(Id),
}

/// A node of the dependency graph: a resource, or a triple whose subject
/// is an anonymous resource.
#[derive(Debug, Clone, Copy, PartialEq, Eq, PartialOrd, Ord, Hash)]
pub enum Node {
    Resource(ResourceNode),
    Triple(Signed<(Id, ResourceNode, ResourceNode)>),
}

/// The strongly connected components of a dependency graph: the nodes of
/// each, the other components each has an edge to, and whether each has
/// an edge to itself.
pub struct Components {
    pub nodes: Vec<Vec<Node>>,
    pub successors: Vec<Vec<usize>>,
    pub reflexive: Vec<bool>,
}

impl Components {
    /// Every component has a list of successors, each a component.
    pub open spec fn wf(&self) -> bool {
        &&& self.successors@.len() == self.nodes@.len()
        &&& self.reflexive@.len() == self.nodes@.len()
        &&& forall|c: int, k: int|
            0 <= c < self.successors@.len() && 0 <= k < self.successors@[c]@.len() ==> #[trigger] self.successors@[c]@[k]
                < self.nodes@.len()
    }

    /// The nodes of each component.
    pub open spec fn node_seqs(&self) -> Seq<Seq<Node>> {
        self.nodes@.map_values(|v: Vec<Node>| v@)
    }
}

/// The classes of the resources classified so far.
pub struct Classes {
    map: ClassOfMap,
}

impl Classes {
    pub closed spec fn view(&self) -> Map<u32, Class> {
        class_of_entries(self.map)
    }

    pub fn new() -> (r: Classes)
        ensures
            r.view() == Map::<u32, Class>::empty(),
    {
        Classes { map: class_of_new() }
    }

    /// Gives the resource its class.
    pub fn insert(&mut self, id: Id, class: Class)
        ensures
            final(self).view() == old(self).view().insert(id.0, class),
    {
        class_of_insert(&mut self.map, id.0, class)
    }

    /// The class of the resource, if it has one.
    pub fn get(&self, id: Id) -> (r: Option<Class>)
        ensures
            r == (if self.view().contains_key(id.0) {
                Some(self.view()[id.0])
            } else {
                None
            }),
    {
        class_of_get(&self.map, id.0)
    }
}

/// Whether the resource is named, or anonymous with a class.
pub open spec fn classified(classes: Map<u32, Class>, n: ResourceNode) -> bool {
    match n {
        ResourceNode::Named(_) => true,
        ResourceNode::Anonymous(id) => classes.contains_key(id.0),
    }
}

/// How a member refers to a resource classified before: a named one by
/// itself, an anonymous one by its class.
pub open spec fn class_reference(classes: Map<u32, Class>, n: ResourceNode) -> Reference {
    match n {
        ResourceNode::Named(id) => Reference::Singleton(id),
        ResourceNode::Anonymous(id) => Reference::Class(classes[id.0]),
    }
}

/// The bindings of `id` given by the triple nodes of `nodes` about it, in
/// order.
pub open spec fn node_bindings(classes: Map<u32, Class>, id: Id, nodes: Seq<Node>) -> Seq<Binding>
    decreases nodes.len(),
{
    if nodes.len() == 0 {
        Seq::empty()
    } else {
        let rest = node_bindings(classes, id, nodes.drop_last());
        match nodes.last() {
            Node::Triple(Signed(sign, (x, a, b))) => if x == id {
                rest.push(Signed(sign, (class_reference(classes, a), class_reference(classes, b))))
            } else {
                rest
            },
            Node::Resource(_) => rest,
        }
    }
}

/// Whether the triple nodes of `nodes` about `id` refer to classified
/// resources only.
pub open spec fn nodes_classified(classes: Map<u32, Class>, id: Id, nodes: Seq<Node>) -> bool {
    forall|i: int|
        0 <= i < nodes.len() ==> match #[trigger] nodes[i] {
            Node::Triple(Signed(_, (x, a, b))) => x == id ==> classified(classes, a) && classified(classes, b),
            Node::Resource(_) => true,
        }
}

/// The bindings of `id` given by the components `succ`, in turn.
pub open spec fn successor_bindings(classes: Map<u32, Class>, id: Id, comps: Seq<Seq<Node>>, succ: Seq<usize>) -> Seq<Binding>
    decreases succ.len(),
{
    if succ.len() == 0 {
        Seq::empty()
    } else {
        successor_bindings(classes, id, comps, succ.drop_last()) + node_bindings(classes, id, comps[succ.last() as int])
    }
}

/// Bindings in order: none is before one that precedes it.
pub open spec fn bindings_sorted(s: Seq<Binding>) -> bool {
    forall|i: int, j: int| 0 <= i < j < s.len() ==> !binding_lt(#[trigger] s[j], #[trigger] s[i])
}

/// Inserts `x` into the sorted `r` after every binding that does not come
/// after it.
fn insert_binding(r: &mut Vec<Binding>, x: Binding)
    requires
        bindings_sorted(old(r)@),
    ensures
        bindings_sorted(final(r)@),
        final(r)@.to_multiset() == old(r)@.to_multiset().insert(x),
{
    let mut p: usize = 0;
    while p < r.len() && !binding_less(&x, &r[p])
        invariant
            p <= r@.len(),
            forall|i: int| 0 <= i < p ==> !binding_lt(x, #[trigger] r@[i]),
        decreases r@.len() - p,
    {
        p = p + 1;
    }
    let ghost r0 = r@;
    r.insert(p, x);
    proof {
        vstd::seq_lib::to_multiset_insert(r0, p as int, x);
        assert forall|i: int, j: int| 0 <= i < j < r@.len() implies !binding_lt(#[trigger] r@[j], #[trigger] r@[i]) by {
            if j < p {
                assert(r@[i] == r0[i] && r@[j] == r0[j]);
            } else if j == p {
                assert(r@[i] == r0[i]);
            } else if i == p {
                assert(r@[j] == r0[j - 1]);
                assert(binding_lt(x, r0[p as int]));
                if j - 1 != p {
                    assert(!binding_lt(r0[j - 1], r0[p as int]));
                }
            } else if i < p {
                assert(r@[i] == r0[i] && r@[j] == r0[j - 1]);
            } else {
                assert(r@[i] == r0[i - 1] && r@[j] == r0[j - 1]);
            }
        }
    }
}

/// Sorts bindings by their derived order.
pub fn sort_bindings(v: Vec<Binding>) -> (r: Vec<Binding>)
    ensures
        bindings_sorted(r@),
        r@.to_multiset() == v@.to_multiset(),
{
    let mut v = v;
    let ghost v0 = v@;
    let mut r: Vec<Binding> = Vec::new();
    proof {
        lemma_empty_to_multiset(r@);
        broadcast use vstd::multiset::group_multiset_axioms;
        assert(r@.to_multiset().add(v@.to_multiset()) =~= v0.to_multiset());
    }
    while v.len() > 0
        invariant
            bindings_sorted(r@),
            r@.to_multiset().add(v@.to_multiset()) == v0.to_multiset(),
        decreases v@.len(),
    {
        let ghost before = v@;
        let x = v.pop().unwrap();
        proof {
            assert(before =~= v@.push(x));
            vstd::seq_lib::to_multiset_build(v@, x);
        }
        let ghost r_before = r@;
        insert_binding(&mut r, x);
        proof {
            broadcast use vstd::multiset::group_multiset_axioms;
            assert(r@.to_multiset().add(v@.to_multiset()) =~= r_before.to_multiset().add(before.to_multiset()));
        }
    }
    proof {
        broadcast use vstd::multiset::group_multiset_axioms;
        lemma_empty_to_multiset(v@);
        assert(r@.to_multiset().add(v@.to_multiset()) =~= r@.to_multiset());
    }
    r
}

/// How a member refers to a resource classified before.
fn reference_of(classes: &Classes, n: ResourceNode) -> (r: Reference)
    requires
        classified(classes.view(), n),
    ensures
        r == class_reference(classes.view(), n),
{
    match n {
        ResourceNode::Named(id) => Reference::Singleton(id),
        ResourceNode::Anonymous(id) => Reference::Class(classes.get(id).unwrap()),
    }
}

/// Appends the bindings of `id` given by the triple nodes of `nodes`.
fn push_node_bindings(classes: &Classes, id: Id, nodes: &Vec<Node>, out: &mut Vec<Binding>)
    requires
        nodes_classified(classes.view(), id, nodes@),
    ensures
        final(out)@ == old(out)@ + node_bindings(classes.view(), id, nodes@),
{
    let mut j: usize = 0;
    while j < nodes.len()
        invariant
            j <= nodes@.len(),
            nodes_classified(classes.view(), id, nodes@),
            out@ == old(out)@ + node_bindings(classes.view(), id, nodes@.take(j as int)),
        decreases nodes@.len() - j,
    {
        proof {
            assert(nodes@.take(j as int + 1).drop_last() =~= nodes@.take(j as int));
            assert(nodes@.take(j as int + 1).last() == nodes@[j as int]);
        }
        match nodes[j] {
            Node::Triple(Signed(sign, (x, a, b))) => {
                if x == id {
                    proof {
                        assert(match nodes@[j as int] {
                            Node::Triple(Signed(_, (x, a, b))) => x == id ==> classified(classes.view(), a) && classified(classes.view(), b),
                            Node::Resource(_) => true,
                        });
                    }
                    let ra = reference_of(classes, a);
                    let rb = reference_of(classes, b);
                    out.push(Signed(sign, (ra, rb)));
                }
            },
            Node::Resource(_) => {},
        }
        proof {
            assert(out@ =~= old(out)@ + node_bindings(classes.view(), id, nodes@.take(j as int + 1)));
        }
        j = j + 1;
    }
    proof {
        assert(nodes@.take(j as int) =~= nodes@);
    }
}

/// Whether every successor of component `c` refers, in its triple nodes
/// about `id`, to classified resources only.
pub open spec fn successors_classified(components: Components, classes: Map<u32, Class>, c: int, id: Id) -> bool {
    forall|k: int|
        0 <= k < components.successors@[c]@.len() ==> nodes_classified(
            classes,
            id,
            #[trigger] components.node_seqs()[components.successors@[c]@[k] as int],
        )
}

/// Appends the bindings of `id` given by the successors of component `c`.
fn push_successor_bindings(components: &Components, classes: &Classes, c: usize, id: Id, out: &mut Vec<Binding>)
    requires
        components.wf(),
        c < components.nodes@.len(),
        successors_classified(*components, classes.view(), c as int, id),
    ensures
        final(out)@ == old(out)@ + successor_bindings(
            classes.view(),
            id,
            components.node_seqs(),
            components.successors@[c as int]@,
        ),
{
    let succ = &components.successors[c];
    let mut k: usize = 0;
    while k < succ.len()
        invariant
            components.wf(),
            c < components.nodes@.len(),
            *succ == components.successors@[c as int],
            successors_classified(*components, classes.view(), c as int, id),
            k <= succ@.len(),
            out@ == old(out)@ + successor_bindings(classes.view(), id, components.node_seqs(), succ@.take(k as int)),
        decreases succ@.len() - k,
    {
        let d = succ[k];
        proof {
            assert(succ@.take(k as int + 1).drop_last() =~= succ@.take(k as int));
            assert(succ@.take(k as int + 1).last() == d);
            assert(d < components.nodes@.len());
            assert(nodes_classified(classes.view(), id, components.node_seqs()[d as int]));
            assert(components.node_seqs()[d as int] == components.nodes@[d as int]@);
        }
        let ghost before = out@;
        push_node_bindings(classes, id, &components.nodes[d], out);
        proof {
            assert(out@ =~= old(out)@ + successor_bindings(classes.view(), id, components.node_seqs(), succ@.take(k as int + 1)));
        }
        k = k + 1;
    }
    proof {
        assert(succ@.take(k as int) =~= succ@);
    }
}

/// Whether `bs` is the sorted form of the bindings `id` gets from the
/// successors of component `c`.
pub open spec fn non_reflexive_bindings(components: Components, classes: Map<u32, Class>, c: int, id: Id, bs: Seq<Binding>) -> bool {
    &&& bindings_sorted(bs)
    &&& bs.to_multiset() == successor_bindings(classes, id, components.node_seqs(), components.successors@[c]@).to_multiset()
}

/// Classifies a component without a cycle, whose first node is the
/// resource: if it is anonymous, its group has it as single member, with
/// the properties its triples give it (in order), and it is that group's
/// first member.
pub fn compute_non_reflexive(
    components: &Components,
    classes: &Classes,
    new_groups: &mut Vec<Description>,
    new_classes: &mut Vec<(Id, LayerClass)>,
    c: usize,
)
    requires
        components.wf(),
        c < components.nodes@.len(),
        components.nodes@[c as int]@.len() > 0,
        components.nodes@[c as int]@[0] matches Node::Resource(ResourceNode::Anonymous(id)) ==> successors_classified(
            *components,
            classes.view(),
            c as int,
            id,
        ),
    ensures
        match components.nodes@[c as int]@[0] {
            Node::Resource(ResourceNode::Anonymous(id)) => {
                &&& final(new_groups)@.len() == old(new_groups)@.len() + 1
                &&& final(new_groups)@.take(old(new_groups)@.len() as int) == old(new_groups)@
                &&& final(new_groups)@.last().members@.len() == 1
                &&& non_reflexive_bindings(
                    *components,
                    classes.view(),
                    c as int,
                    id,
                    final(new_groups)@.last().members@[0].properties@,
                )
                &&& final(new_classes)@ == old(new_classes)@.push((id, LayerClass { group: old(new_groups)@.len() as usize, member: 0 }))
            },
            _ => {
                &&& final(new_groups)@ == old(new_groups)@
                &&& final(new_classes)@ == old(new_classes)@
            },
        },
{
    match components.nodes[c][0] {
        Node::Resource(ResourceNode::Anonymous(id)) => {
            let mut bindings: Vec<Binding> = Vec::new();
            push_successor_bindings(components, classes, c, id, &mut bindings);
            proof {
                assert(bindings@ =~= successor_bindings(classes.view(), id, components.node_seqs(), components.successors@[c as int]@));
            }
            let sorted = sort_bindings(bindings);
            let group = Description::non_reflexive(Member::new(sorted));
            let group_id = new_groups.len();
            new_groups.push(group);
            new_classes.push((id, LayerClass::new(group_id, 0)));
            proof {
                assert(new_groups@.take(old(new_groups)@.len() as int) =~= old(new_groups)@);
            }
        },
        _ => {},
    }
}

/// The anonymous resources among the nodes, in order: the members of a
/// group.
pub open spec fn member_ids(nodes: Seq<Node>) -> Seq<Id>
    decreases nodes.len(),
{
    if nodes.len() == 0 {
        Seq::empty()
    } else {
        let rest = member_ids(nodes.drop_last());
        match nodes.last() {
            Node::Resource(ResourceNode::Anonymous(id)) => rest.push(id),
            _ => rest,
        }
    }
}

/// How a member of the group `ids` refers to a resource: another member
/// by its position, a named resource by itself, an anonymous one outside
/// the group by its class.
pub open spec fn group_reference(classes: Map<u32, Class>, ids: Seq<Id>, n: ResourceNode) -> Reference {
    match n {
        ResourceNode::Named(id) => Reference::Singleton(id),
        ResourceNode::Anonymous(id) => if ids.contains(id) {
            Reference::Group(ids.index_of(id) as u32)
        } else {
            Reference::Class(classes[id.0])
        },
    }
}

/// Whether the group `ids` can refer to the resource.
pub open spec fn group_known(classes: Map<u32, Class>, ids: Seq<Id>, n: ResourceNode) -> bool {
    match n {
        ResourceNode::Named(_) => true,
        ResourceNode::Anonymous(id) => ids.contains(id) || classes.contains_key(id.0),
    }
}

/// The bindings of member `id` of the group `ids` given by the triple
/// nodes of `nodes` about it, in order.
pub open spec fn group_bindings(classes: Map<u32, Class>, ids: Seq<Id>, id: Id, nodes: Seq<Node>) -> Seq<Binding>
    decreases nodes.len(),
{
    if nodes.len() == 0 {
        Seq::empty()
    } else {
        let rest = group_bindings(classes, ids, id, nodes.drop_last());
        match nodes.last() {
            Node::Triple(Signed(sign, (x, a, b))) => if x == id {
                rest.push(Signed(sign, (group_reference(classes, ids, a), group_reference(classes, ids, b))))
            } else {
                rest
            },
            Node::Resource(_) => rest,
        }
    }
}

/// The bindings of member `id` given by the components `succ`, in turn.
pub open spec fn successor_group_bindings(
    classes: Map<u32, Class>,
    ids: Seq<Id>,
    id: Id,
    comps: Seq<Seq<Node>>,
    succ: Seq<usize>,
) -> Seq<Binding>
    decreases succ.len(),
{
    if succ.len() == 0 {
        Seq::empty()
    } else {
        successor_group_bindings(classes, ids, id, comps, succ.drop_last()) + group_bindings(
            classes,
            ids,
            id,
            comps[succ.last() as int],
        )
    }
}

/// Whether the triple nodes of `nodes` about members of `ids` refer only
/// to resources the group can refer to; with `all`, every triple node is
/// about a member.
pub open spec fn group_nodes_known(classes: Map<u32, Class>, ids: Seq<Id>, nodes: Seq<Node>, all: bool) -> bool {
    forall|i: int|
        0 <= i < nodes.len() ==> match #[trigger] nodes[i] {
            Node::Triple(Signed(_, (x, a, b))) => {
                &&& all ==> ids.contains(x)
                &&& ids.contains(x) ==> group_known(classes, ids, a) && group_known(classes, ids, b)
            },
            Node::Resource(_) => true,
        }
}

/// Whether a cyclic component can be classified: its members are
/// distinct and fit in 32-bit positions, each of its triple nodes is about
/// a member, and every triple node about a member, in it or in a
/// successor, refers to members or to classified resources.
pub open spec fn reflexive_ready(components: Components, classes: Map<u32, Class>, c: int) -> bool {
    let ids = member_ids(components.node_seqs()[c]);
    &&& ids.no_duplicates()
    &&& ids.len() <= u32::MAX
    &&& group_nodes_known(classes, ids, components.node_seqs()[c], true)
    &&& forall|k: int|
        0 <= k < components.successors@[c]@.len() ==> group_nodes_known(
            classes,
            ids,
            #[trigger] components.node_seqs()[components.successors@[c]@[k] as int],
            false,
        )
}

/// The properties of each member of the cyclic component `c`: those its
/// triples in the component give it, then those its triples in the
/// successors give it.
pub open spec fn reflexive_properties(components: Components, classes: Map<u32, Class>, c: int, i: int) -> Seq<Binding> {
    let ids = member_ids(components.node_seqs()[c]);
    group_bindings(classes, ids, ids[i], components.node_seqs()[c]) + successor_group_bindings(
        classes,
        ids,
        ids[i],
        components.node_seqs(),
        components.successors@[c]@,
    )
}

/// The anonymous resources among the nodes, in order.
fn collect_member_ids(nodes: &Vec<Node>) -> (r: Vec<Id>)
    ensures
        r@ == member_ids(nodes@),
{
    let mut r: Vec<Id> = Vec::new();
    let mut j: usize = 0;
    while j < nodes.len()
        invariant
            j <= nodes@.len(),
            r@ == member_ids(nodes@.take(j as int)),
        decreases nodes@.len() - j,
    {
        proof {
            assert(nodes@.take(j as int + 1).drop_last() =~= nodes@.take(j as int));
            assert(nodes@.take(j as int + 1).last() == nodes@[j as int]);
        }
        match nodes[j] {
            Node::Resource(ResourceNode::Anonymous(id)) => r.push(id),
            _ => {},
        }
        j = j + 1;
    }
    proof {
        assert(nodes@.take(j as int) =~= nodes@);
    }
    r
}

/// The position of `id` among `ids`, if it is there.
fn position(ids: &Vec<Id>, id: Id) -> (r: Option<usize>)
    requires
        ids@.no_duplicates(),
    ensures
        match r {
            Some(i) => ids@.contains(id) && i == ids@.index_of(id),
            None => !ids@.contains(id),
        },
{
    let mut j: usize = 0;
    while j < ids.len()
        invariant
            j <= ids@.len(),
            ids@.no_duplicates(),
            forall|k: int| 0 <= k < j ==> ids@[k] != id,
        decreases ids@.len() - j,
    {
        if ids[j] == id {
            proof {
                assert(ids@.contains(id));
                let k = ids@.index_of(id);
                assert(ids@[k] == id);
                assert(ids@[j as int] == id);
                assert(k == j);
            }
            return Some(j);
        }
        j = j + 1;
    }
    None
}

/// How a member of the group `ids` refers to a resource.
fn group_reference_of(classes: &Classes, ids: &Vec<Id>, n: ResourceNode) -> (r: Reference)
    requires
        ids@.no_duplicates(),
        ids@.len() <= u32::MAX,
        group_known(classes.view(), ids@, n),
    ensures
        r == group_reference(classes.view(), ids@, n),
{
    match n {
        ResourceNode::Named(id) => Reference::Singleton(id),
        ResourceNode::Anonymous(id) => match position(ids, id) {
            Some(i) => Reference::Group(i as u32),
            None => Reference::Class(classes.get(id).unwrap()),
        },
    }
}

/// Appends the bindings of member `id` given by the triple nodes of
/// `nodes`.
fn push_group_bindings(classes: &Classes, ids: &Vec<Id>, id: Id, nodes: &Vec<Node>, all: bool, out: &mut Vec<Binding>)
    requires
        ids@.no_duplicates(),
        ids@.len() <= u32::MAX,
        ids@.contains(id),
        group_nodes_known(classes.view(), ids@, nodes@, all),
    ensures
        final(out)@ == old(out)@ + group_bindings(classes.view(), ids@, id, nodes@),
{
    let mut j: usize = 0;
    while j < nodes.len()
        invariant
            j <= nodes@.len(),
            ids@.no_duplicates(),
            ids@.len() <= u32::MAX,
            ids@.contains(id),
            group_nodes_known(classes.view(), ids@, nodes@, all),
            out@ == old(out)@ + group_bindings(classes.view(), ids@, id, nodes@.take(j as int)),
        decreases nodes@.len() - j,
    {
        proof {
            assert(nodes@.take(j as int + 1).drop_last() =~= nodes@.take(j as int));
            assert(nodes@.take(j as int + 1).last() == nodes@[j as int]);
        }
        match nodes[j] {
            Node::Triple(Signed(sign, (x, a, b))) => {
                if x == id {
                    proof {
                        assert(match nodes@[j as int] {
                            Node::Triple(Signed(_, (x, a, b))) => ids@.contains(x) ==> group_known(classes.view(), ids@, a)
                                && group_known(classes.view(), ids@, b),
                            Node::Resource(_) => true,
                        });
                    }
                    let ra = group_reference_of(classes, ids, a);
                    let rb = group_reference_of(classes, ids, b);
                    out.push(Signed(sign, (ra, rb)));
                }
            },
            Node::Resource(_) => {},
        }
        proof {
            assert(out@ =~= old(out)@ + group_bindings(classes.view(), ids@, id, nodes@.take(j as int + 1)));
        }
        j = j + 1;
    }
    proof {
        assert(nodes@.take(j as int) =~= nodes@);
    }
}

/// The members of the cyclic component `c`, with their properties.
pub fn reflexive_members(components: &Components, classes: &Classes, c: usize) -> (r: (Vec<Id>, Vec<Member>))
    requires
        components.wf(),
        c < components.nodes@.len(),
        reflexive_ready(*components, classes.view(), c as int),
    ensures
        r.0@ == member_ids(components.node_seqs()[c as int]),
        r.1@.len() == r.0@.len(),
        forall|i: int| 0 <= i < r.1@.len() ==> (#[trigger] r.1@[i]).properties@ == reflexive_properties(
            *components,
            classes.view(),
            c as int,
            i,
        ),
{
    let nodes = &components.nodes[c];
    proof {
        assert(components.node_seqs()[c as int] == nodes@);
    }
    let ids = collect_member_ids(nodes);
    let succ = &components.successors[c];
    let mut members: Vec<Member> = Vec::new();
    let mut i: usize = 0;
    while i < ids.len()
        invariant
            components.wf(),
            c < components.nodes@.len(),
            *nodes == components.nodes@[c as int],
            *succ == components.successors@[c as int],
            components.node_seqs()[c as int] == nodes@,
            ids@ == member_ids(nodes@),
            reflexive_ready(*components, classes.view(), c as int),
            i <= ids@.len(),
            members@.len() == i,
            forall|t: int| 0 <= t < i ==> (#[trigger] members@[t]).properties@ == reflexive_properties(
                *components,
                classes.view(),
                c as int,
                t,
            ),
        decreases ids@.len() - i,
    {
        let id = ids[i];
        proof {
            assert(ids@.contains(id));
        }
        let mut bindings: Vec<Binding> = Vec::new();
        push_group_bindings(classes, &ids, id, nodes, true, &mut bindings);
        let mut k: usize = 0;
        while k < succ.len()
            invariant
                components.wf(),
                c < components.nodes@.len(),
                *succ == components.successors@[c as int],
                components.node_seqs()[c as int] == nodes@,
                ids@ == member_ids(nodes@),
                reflexive_ready(*components, classes.view(), c as int),
                ids@.contains(id),
                k <= succ@.len(),
                bindings@ == group_bindings(classes.view(), ids@, id, nodes@) + successor_group_bindings(
                    classes.view(),
                    ids@,
                    id,
                    components.node_seqs(),
                    succ@.take(k as int),
                ),
            decreases succ@.len() - k,
        {
            let d = succ[k];
            proof {
                assert(succ@.take(k as int + 1).drop_last() =~= succ@.take(k as int));
                assert(succ@.take(k as int + 1).last() == d);
                assert(d < components.nodes@.len());
                assert(group_nodes_known(classes.view(), ids@, components.node_seqs()[d as int], false));
                assert(components.node_seqs()[d as int] == components.nodes@[d as int]@);
            }
            push_group_bindings(classes, &ids, id, &components.nodes[d], false, &mut bindings);
            proof {
                assert(bindings@ =~= group_bindings(classes.view(), ids@, id, nodes@) + successor_group_bindings(
                    classes.view(),
                    ids@,
                    id,
                    components.node_seqs(),
                    succ@.take(k as int + 1),
                ));
            }
            k = k + 1;
        }
        proof {
            assert(succ@.take(k as int) =~= succ@);
        }
        members.push(Member::new(bindings));
        i = i + 1;
    }
    (ids, members)
}

/// The classes of the members `ids` of group `g`: each member at the
/// position the normal form `morphism` gives it.
pub open spec fn member_classes(ids: Seq<Id>, morphism: Seq<usize>, g: usize) -> Seq<(Id, LayerClass)> {
    Seq::new(ids.len(), |i: int| (ids[i], LayerClass { group: g, member: morphism[i] as u32 }))
}

/// Records the group of a cyclic component, in normal form, and the class
/// of each member: the group's number and the member's position in the
/// normal form.
pub fn reflexive_classes(
    ids: &Vec<Id>,
    group: Description,
    morphism: &Vec<usize>,
    new_groups: &mut Vec<Description>,
    new_classes: &mut Vec<(Id, LayerClass)>,
)
    requires
        morphism@.len() >= ids@.len(),
    ensures
        final(new_groups)@ == old(new_groups)@.push(group),
        final(new_classes)@ == old(new_classes)@ + member_classes(ids@, morphism@, old(new_groups)@.len() as usize),
{
    let group_id = new_groups.len();
    new_groups.push(group);
    let mut i: usize = 0;
    while i < ids.len()
        invariant
            i <= ids@.len(),
            morphism@.len() >= ids@.len(),
            new_classes@ == old(new_classes)@ + member_classes(ids@, morphism@, group_id).take(i as int),
        decreases ids@.len() - i,
    {
        #[verifier::truncate]
        let member = morphism[i] as u32;
        new_classes.push((ids[i], LayerClass::new(group_id, member)));
        proof {
            assert(member_classes(ids@, morphism@, group_id).take(i as int + 1) =~= member_classes(ids@, morphism@, group_id).take(
                i as int,
            ).push((ids@[i as int], LayerClass { group: group_id, member })));
        }
        i = i + 1;
    }
    proof {
        assert(member_classes(ids@, morphism@, group_id).take(i as int) =~= member_classes(ids@, morphism@, group_id));
    }
}

/// Whether the groups and classes after classifying a cyclic component
/// are those before, with some group in normal form and the member
/// classes it gives.
pub open spec fn reflexive_outcome(
    ids: Seq<Id>,
    old_groups: Seq<Description>,
    groups: Seq<Description>,
    old_classes: Seq<(Id, LayerClass)>,
    classes: Seq<(Id, LayerClass)>,
) -> bool {
    exists|group: Description, morphism: Seq<usize>|
        #![trigger old_groups.push(group), member_classes(ids, morphism, old_groups.len() as usize)]
        {
            &&& morphism.len() >= ids.len()
            &&& groups == old_groups.push(group)
            &&& classes == old_classes + member_classes(ids, morphism, old_groups.len() as usize)
        }
}

/// Classifies a cyclic component: its members, with their properties,
/// are put in normal form by `normalizer`, and each gets the class of its
/// position there. Returns `false`, changing nothing, when the normal form
/// leaves some member without a position.
pub fn compute_reflexive<N: GroupNormalizer>(
    components: &Components,
    classes: &Classes,
    new_groups: &mut Vec<Description>,
    new_classes: &mut Vec<(Id, LayerClass)>,
    c: usize,
    normalizer: &mut N,
) -> (r: bool)
    requires
        components.wf(),
        c < components.nodes@.len(),
        reflexive_ready(*components, classes.view(), c as int),
    ensures
        r ==> reflexive_outcome(
            member_ids(components.node_seqs()[c as int]),
            old(new_groups)@,
            final(new_groups)@,
            old(new_classes)@,
            final(new_classes)@,
        ),
        !r ==> final(new_groups)@ == old(new_groups)@ && final(new_classes)@ == old(new_classes)@,
{
    let (ids, members) = reflexive_members(components, classes, c);
    let (group, morphism) = normalizer.normalize(members);
    if morphism.len() < ids.len() {
        return false;
    }
    let ghost g0 = new_groups@;
    reflexive_classes(&ids, group, &morphism, new_groups, new_classes);
    proof {
        assert(new_groups@ == g0.push(group));
    }
    true
}

/// Whether no IRI nor literal denotes the resource.
pub open spec fn anonymous_view(r: ResourceView) -> bool {
    r.0 == Set::<u32>::empty() && r.2 == Set::<u32>::empty()
}

/// Whether the interpretation has the resource, and it is anonymous.
pub open spec fn is_anonymous_in(interpretation: Interpretation, id: Id) -> bool {
    interpretation.resources().contains_key(id.0 as usize) && anonymous_view(interpretation.resources()[id.0 as usize])
}

/// The node of a resource of the interpretation.
pub open spec fn resource_node(interpretation: Interpretation, id: Id) -> ResourceNode {
    if anonymous_view(interpretation.resources()[id.0 as usize]) {
        ResourceNode::Anonymous(id)
    } else {
        ResourceNode::Named(id)
    }
}

/// The pattern of the triples with the given subject.
pub open spec fn subject_pattern(id: Id) -> Canonical {
    Canonical::GivenSubject(id, GivenSubject::AnyPredicate(GivenSubjectAnyPredicate::AnyObject))
}

/// Whether `f` is a fact of the dataset with subject `id`.
pub open spec fn fact_about(dataset: Standard, id: Id, f: graph::Fact) -> bool {
    exists|g: Option<Id>, i: u32| dataset.matches_in(g, i, f, subject_pattern(id), None)
}

/// The node of a fact about an anonymous resource.
pub open spec fn triple_node(interpretation: Interpretation, f: graph::Fact) -> Node {
    Node::Triple(
        Signed(f.0.0, (f.0.1.0, resource_node(interpretation, f.0.1.1), resource_node(interpretation, f.0.1.2))),
    )
}

/// Whether the facts about anonymous resources mention, as predicate and
/// object, resources of the interpretation only.
pub open spec fn dependencies_known(dataset: Standard, interpretation: Interpretation) -> bool {
    forall|id: Id, f: graph::Fact|
        is_anonymous_in(interpretation, id) && #[trigger] fact_about(dataset, id, f) ==> {
            &&& interpretation.resources().contains_key(f.0.1.1.0 as usize)
            &&& interpretation.resources().contains_key(f.0.1.2.0 as usize)
        }
}

/// Whether `r` is the dependency graph of the anonymous resources, as a
/// list of nodes with their successors: each anonymous resource depends on
/// the triple nodes of the facts about it, and each of those on its
/// predicate and object.
pub open spec fn dependency_graph_of(dataset: Standard, interpretation: Interpretation, r: Seq<(Node, Vec<Node>)>) -> bool {
    &&& forall|id: Id|
        #![trigger is_anonymous_in(interpretation, id)]
        (exists|k: int| 0 <= k < r.len() && r[k].0 == Node::Resource(ResourceNode::Anonymous(id))) <==> is_anonymous_in(
            interpretation,
            id,
        )
    &&& forall|k: int| 0 <= k < r.len() ==> #[trigger] dependency_entry(dataset, interpretation, r[k])
    &&& forall|id: Id, f: graph::Fact|
        is_anonymous_in(interpretation, id) && #[trigger] fact_about(dataset, id, f) ==> exists|k: int|
            0 <= k < r.len() && r[k].0 == triple_node(interpretation, f)
}

/// Whether `e` is an entry of the dependency graph: an anonymous resource
/// with the triple nodes of the facts about it, or the triple node of a
/// fact about an anonymous resource with its predicate and object.
pub open spec fn dependency_entry(dataset: Standard, interpretation: Interpretation, e: (Node, Vec<Node>)) -> bool {
    match e.0 {
        Node::Resource(ResourceNode::Anonymous(id)) => successors_of(dataset, interpretation, id, e.1@),
        Node::Resource(ResourceNode::Named(_)) => false,
        Node::Triple(Signed(_, (id, _, _))) => is_anonymous_in(interpretation, id) && triple_entry(dataset, interpretation, id, e),
    }
}

/// The node of a resource of the interpretation.
fn node_of(interpretation: &Interpretation, id: Id) -> (r: ResourceNode)
    requires
        interpretation.resources().contains_key(id.0 as usize),
    ensures
        r == resource_node(*interpretation, id),
{
    if interpretation.get(id).unwrap().is_anonymous() {
        ResourceNode::Anonymous(id)
    } else {
        ResourceNode::Named(id)
    }
}

/// Whether `e` is a triple node of a fact about `id`, with its predicate
/// and object as successors.
pub open spec fn triple_entry(dataset: Standard, interpretation: Interpretation, id: Id, e: (Node, Vec<Node>)) -> bool {
    &&& exists|f: graph::Fact| #[trigger] fact_about(dataset, id, f) && e.0 == triple_node(interpretation, f)
    &&& e.1@ == seq![Node::Resource(e.0->Triple_0.1.1), Node::Resource(e.0->Triple_0.1.2)]
}

/// Whether `succ` holds the triple nodes of the facts about `id`.
pub open spec fn successors_of(dataset: Standard, interpretation: Interpretation, id: Id, succ: Seq<Node>) -> bool {
    forall|n: Node|
        #[trigger] succ.contains(n) <==> exists|f: graph::Fact| #[trigger] fact_about(dataset, id, f) && n == triple_node(interpretation, f)
}

/// The entries of the dependency graph for the anonymous resource `id`:
/// the triple node of each fact about it, then the resource itself.
fn anonymous_dependencies(dataset: &Standard, interpretation: &Interpretation, id: Id) -> (r: Vec<(Node, Vec<Node>)>)
    requires
        dataset.wf(),
        is_anonymous_in(*interpretation, id),
        dependencies_known(*dataset, *interpretation),
    ensures
        r@.len() >= 1,
        r@.last().0 == Node::Resource(ResourceNode::Anonymous(id)),
        successors_of(*dataset, *interpretation, id, r@.last().1@),
        forall|k: int| 0 <= k < r@.len() - 1 ==> (#[trigger] r@[k]).0 is Triple && triple_entry(*dataset, *interpretation, id, r@[k]),
        forall|f: graph::Fact|
            #[trigger] fact_about(*dataset, id, f) ==> exists|k: int| 0 <= k < r@.len() && r@[k].0 == triple_node(*interpretation, f),
{
    let pattern = Canonical::GivenSubject(id, GivenSubject::AnyPredicate(GivenSubjectAnyPredicate::AnyObject));
    let matches = dataset.matching(pattern);
    let mut r: Vec<(Node, Vec<Node>)> = Vec::new();
    let mut succ: Vec<Node> = Vec::new();
    let mut t: usize = 0;
    while t < matches.len()
        invariant
            t <= matches@.len(),
            pattern == subject_pattern(id),
            is_anonymous_in(*interpretation, id),
            dependencies_known(*dataset, *interpretation),
            forall|x: crate::dataset::standard::Match<'_>| #[trigger] matches@.contains(x) <==> dataset.matches_in(x.0, x.1, *x.2, pattern, None),
            forall|k: int| 0 <= k < r@.len() ==> (#[trigger] r@[k]).0 is Triple && triple_entry(*dataset, *interpretation, id, r@[k]),
            forall|n: Node| #[trigger] succ@.contains(n) <==> exists|b: int| 0 <= b < t && n == triple_node(*interpretation, *matches@[b].2),
            forall|b: int| 0 <= b < t ==> exists|k: int| 0 <= k < r@.len() && r@[k].0 == triple_node(*interpretation, *(#[trigger] matches@[b]).2),
        decreases matches@.len() - t,
    {
        let (_, _, f) = matches[t];
        proof {
            assert(matches@.contains(matches@[t as int]));
            assert(fact_about(*dataset, id, *f));
        }
        let Meta(Signed(sign, Triple(s, p, o)), _) = *f;
        let pn = node_of(interpretation, p);
        let on = node_of(interpretation, o);
        let node = Node::Triple(Signed(sign, (s, pn, on)));
        let mut deps: Vec<Node> = Vec::new();
        deps.push(Node::Resource(pn));
        deps.push(Node::Resource(on));
        let ghost rp = r@;
        let ghost sp = succ@;
        r.push((node, deps));
        succ.push(node);
        proof {
            assert(node == triple_node(*interpretation, *f));
            assert(r@[r@.len() - 1].1@ =~= seq![Node::Resource(pn), Node::Resource(on)]);
            assert(triple_entry(*dataset, *interpretation, id, r@[r@.len() - 1]));
            assert forall|k: int| 0 <= k < r@.len() implies (#[trigger] r@[k]).0 is Triple && triple_entry(
                *dataset,
                *interpretation,
                id,
                r@[k],
            ) by {
                if k < rp.len() {
                    assert(r@[k] == rp[k]);
                }
            }
            assert(succ@ == sp.push(node));
            assert forall|n: Node| #[trigger] succ@.contains(n) <==> exists|b: int|
                0 <= b < t + 1 && n == triple_node(*interpretation, *matches@[b].2) by {
                if succ@.contains(n) {
                    let y = choose|y: int| 0 <= y < succ@.len() && succ@[y] == n;
                    if y < sp.len() {
                        assert(sp[y] == n);
                        assert(sp.contains(n));
                        let b = choose|b: int| 0 <= b < t && n == triple_node(*interpretation, *matches@[b].2);
                        assert(0 <= b < t + 1 && n == triple_node(*interpretation, *matches@[b].2));
                    } else {
                        assert(n == triple_node(*interpretation, *matches@[t as int].2));
                    }
                }
                if exists|b: int| 0 <= b < t + 1 && n == triple_node(*interpretation, *matches@[b].2) {
                    let b = choose|b: int| 0 <= b < t + 1 && n == triple_node(*interpretation, *matches@[b].2);
                    if b < t {
                        assert(sp.contains(n));
                        let y = choose|y: int| 0 <= y < sp.len() && sp[y] == n;
                        assert(succ@[y] == n);
                    } else {
                        assert(succ@[succ@.len() - 1] == n);
                    }
                }
            }
            assert forall|b: int| 0 <= b < t + 1 implies exists|k: int|
                0 <= k < r@.len() && r@[k].0 == triple_node(*interpretation, *(#[trigger] matches@[b]).2) by {
                if b == t {
                    assert(r@[r@.len() - 1].0 == node);
                } else {
                    let k = choose|k: int| 0 <= k < rp.len() && rp[k].0 == triple_node(*interpretation, *matches@[b].2);
                    assert(r@[k] == rp[k]);
                }
            }
        }
        t = t + 1;
    }
    let ghost r1 = r@;
    let ghost sv = succ@;
    r.push((Node::Resource(ResourceNode::Anonymous(id)), succ));
    proof {
        assert forall|n: Node| #[trigger] sv.contains(n) <==> exists|f: graph::Fact|
            #[trigger] fact_about(*dataset, id, f) && n == triple_node(*interpretation, f) by {
            if sv.contains(n) {
                let b = choose|b: int| 0 <= b < matches@.len() && n == triple_node(*interpretation, *matches@[b].2);
                assert(matches@.contains(matches@[b]));
                let x = matches@[b];
                assert(dataset.matches_in(x.0, x.1, *x.2, subject_pattern(id), None));
                assert(fact_about(*dataset, id, *x.2));
            }
            if exists|f: graph::Fact| #[trigger] fact_about(*dataset, id, f) && n == triple_node(*interpretation, f) {
                let f = choose|f: graph::Fact| #[trigger] fact_about(*dataset, id, f) && n == triple_node(*interpretation, f);
                let (g, i) = choose|g: Option<Id>, i: u32| dataset.matches_in(g, i, f, subject_pattern(id), None);
                let x: crate::dataset::standard::Match<'_> = (g, i, &f);
                assert(matches@.contains(x));
                let b = choose|b: int| 0 <= b < matches@.len() && matches@[b] == x;
                assert(n == triple_node(*interpretation, *matches@[b].2));
            }
        }
        assert(r@.last().1@ == sv);
        assert forall|k: int| 0 <= k < r@.len() - 1 implies (#[trigger] r@[k]).0 is Triple && triple_entry(
            *dataset,
            *interpretation,
            id,
            r@[k],
        ) by {
            assert(r@[k] == r1[k]);
        }
        assert forall|f: graph::Fact| #[trigger] fact_about(*dataset, id, f) implies exists|k: int|
            0 <= k < r@.len() && r@[k].0 == triple_node(*interpretation, f) by {
            let (g, i) = choose|g: Option<Id>, i: u32| dataset.matches_in(g, i, f, subject_pattern(id), None);
            let y: crate::dataset::standard::Match<'_> = (g, i, &f);
            assert(matches@.contains(y));
            let b = choose|b: int| 0 <= b < matches@.len() && matches@[b] == y;
            let k = choose|k: int| 0 <= k < r1.len() && r1[k].0 == triple_node(*interpretation, *matches@[b].2);
            assert(r@[k] == r1[k]);
        }
    }
    r
}

/// Whether the anonymous resources among the first `j` of `ids` are
/// exactly those `r` has a node of.
#[verifier::opaque]
spec fn keys_upto(interpretation: Interpretation, r: Seq<(Node, Vec<Node>)>, ids: Seq<Id>, j: int) -> bool {
    forall|id: Id|
        #![trigger is_anonymous_in(interpretation, id)]
        (exists|k: int| 0 <= k < r.len() && r[k].0 == Node::Resource(ResourceNode::Anonymous(id))) <==> (is_anonymous_in(
            interpretation,
            id,
        ) && exists|a: int| 0 <= a < j && ids[a] == id)
}

/// Whether every entry of `r` is one of the dependency graph.
#[verifier::opaque]
spec fn entries_ok(dataset: Standard, interpretation: Interpretation, r: Seq<(Node, Vec<Node>)>) -> bool {
    forall|k: int| 0 <= k < r.len() ==> #[trigger] dependency_entry(dataset, interpretation, r[k])
}

/// Whether every fact about an anonymous resource among the first `j` of
/// `ids` has its triple node in `r`.
#[verifier::opaque]
spec fn triples_upto(dataset: Standard, interpretation: Interpretation, r: Seq<(Node, Vec<Node>)>, ids: Seq<Id>, j: int) -> bool {
    forall|id: Id, f: graph::Fact|
        is_anonymous_in(interpretation, id) && (exists|a: int| 0 <= a < j && ids[a] == id) && #[trigger] fact_about(
            dataset,
            id,
            f,
        ) ==> exists|k: int| 0 <= k < r.len() && r[k].0 == triple_node(interpretation, f)
}

/// Adding the entries of an anonymous resource, the next of `ids`.
#[verifier::spinoff_prover]
proof fn lemma_graph_step_anonymous(
    dataset: Standard,
    interpretation: Interpretation,
    ids: Seq<Id>,
    j: int,
    r0: Seq<(Node, Vec<Node>)>,
    nv: Seq<(Node, Vec<Node>)>,
)
    requires
        0 <= j < ids.len(),
        is_anonymous_in(interpretation, ids[j]),
        keys_upto(interpretation, r0, ids, j),
        entries_ok(dataset, interpretation, r0),
        triples_upto(dataset, interpretation, r0, ids, j),
        nv.len() >= 1,
        nv.last().0 == Node::Resource(ResourceNode::Anonymous(ids[j])),
        successors_of(dataset, interpretation, ids[j], nv.last().1@),
        forall|k: int| 0 <= k < nv.len() - 1 ==> (#[trigger] nv[k]).0 is Triple && triple_entry(dataset, interpretation, ids[j], nv[k]),
        forall|f: graph::Fact|
            #[trigger] fact_about(dataset, ids[j], f) ==> exists|k: int| 0 <= k < nv.len() && nv[k].0 == triple_node(interpretation, f),
    ensures
        keys_upto(interpretation, r0 + nv, ids, j + 1),
        entries_ok(dataset, interpretation, r0 + nv),
        triples_upto(dataset, interpretation, r0 + nv, ids, j + 1),
{
    reveal(keys_upto);
    reveal(entries_ok);
    reveal(triples_upto);
    let id = ids[j];
    let r = r0 + nv;
    assert forall|k: int| 0 <= k < r.len() implies #[trigger] dependency_entry(dataset, interpretation, r[k]) by {
        if k < r0.len() {
            assert(r[k] == r0[k]);
        } else {
            assert(r[k] == nv[k - r0.len()]);
            if k - r0.len() < nv.len() - 1 {
                assert(nv[k - r0.len()].0 is Triple && triple_entry(dataset, interpretation, id, nv[k - r0.len()]));
                let f = choose|f: graph::Fact| #[trigger] fact_about(dataset, id, f) && nv[k - r0.len()].0 == triple_node(interpretation, f);
                assert(fact_about(dataset, id, f));
            } else {
                assert(nv[k - r0.len()] == nv.last());
            }
        }
    }
    assert forall|x: Id|
        #![trigger is_anonymous_in(interpretation, x)]
        (exists|k: int| 0 <= k < r.len() && r[k].0 == Node::Resource(ResourceNode::Anonymous(x))) <==> (is_anonymous_in(
            interpretation,
            x,
        ) && exists|a: int| 0 <= a < j + 1 && ids[a] == x) by {
        if exists|k: int| 0 <= k < r.len() && r[k].0 == Node::Resource(ResourceNode::Anonymous(x)) {
            let k = choose|k: int| 0 <= k < r.len() && r[k].0 == Node::Resource(ResourceNode::Anonymous(x));
            if k < r0.len() {
                assert(r0[k].0 == Node::Resource(ResourceNode::Anonymous(x)));
                assert(is_anonymous_in(interpretation, x));
                let a = choose|a: int| 0 <= a < j && ids[a] == x;
                assert(0 <= a < j + 1);
            } else if k == r.len() - 1 {
                assert(r[k] == nv.last());
                assert(ids[j] == x);
            } else {
                assert(r[k] == nv[k - r0.len()]);
                assert(nv[k - r0.len()].0 is Triple);
            }
        }
        if is_anonymous_in(interpretation, x) && exists|a: int| 0 <= a < j + 1 && ids[a] == x {
            let a = choose|a: int| 0 <= a < j + 1 && ids[a] == x;
            if a == j {
                assert(r[r.len() - 1] == nv.last());
            } else {
                assert(exists|a: int| 0 <= a < j && ids[a] == x);
                let k = choose|k: int| 0 <= k < r0.len() && r0[k].0 == Node::Resource(ResourceNode::Anonymous(x));
                assert(r[k] == r0[k]);
            }
        }
    }
    assert forall|x: Id, f: graph::Fact|
        is_anonymous_in(interpretation, x) && (exists|a: int| 0 <= a < j + 1 && ids[a] == x) && #[trigger] fact_about(
            dataset,
            x,
            f,
        ) implies exists|k: int| 0 <= k < r.len() && r[k].0 == triple_node(interpretation, f) by {
        let a = choose|a: int| 0 <= a < j + 1 && ids[a] == x;
        if a == j {
            let k = choose|k: int| 0 <= k < nv.len() && nv[k].0 == triple_node(interpretation, f);
            assert(r[r0.len() + k] == nv[k]);
        } else {
            assert(exists|a: int| 0 <= a < j && ids[a] == x);
            let k = choose|k: int| 0 <= k < r0.len() && r0[k].0 == triple_node(interpretation, f);
            assert(r[k] == r0[k]);
        }
    }
}

/// Passing over a resource of `ids` that is not anonymous.
#[verifier::spinoff_prover]
proof fn lemma_graph_step_named(dataset: Standard, interpretation: Interpretation, ids: Seq<Id>, j: int, r: Seq<(Node, Vec<Node>)>)
    requires
        0 <= j < ids.len(),
        !is_anonymous_in(interpretation, ids[j]),
        keys_upto(interpretation, r, ids, j),
        triples_upto(dataset, interpretation, r, ids, j),
    ensures
        keys_upto(interpretation, r, ids, j + 1),
        triples_upto(dataset, interpretation, r, ids, j + 1),
{
    reveal(keys_upto);
    reveal(triples_upto);
    assert forall|x: Id|
        #![trigger is_anonymous_in(interpretation, x)]
        (exists|k: int| 0 <= k < r.len() && r[k].0 == Node::Resource(ResourceNode::Anonymous(x))) <==> (is_anonymous_in(
            interpretation,
            x,
        ) && exists|a: int| 0 <= a < j + 1 && ids[a] == x) by {
        if is_anonymous_in(interpretation, x) && exists|a: int| 0 <= a < j + 1 && ids[a] == x {
            let a = choose|a: int| 0 <= a < j + 1 && ids[a] == x;
            assert(a != j);
            assert(exists|a: int| 0 <= a < j && ids[a] == x);
        }
        if exists|k: int| 0 <= k < r.len() && r[k].0 == Node::Resource(ResourceNode::Anonymous(x)) {
            assert(is_anonymous_in(interpretation, x));
            let a = choose|a: int| 0 <= a < j && ids[a] == x;
            assert(0 <= a < j + 1);
        }
    }
    assert(keys_upto(interpretation, r, ids, j + 1));
    assert forall|x: Id, f: graph::Fact|
        is_anonymous_in(interpretation, x) && (exists|a: int| 0 <= a < j + 1 && ids[a] == x) && #[trigger] fact_about(
            dataset,
            x,
            f,
        ) implies exists|k: int| 0 <= k < r.len() && r[k].0 == triple_node(interpretation, f) by {
        let a = choose|a: int| 0 <= a < j + 1 && ids[a] == x;
        assert(a != j);
        assert(exists|a: int| 0 <= a < j && ids[a] == x);
    }
}

/// Once every resource of the interpretation is passed over, `r` is the
/// dependency graph.
proof fn lemma_graph_end(dataset: Standard, interpretation: Interpretation, ids: Seq<Id>, r: Seq<(Node, Vec<Node>)>)
    requires
        forall|i: usize| #[trigger] interpretation.resources().contains_key(i) ==> exists|a: int|
            0 <= a < ids.len() && ids[a].0 as usize == i,
        keys_upto(interpretation, r, ids, ids.len() as int),
        entries_ok(dataset, interpretation, r),
        triples_upto(dataset, interpretation, r, ids, ids.len() as int),
    ensures
        dependency_graph_of(dataset, interpretation, r),
{
    reveal(keys_upto);
    reveal(entries_ok);
    reveal(triples_upto);
    assert forall|id: Id|
        #![trigger is_anonymous_in(interpretation, id)]
        (exists|k: int| 0 <= k < r.len() && r[k].0 == Node::Resource(ResourceNode::Anonymous(id))) <==> is_anonymous_in(
            interpretation,
            id,
        ) by {
        if is_anonymous_in(interpretation, id) {
            let a = choose|a: int| 0 <= a < ids.len() && ids[a].0 as usize == id.0 as usize;
            assert(ids[a] == id);
        }
    }
    assert forall|id: Id, f: graph::Fact|
        is_anonymous_in(interpretation, id) && #[trigger] fact_about(dataset, id, f) implies exists|k: int|
            0 <= k < r.len() && r[k].0 == triple_node(interpretation, f) by {
        let a = choose|a: int| 0 <= a < ids.len() && ids[a].0 as usize == id.0 as usize;
        assert(ids[a] == id);
    }
}

/// The dependency graph of the anonymous resources of the interpretation:
/// for each anonymous resource, in increasing order, the triple node of
/// each fact about it (with its predicate and object), then the resource
/// (with those triple nodes).
pub fn dependency_graph(dataset: &Standard, interpretation: &Interpretation) -> (r: Vec<(Node, Vec<Node>)>)
    requires
        dataset.wf(),
        interpretation.wf(),
        dependencies_known(*dataset, *interpretation),
    ensures
        dependency_graph_of(*dataset, *interpretation, r@),
{
    let items = interpretation.iter();
    let ghost ids = items@.map_values(|e: (Id, &crate::interpretation::local::Resource)| e.0);
    let mut r: Vec<(Node, Vec<Node>)> = Vec::new();
    proof {
        reveal(keys_upto);
        reveal(entries_ok);
        reveal(triples_upto);
    }
    let mut j: usize = 0;
    while j < items.len()
        invariant
            dataset.wf(),
            dependencies_known(*dataset, *interpretation),
            j <= items@.len(),
            ids == items@.map_values(|e: (Id, &crate::interpretation::local::Resource)| e.0),
            forall|a: int| 0 <= a < items@.len() ==> interpretation.resources().contains_key(#[trigger] items@[a].0.0 as usize)
                && items@[a].1@ == interpretation.resources()[items@[a].0.0 as usize],
            keys_upto(*interpretation, r@, ids, j as int),
            entries_ok(*dataset, *interpretation, r@),
            triples_upto(*dataset, *interpretation, r@, ids, j as int),
        decreases items@.len() - j,
    {
        let (id, res) = items[j];
        proof {
            assert(ids[j as int] == id);
        }
        if res.is_anonymous() {
            let ghost r0 = r@;
            let mut new = anonymous_dependencies(dataset, interpretation, id);
            let ghost nv = new@;
            r.append(&mut new);
            proof {
                lemma_graph_step_anonymous(*dataset, *interpretation, ids, j as int, r0, nv);
                assert(r@ == r0 + nv);
            }
        } else {
            proof {
                lemma_graph_step_named(*dataset, *interpretation, ids, j as int, r@);
            }
        }
        j = j + 1;
    }
    proof {
        assert forall|i: usize| #[trigger] interpretation.resources().contains_key(i) implies exists|a: int|
            0 <= a < ids.len() && ids[a].0 as usize == i by {
            let a = choose|a: int| 0 <= a < items@.len() && items@[a].0.0 as usize == i;
            assert(ids[a] == items@[a].0);
        }
        lemma_graph_end(*dataset, *interpretation, ids, r@);
    }
    r
}

/// Equality of resource nodes.
fn resource_node_eq(a: ResourceNode, b: ResourceNode) -> (r: bool)
    ensures
        r == (a == b),
{
    match (a, b) {
        (ResourceNode::Anonymous(x), ResourceNode::Anonymous(y)) => x == y,
        (ResourceNode::Named(x), ResourceNode::Named(y)) => x == y,
        _ => false,
    }
}

/// Equality of nodes.
fn node_eq(a: &Node, b: &Node) -> (r: bool)
    ensures
        r == (*a == *b),
{
    match (a, b) {
        (Node::Resource(x), Node::Resource(y)) => resource_node_eq(*x, *y),
        (Node::Triple(Signed(s1, (i1, p1, o1))), Node::Triple(Signed(s2, (i2, p2, o2)))) => {
            s1.same_as(s2) && *i1 == *i2 && resource_node_eq(*p1, *p2) && resource_node_eq(*o1, *o2)
        },
        _ => false,
    }
}

/// Whether the node is an entry's node or one of its successors.
pub open spec fn in_graph(graph: Seq<(Node, Vec<Node>)>, n: Node) -> bool {
    exists|k: int| 0 <= k < graph.len() && (graph[k].0 == n || (#[trigger] graph[k]).1@.contains(n))
}

/// Whether some entry of node `a` has `b` among its successors.
pub open spec fn node_edge(graph: Seq<(Node, Vec<Node>)>, a: Node, b: Node) -> bool {
    exists|k: int| 0 <= k < graph.len() && (#[trigger] graph[k]).0 == a && graph[k].1@.contains(b)
}

/// Whether the set holds the successors of each of its nodes.
pub open spec fn closed_nodes(graph: Seq<(Node, Vec<Node>)>, s: Set<Node>) -> bool {
    forall|a: Node, b: Node| s.contains(a) && #[trigger] node_edge(graph, a, b) ==> s.contains(b)
}

/// Whether `b` can be reached from `a` by following the graph's edges.
pub open spec fn node_reaches(graph: Seq<(Node, Vec<Node>)>, a: Node, b: Node) -> bool {
    forall|s: Set<Node>| #[trigger] closed_nodes(graph, s) && s.contains(a) ==> s.contains(b)
}

/// Whether `vertices` numbers the nodes of the graph, each once, and `adj`
/// gives, for each, the numbers of its successors.
pub open spec fn indexes_graph(graph: Seq<(Node, Vec<Node>)>, vertices: Seq<Node>, adj: Seq<Seq<usize>>) -> bool {
    &&& vertices.no_duplicates()
    &&& adj.len() == vertices.len()
    &&& adjacency_ok(adj)
    &&& forall|n: Node| in_graph(graph, n) <==> #[trigger] vertices.contains(n)
    &&& forall|i: int, j: int|
        0 <= i < vertices.len() && 0 <= j < vertices.len() ==> (#[trigger] adj[i].contains(j as usize) <==> node_edge(
            graph,
            vertices[i],
            #[trigger] vertices[j],
        ))
}

/// The position of the node among `vertices`, if it is there.
fn vertex_position(vertices: &Vec<Node>, n: &Node) -> (r: Option<usize>)
    ensures
        match r {
            Some(i) => i < vertices@.len() && vertices@[i as int] == *n,
            None => !vertices@.contains(*n),
        },
{
    let mut j: usize = 0;
    while j < vertices.len()
        invariant
            j <= vertices@.len(),
            forall|k: int| 0 <= k < j ==> vertices@[k] != *n,
        decreases vertices@.len() - j,
    {
        if node_eq(&vertices[j], n) {
            return Some(j);
        }
        j = j + 1;
    }
    None
}

/// Adds the node to `vertices` unless it is there.
fn add_vertex(vertices: &mut Vec<Node>, n: Node)
    requires
        old(vertices)@.no_duplicates(),
    ensures
        final(vertices)@.no_duplicates(),
        forall|m: Node| #[trigger] final(vertices)@.contains(m) <==> old(vertices)@.contains(m) || m == n,
        final(vertices)@.len() >= old(vertices)@.len(),
        forall|i: int| 0 <= i < old(vertices)@.len() ==> #[trigger] final(vertices)@[i] == old(vertices)@[i],
{
    match vertex_position(vertices, &n) {
        Some(_) => {},
        None => {
            let ghost v0 = vertices@;
            vertices.push(n);
            proof {
                assert forall|m: Node| #[trigger] vertices@.contains(m) <==> v0.contains(m) || m == n by {
                    if vertices@.contains(m) && m != n {
                        let k = choose|k: int| 0 <= k < vertices@.len() && vertices@[k] == m;
                        assert(v0[k] == m);
                    }
                    if v0.contains(m) {
                        let k = choose|k: int| 0 <= k < v0.len() && v0[k] == m;
                        assert(vertices@[k] == m);
                    }
                    if m == n {
                        assert(vertices@[v0.len() as int] == n);
                    }
                }
            }
        },
    }
}

/// Whether some entry of node `a` among the first `k` has `b` among its
/// successors.
pub open spec fn node_edge_before(graph: Seq<(Node, Vec<Node>)>, a: Node, b: Node, k: int) -> bool {
    exists|e: int| 0 <= e < k && (#[trigger] graph[e]).0 == a && graph[e].1@.contains(b)
}

/// The nodes of the graph, each once, and the successors of each by
/// number.
pub fn index_graph(graph: &Vec<(Node, Vec<Node>)>) -> (r: (Vec<Node>, Vec<Vec<usize>>))
    ensures
        indexes_graph(graph@, r.0@, adjacency_view(r.1@)),
{
    let mut vertices: Vec<Node> = Vec::new();
    let mut k: usize = 0;
    while k < graph.len()
        invariant
            k <= graph@.len(),
            vertices@.no_duplicates(),
            forall|n: Node| #[trigger] vertices@.contains(n) <==> in_graph(graph@.take(k as int), n),
        decreases graph@.len() - k,
    {
        let ghost before = vertices@;
        add_vertex(&mut vertices, graph[k].0);
        let succ = &graph[k].1;
        let mut q: usize = 0;
        while q < succ.len()
            invariant
                k < graph@.len(),
                *succ == graph@[k as int].1,
                q <= succ@.len(),
                vertices@.no_duplicates(),
                forall|n: Node| #[trigger] vertices@.contains(n) <==> (before.contains(n) || n == graph@[k as int].0
                    || succ@.take(q as int).contains(n)),
            decreases succ@.len() - q,
        {
            let ghost v0 = vertices@;
            add_vertex(&mut vertices, succ[q]);
            proof {
                let t0 = succ@.take(q as int);
                let t1 = succ@.take(q + 1);
                assert(t1 =~= t0.push(succ@[q as int]));
                assert forall|n: Node| #[trigger] vertices@.contains(n) <==> (before.contains(n) || n == graph@[k as int].0
                    || t1.contains(n)) by {
                    if t0.contains(n) {
                        let a = choose|a: int| 0 <= a < t0.len() && t0[a] == n;
                        assert(t1[a] == n);
                    }
                    if t1.contains(n) {
                        let a = choose|a: int| 0 <= a < t1.len() && t1[a] == n;
                        if a < q {
                            assert(t0[a] == n);
                        }
                    }
                    assert(t1[q as int] == succ@[q as int]);
                }
            }
            q = q + 1;
        }
        proof {
            assert(succ@.take(q as int) =~= succ@);
            assert forall|n: Node| #[trigger] vertices@.contains(n) <==> in_graph(graph@.take(k + 1), n) by {
                let t1 = graph@.take(k + 1);
                let t0 = graph@.take(k as int);
                if in_graph(t1, n) {
                    let e = choose|e: int| 0 <= e < t1.len() && (t1[e].0 == n || (#[trigger] t1[e]).1@.contains(n));
                    if e < k {
                        assert(t0[e] == t1[e]);
                        assert(in_graph(t0, n));
                    } else {
                        assert(t1[e] == graph@[k as int]);
                    }
                }
                if in_graph(t0, n) {
                    let e = choose|e: int| 0 <= e < t0.len() && (t0[e].0 == n || (#[trigger] t0[e]).1@.contains(n));
                    assert(t1[e] == t0[e]);
                }
                if n == graph@[k as int].0 || succ@.contains(n) {
                    assert(t1[k as int] == graph@[k as int]);
                }
            }
        }
        k = k + 1;
    }
    proof {
        assert(graph@.take(k as int) =~= graph@);
    }
    let n = vertices.len();
    let mut adj: Vec<Vec<usize>> = Vec::new();
    let mut i: usize = 0;
    while i < n
        invariant
            n == vertices@.len(),
            vertices@.no_duplicates(),
            forall|m: Node| #[trigger] vertices@.contains(m) <==> in_graph(graph@, m),
            i <= n,
            adj@.len() == i,
            forall|x: int, q: int| 0 <= x < i && 0 <= q < adj@[x]@.len() ==> (#[trigger] adj@[x]@[q]) < n,
            forall|x: int, j: int|
                0 <= x < i && 0 <= j < n ==> ((#[trigger] adj@[x]@.contains(j as usize)) <==> node_edge(graph@, vertices@[x], vertices@[j])),
        decreases n - i,
    {
        let mut list: Vec<usize> = Vec::new();
        let mut e: usize = 0;
        while e < graph.len()
            invariant
                n == vertices@.len(),
                i < n,
                vertices@.no_duplicates(),
                forall|m: Node| #[trigger] vertices@.contains(m) <==> in_graph(graph@, m),
                e <= graph@.len(),
                forall|q: int| 0 <= q < list@.len() ==> (#[trigger] list@[q]) < n,
                forall|j: int| 0 <= j < n ==> ((#[trigger] list@.contains(j as usize)) <==> node_edge_before(graph@, vertices@[i as int], vertices@[j], e as int)),
            decreases graph@.len() - e,
        {
            let ghost l0 = list@;
            if node_eq(&graph[e].0, &vertices[i]) {
                let succ = &graph[e].1;
                let mut q: usize = 0;
                while q < succ.len()
                    invariant
                        n == vertices@.len(),
                        i < n,
                        e < graph@.len(),
                        graph@[e as int].0 == vertices@[i as int],
                        *succ == graph@[e as int].1,
                        vertices@.no_duplicates(),
                        forall|m: Node| #[trigger] vertices@.contains(m) <==> in_graph(graph@, m),
                        q <= succ@.len(),
                        forall|p: int| 0 <= p < list@.len() ==> (#[trigger] list@[p]) < n,
                        forall|j: int| 0 <= j < n ==> ((#[trigger] list@.contains(j as usize)) <==> (node_edge_before(graph@, vertices@[i as int], vertices@[j], e as int)
                            || succ@.take(q as int).contains(vertices@[j]))),
                    decreases succ@.len() - q,
                {
                    let b = &succ[q];
                    proof {
                        assert(graph@[e as int].1@.contains(succ@[q as int]));
                        assert(in_graph(graph@, succ@[q as int]));
                        assert(vertices@.contains(succ@[q as int]));
                    }
                    let pos = vertex_position(&vertices, b);
                    let j = pos.unwrap();
                    let ghost la = list@;
                    list.push(j);
                    proof {
                        let t0 = succ@.take(q as int);
                        let t1 = succ@.take(q + 1);
                        assert(t1 =~= t0.push(succ@[q as int]));
                        assert forall|x: int| 0 <= x < n implies ((#[trigger] list@.contains(x as usize)) <==> (node_edge_before(graph@, vertices@[i as int], vertices@[x], e as int)
                            || t1.contains(vertices@[x]))) by {
                            if list@.contains(x as usize) && !la.contains(x as usize) {
                                let a = choose|a: int| 0 <= a < list@.len() && list@[a] == x as usize;
                                if a < la.len() {
                                    assert(la[a] == x as usize);
                                }
                                assert(x as usize == j);
                                assert(t1[q as int] == vertices@[x]);
                            }
                            if la.contains(x as usize) {
                                let a = choose|a: int| 0 <= a < la.len() && la[a] == x as usize;
                                assert(list@[a] == x as usize);
                                if t0.contains(vertices@[x]) {
                                    let c = choose|c: int| 0 <= c < t0.len() && t0[c] == vertices@[x];
                                    assert(t1[c] == vertices@[x]);
                                }
                            }
                            if t1.contains(vertices@[x]) {
                                let c = choose|c: int| 0 <= c < t1.len() && t1[c] == vertices@[x];
                                if c < q {
                                    assert(t0[c] == vertices@[x]);
                                } else {
                                    assert(vertices@[x] == vertices@[j as int]);
                                    assert(x == j as int);
                                    assert(list@[la.len() as int] == j);
                                }
                            }
                            if list@.contains(x as usize) && la.contains(x as usize) {
                            }
                        }
                    }
                    q = q + 1;
                }
                proof {
                    assert(succ@.take(q as int) =~= succ@);
                }
            }
            proof {
                assert forall|j: int| 0 <= j < n implies ((#[trigger] list@.contains(j as usize)) <==> node_edge_before(graph@, vertices@[i as int], vertices@[j], e + 1)) by {
                    if node_edge_before(graph@, vertices@[i as int], vertices@[j], e + 1) {
                        let x = choose|x: int| 0 <= x < e + 1 && (#[trigger] graph@[x]).0 == vertices@[i as int] && graph@[x].1@.contains(vertices@[j]);
                        if x < e {
                            assert(node_edge_before(graph@, vertices@[i as int], vertices@[j], e as int));
                        }
                    }
                    if node_edge_before(graph@, vertices@[i as int], vertices@[j], e as int) {
                        let x = choose|x: int| 0 <= x < e && (#[trigger] graph@[x]).0 == vertices@[i as int] && graph@[x].1@.contains(vertices@[j]);
                        assert(node_edge_before(graph@, vertices@[i as int], vertices@[j], e + 1));
                    }
                }
            }
            e = e + 1;
        }
        proof {
            assert forall|j: int| 0 <= j < n implies node_edge_before(graph@, vertices@[i as int], vertices@[j], e as int) == node_edge(graph@, vertices@[i as int], vertices@[j]) by {
                if node_edge(graph@, vertices@[i as int], vertices@[j]) {
                    let x = choose|x: int| 0 <= x < graph@.len() && (#[trigger] graph@[x]).0 == vertices@[i as int] && graph@[x].1@.contains(vertices@[j]);
                    assert(node_edge_before(graph@, vertices@[i as int], vertices@[j], e as int));
                }
            }
        }
        adj.push(list);
        proof {
            assert(adj@[i as int] == list);
        }
        i = i + 1;
    }
    proof {
        let g = adjacency_view(adj@);
        assert forall|u: int, q: int| 0 <= u < g.len() && 0 <= q < g[u].len() implies (#[trigger] g[u][q]) < g.len() by {
            assert(g[u] == adj@[u]@);
        }
        assert forall|x: int, j: int|
            0 <= x < vertices@.len() && 0 <= j < vertices@.len() implies (#[trigger] g[x].contains(j as usize) <==> node_edge(
                graph@,
                vertices@[x],
                #[trigger] vertices@[j],
            )) by {
            assert(g[x] == adj@[x]@);
        }
    }
    (vertices, adj)
}

/// The components of a numbered graph, by their nodes.
fn components_of(vertices: &Vec<Node>, c: Condensation, Ghost(g): Ghost<Seq<Seq<usize>>>) -> (r: Components)
    requires
        g.len() == vertices@.len(),
        adjacency_ok(g),
        condensation_of(g, c),
    ensures
        r.wf(),
        r.nodes@.len() == c.members@.len(),
        forall|x: int| 0 <= x < r.nodes@.len() ==> (#[trigger] r.nodes@[x])@ == c.members@[x]@.map_values(|i: usize| vertices@[i as int]),
        r.successors@ == c.successors@,
        r.reflexive@ == c.reflexive@,
        forall|x: int| 0 <= x < r.nodes@.len() ==> (#[trigger] r.nodes@[x])@.len() > 0,
{
    let mut nodes: Vec<Vec<Node>> = Vec::new();
    let mut x: usize = 0;
    while x < c.members.len()
        invariant
            g.len() == vertices@.len(),
            condensation_of(g, c),
            x <= c.members@.len(),
            nodes@.len() == x,
            forall|y: int| 0 <= y < x ==> (#[trigger] nodes@[y])@ == c.members@[y]@.map_values(|i: usize| vertices@[i as int]),
        decreases c.members@.len() - x,
    {
        let m = &c.members[x];
        let mut list: Vec<Node> = Vec::new();
        let mut k: usize = 0;
        while k < m.len()
            invariant
                g.len() == vertices@.len(),
                condensation_of(g, c),
                x < c.members@.len(),
                *m == c.members@[x as int],
                k <= m@.len(),
                list@ == m@.take(k as int).map_values(|i: usize| vertices@[i as int]),
            decreases m@.len() - k,
        {
            let v = m[k];
            proof {
                assert(v < g.len());
            }
            list.push(vertices[v]);
            proof {
                assert(m@.take(k + 1) =~= m@.take(k as int).push(v));
                assert(list@ =~= m@.take(k + 1).map_values(|i: usize| vertices@[i as int]));
            }
            k = k + 1;
        }
        proof {
            assert(m@.take(k as int) =~= m@);
        }
        nodes.push(list);
        proof {
            assert(nodes@[x as int] == list);
        }
        x = x + 1;
    }
    let r = Components { nodes, successors: c.successors, reflexive: c.reflexive };
    proof {
        assert forall|x: int| 0 <= x < r.nodes@.len() implies (#[trigger] r.nodes@[x])@.len() > 0 by {
            assert(c.members@[x]@.len() > 0);
        }
        assert forall|x: int, k: int|
            0 <= x < r.successors@.len() && 0 <= k < r.successors@[x]@.len() implies #[trigger] r.successors@[x]@[k] < r.nodes@.len() by {
            let y = r.successors@[x]@[k];
            assert(c.successors@[x]@.contains(y));
            assert(component_edge(g, c.component@, x as usize, y));
            let (u, q) = choose|u: int, q: int|
                0 <= u < g.len() && c.component@[u] == x && 0 <= q < g[u].len() && #[trigger] c.component@[g[u][q] as int] == y;
            assert(c.component@[g[u][q] as int] < c.members@.len());
        }
    }
    r
}

/// Whether `h` layers the components: each comes after every component it
/// has an edge to.
pub open spec fn layers_components(c: Components, h: Seq<usize>) -> bool {
    &&& h.len() == c.nodes@.len()
    &&& forall|x: int, k: int|
        0 <= x < h.len() && 0 <= k < c.successors@[x]@.len() ==> h[#[trigger] c.successors@[x]@[k] as int] < h[x]
}

/// The layer of each component: zero for one without successors, else one
/// more than the highest of its successors. `None` when some component is
/// left without a layer (a cycle between components).
fn component_layers(c: &Components) -> (r: Option<Vec<usize>>)
    requires
        c.wf(),
    ensures
        r matches Some(h) ==> layers_components(*c, h@) && forall|x: int| 0 <= x < h@.len() ==> #[trigger] h@[x] < h@.len(),
{
    let n = c.nodes.len();
    let mut known: Vec<bool> = Vec::new();
    let mut height: Vec<usize> = Vec::new();
    let mut i: usize = 0;
    while i < n
        invariant
            i <= n,
            known@.len() == i,
            height@.len() == i,
            forall|j: int| 0 <= j < i ==> !known@[j],
        decreases n - i,
    {
        known.push(false);
        height.push(0);
        i = i + 1;
    }
    proof {
        assert forall|j: int| 0 <= j < n implies !known@[j] by {}
        lemma_unmarked_all(known@);
    }
    let mut assigned: usize = 0;
    let mut pass: usize = 0;
    while pass < n
        invariant
            c.wf(),
            n == c.nodes@.len(),
            known@.len() == n,
            height@.len() == n,
            assigned + unmarked(known@) == n,
            forall|x: int| 0 <= x < n && #[trigger] known@[x] ==> height@[x] < assigned,
            forall|x: int| 0 <= x < n && #[trigger] known@[x] ==> height@[x] < assigned,
            forall|x: int, k: int|
                0 <= x < n && known@[x] && 0 <= k < c.successors@[x]@.len() ==> known@[#[trigger] c.successors@[x]@[k] as int]
                    && height@[c.successors@[x]@[k] as int] < height@[x],
        decreases n - pass,
    {
        let mut x: usize = 0;
        while x < n
            invariant
                c.wf(),
                n == c.nodes@.len(),
                known@.len() == n,
                height@.len() == n,
                x <= n,
                assigned + unmarked(known@) == n,
                forall|z: int| 0 <= z < n && #[trigger] known@[z] ==> height@[z] < assigned,
                forall|z: int, k: int|
                    0 <= z < n && known@[z] && 0 <= k < c.successors@[z]@.len() ==> known@[#[trigger] c.successors@[z]@[k] as int]
                        && height@[c.successors@[z]@[k] as int] < height@[z],
            decreases n - x,
        {
            if !known[x] {
                let succ = &c.successors[x];
                let mut all = true;
                let mut top: usize = 0;
                let mut k: usize = 0;
                while k < succ.len()
                    invariant
                        c.wf(),
                        n == c.nodes@.len(),
                        x < n,
                        *succ == c.successors@[x as int],
                        known@.len() == n,
                        height@.len() == n,
                        k <= succ@.len(),
                        forall|z: int| 0 <= z < n && #[trigger] known@[z] ==> height@[z] < assigned,
                        all ==> forall|q: int| 0 <= q < k ==> known@[#[trigger] succ@[q] as int] && height@[succ@[q] as int] < top,
                        all ==> top <= assigned,
                    decreases succ@.len() - k,
                {
                    let d = succ[k];
                    proof {
                        assert(d < n);
                    }
                    if !known[d] {
                        all = false;
                    } else if all && height[d] >= top {
                        top = height[d] + 1;
                    }
                    k = k + 1;
                }
                if all {
                    proof {
                        lemma_unmarked_update(known@, x as int);
                        lemma_unmarked_positive(known@, x as int);
                    }
                    let ghost k0 = known@;
                    let ghost h0 = height@;
                    known.set(x, true);
                    height.set(x, top);
                    assigned = assigned + 1;
                    proof {
                        assert forall|z: int, q: int|
                            0 <= z < n && known@[z] && 0 <= q < c.successors@[z]@.len() implies known@[#[trigger] c.successors@[z]@[q] as int]
                                && height@[c.successors@[z]@[q] as int] < height@[z] by {
                            let d = c.successors@[z]@[q];
                            if z == x as int {
                                assert(succ@[q] == d);
                                assert(k0[d as int] && h0[d as int] < top);
                            } else {
                                assert(k0[z]);
                                assert(k0[d as int]);
                                assert(d as int != x as int);
                            }
                        }
                    }
                }
            }
            x = x + 1;
        }
        pass = pass + 1;
    }
    let mut j: usize = 0;
    while j < n
        invariant
            j <= n,
            known@.len() == n,
            forall|z: int| 0 <= z < j ==> known@[z],
        decreases n - j,
    {
        if !known[j] {
            return None;
        }
        j = j + 1;
    }
    proof {
        assert forall|x: int| 0 <= x < height@.len() implies #[trigger] height@[x] < height@.len() by {
            assert(known@[x]);
        }
    }
    Some(height)
}

/// A sequence of unmarked vertices counts them all.
proof fn lemma_unmarked_all(s: Seq<bool>)
    requires
        forall|j: int| 0 <= j < s.len() ==> !s[j],
    ensures
        unmarked(s) == s.len(),
    decreases s.len(),
{
    if s.len() > 0 {
        lemma_unmarked_all(s.drop_last());
    }
}

/// An unmarked vertex is counted.
proof fn lemma_unmarked_positive(s: Seq<bool>, j: int)
    requires
        0 <= j < s.len(),
        !s[j],
    ensures
        unmarked(s) > 0,
    decreases s.len(),
{
    if j < s.len() - 1 {
        lemma_unmarked_positive(s.drop_last(), j);
    }
}

/// Whether the resource is named, or anonymous with a class.
fn is_classified(classes: &Classes, n: ResourceNode) -> (r: bool)
    ensures
        r == classified(classes.view(), n),
{
    match n {
        ResourceNode::Named(_) => true,
        ResourceNode::Anonymous(id) => classes.get(id).is_some(),
    }
}

/// Whether the triple nodes of `nodes` about `id` refer to classified
/// resources only.
fn nodes_are_classified(classes: &Classes, id: Id, nodes: &Vec<Node>) -> (r: bool)
    ensures
        r == nodes_classified(classes.view(), id, nodes@),
{
    let mut j: usize = 0;
    while j < nodes.len()
        invariant
            j <= nodes@.len(),
            forall|i: int|
                0 <= i < j ==> match #[trigger] nodes@[i] {
                    Node::Triple(Signed(_, (x, a, b))) => x == id ==> classified(classes.view(), a) && classified(classes.view(), b),
                    Node::Resource(_) => true,
                },
        decreases nodes@.len() - j,
    {
        match nodes[j] {
            Node::Triple(Signed(_, (x, a, b))) => {
                if x == id && !(is_classified(classes, a) && is_classified(classes, b)) {
                    proof {
                        assert(!match nodes@[j as int] {
                            Node::Triple(Signed(_, (x, a, b))) => x == id ==> classified(classes.view(), a) && classified(classes.view(), b),
                            Node::Resource(_) => true,
                        });
                    }
                    return false;
                }
            },
            Node::Resource(_) => {},
        }
        j = j + 1;
    }
    true
}

/// Whether the successors of component `c` refer, in their triple nodes
/// about `id`, to classified resources only.
fn check_successors_classified(components: &Components, classes: &Classes, c: usize, id: Id) -> (r: bool)
    requires
        components.wf(),
        c < components.nodes@.len(),
    ensures
        r == successors_classified(*components, classes.view(), c as int, id),
{
    let succ = &components.successors[c];
    let mut k: usize = 0;
    while k < succ.len()
        invariant
            components.wf(),
            c < components.nodes@.len(),
            *succ == components.successors@[c as int],
            k <= succ@.len(),
            forall|q: int| 0 <= q < k ==> nodes_classified(classes.view(), id, #[trigger] components.node_seqs()[succ@[q] as int]),
        decreases succ@.len() - k,
    {
        let d = succ[k];
        proof {
            assert(d < components.nodes@.len());
            assert(components.node_seqs()[d as int] == components.nodes@[d as int]@);
        }
        if !nodes_are_classified(classes, id, &components.nodes[d]) {
            proof {
                assert(!nodes_classified(classes.view(), id, components.node_seqs()[components.successors@[c as int]@[k as int] as int]));
            }
            return false;
        }
        k = k + 1;
    }
    true
}

/// Whether the list holds the identifier.
fn holds_id(ids: &Vec<Id>, id: Id) -> (r: bool)
    ensures
        r == ids@.contains(id),
{
    let mut j: usize = 0;
    while j < ids.len()
        invariant
            j <= ids@.len(),
            forall|k: int| 0 <= k < j ==> ids@[k] != id,
        decreases ids@.len() - j,
    {
        if ids[j] == id {
            assert(ids@[j as int] == id);
            return true;
        }
        j = j + 1;
    }
    false
}

/// Whether no identifier occurs twice.
fn ids_distinct(ids: &Vec<Id>) -> (r: bool)
    ensures
        r == ids@.no_duplicates(),
{
    let mut a: usize = 0;
    while a < ids.len()
        invariant
            a <= ids@.len(),
            forall|x: int, y: int| 0 <= x < a && x < y < ids@.len() ==> ids@[x] != ids@[y],
        decreases ids@.len() - a,
    {
        let mut b: usize = a + 1;
        while b < ids.len()
            invariant
                a < ids@.len(),
                a + 1 <= b <= ids@.len(),
                forall|x: int, y: int| 0 <= x < a && x < y < ids@.len() ==> ids@[x] != ids@[y],
                forall|y: int| a < y < b ==> ids@[a as int] != ids@[y],
            decreases ids@.len() - b,
        {
            if ids[a] == ids[b] {
                return false;
            }
            b = b + 1;
        }
        a = a + 1;
    }
    true
}

/// Whether the group `ids` can refer to the resource.
fn is_group_known(classes: &Classes, ids: &Vec<Id>, n: ResourceNode) -> (r: bool)
    ensures
        r == group_known(classes.view(), ids@, n),
{
    match n {
        ResourceNode::Named(_) => true,
        ResourceNode::Anonymous(id) => holds_id(ids, id) || classes.get(id).is_some(),
    }
}

/// Whether the triple nodes of `nodes` about members of `ids` refer only to
/// resources the group can refer to; with `all`, whether every triple node
/// is about a member.
fn group_nodes_are_known(classes: &Classes, ids: &Vec<Id>, nodes: &Vec<Node>, all: bool) -> (r: bool)
    ensures
        r == group_nodes_known(classes.view(), ids@, nodes@, all),
{
    let mut j: usize = 0;
    while j < nodes.len()
        invariant
            j <= nodes@.len(),
            forall|i: int|
                0 <= i < j ==> match #[trigger] nodes@[i] {
                    Node::Triple(Signed(_, (x, a, b))) => {
                        &&& all ==> ids@.contains(x)
                        &&& ids@.contains(x) ==> group_known(classes.view(), ids@, a) && group_known(classes.view(), ids@, b)
                    },
                    Node::Resource(_) => true,
                },
        decreases nodes@.len() - j,
    {
        match nodes[j] {
            Node::Triple(Signed(_, (x, a, b))) => {
                let member = holds_id(ids, x);
                if (all && !member) || (member && !(is_group_known(classes, ids, a) && is_group_known(classes, ids, b))) {
                    proof {
                        assert(!match nodes@[j as int] {
                            Node::Triple(Signed(_, (x, a, b))) => {
                                &&& all ==> ids@.contains(x)
                                &&& ids@.contains(x) ==> group_known(classes.view(), ids@, a) && group_known(classes.view(), ids@, b)
                            },
                            Node::Resource(_) => true,
                        });
                    }
                    return false;
                }
            },
            Node::Resource(_) => {},
        }
        j = j + 1;
    }
    true
}

/// Whether the cyclic component `c` can be classified.
fn check_reflexive_ready(components: &Components, classes: &Classes, c: usize) -> (r: bool)
    requires
        components.wf(),
        c < components.nodes@.len(),
    ensures
        r == reflexive_ready(*components, classes.view(), c as int),
{
    let nodes = &components.nodes[c];
    proof {
        assert(components.node_seqs()[c as int] == nodes@);
    }
    let ids = collect_member_ids(nodes);
    if !ids_distinct(&ids) || ids.len() > 4294967295 || !group_nodes_are_known(classes, &ids, nodes, true) {
        return false;
    }
    let succ = &components.successors[c];
    let mut k: usize = 0;
    while k < succ.len()
        invariant
            components.wf(),
            c < components.nodes@.len(),
            *succ == components.successors@[c as int],
            ids@ == member_ids(components.node_seqs()[c as int]),
            k <= succ@.len(),
            forall|q: int| 0 <= q < k ==> group_nodes_known(classes.view(), ids@, #[trigger] components.node_seqs()[succ@[q] as int], false),
        decreases succ@.len() - k,
    {
        let d = succ[k];
        proof {
            assert(d < components.nodes@.len());
            assert(components.node_seqs()[d as int] == components.nodes@[d as int]@);
        }
        if !group_nodes_are_known(classes, &ids, &components.nodes[d], false) {
            proof {
                assert(!group_nodes_known(classes.view(), ids@, components.node_seqs()[components.successors@[c as int]@[k as int] as int], false));
            }
            return false;
        }
        k = k + 1;
    }
    true
}

/// Every anonymous resource node of the dependency graph is an anonymous
/// resource of the interpretation.
proof fn lemma_anonymous_node(dataset: Standard, interpretation: Interpretation, graph: Seq<(Node, Vec<Node>)>, id: Id)
    requires
        dependency_graph_of(dataset, interpretation, graph),
        dependencies_known(dataset, interpretation),
        in_graph(graph, Node::Resource(ResourceNode::Anonymous(id))),
    ensures
        is_anonymous_in(interpretation, id),
{
    let n = Node::Resource(ResourceNode::Anonymous(id));
    let k = choose|k: int| 0 <= k < graph.len() && (graph[k].0 == n || (#[trigger] graph[k]).1@.contains(n));
    assert(dependency_entry(dataset, interpretation, graph[k]));
    if graph[k].0 == n {
        assert(exists|j: int| 0 <= j < graph.len() && graph[j].0 == n);
        assert(is_anonymous_in(interpretation, id));
    } else {
        match graph[k].0 {
            Node::Resource(ResourceNode::Anonymous(x)) => {
                assert(successors_of(dataset, interpretation, x, graph[k].1@));
                assert(graph[k].1@.contains(n));
                let f = choose|f: graph::Fact| #[trigger] fact_about(dataset, x, f) && n == triple_node(interpretation, f);
                assert(false);
            },
            Node::Resource(ResourceNode::Named(_)) => {},
            Node::Triple(Signed(_, (x, p, o))) => {
                let e = graph[k];
                assert(triple_entry(dataset, interpretation, x, e));
                let f = choose|f: graph::Fact| #[trigger] fact_about(dataset, x, f) && e.0 == triple_node(interpretation, f);
                assert(e.1@ == seq![Node::Resource(p), Node::Resource(o)]);
                assert(is_anonymous_in(interpretation, x));
                assert(interpretation.resources().contains_key(f.0.1.1.0 as usize));
                assert(interpretation.resources().contains_key(f.0.1.2.0 as usize));
                let j = choose|j: int| 0 <= j < e.1@.len() && e.1@[j] == n;
                if j == 0 {
                    assert(p == resource_node(interpretation, f.0.1.1));
                } else {
                    assert(o == resource_node(interpretation, f.0.1.2));
                }
            },
        }
    }
}

/// Every member of a group is an anonymous resource node among the nodes.
proof fn lemma_member_ids_nodes(nodes: Seq<Node>, k: int)
    requires
        0 <= k < member_ids(nodes).len(),
    ensures
        nodes.contains(Node::Resource(ResourceNode::Anonymous(member_ids(nodes)[k]))),
    decreases nodes.len(),
{
    let prev = member_ids(nodes.drop_last());
    if k < prev.len() {
        lemma_member_ids_nodes(nodes.drop_last(), k);
        let j = choose|j: int| 0 <= j < nodes.drop_last().len() && nodes.drop_last()[j] == Node::Resource(ResourceNode::Anonymous(prev[k]));
        assert(nodes[j] == nodes.drop_last()[j]);
        match nodes.last() {
            Node::Resource(ResourceNode::Anonymous(id)) => assert(member_ids(nodes)[k] == prev[k]),
            _ => {},
        }
    } else {
        match nodes.last() {
            Node::Resource(ResourceNode::Anonymous(id)) => {
                assert(member_ids(nodes)[k] == id);
                assert(nodes[nodes.len() - 1] == nodes.last());
            },
            _ => {},
        }
    }
}


/// Whether some entry of the list is about `id`.
pub open spec fn listed<T>(list: Seq<(Id, T)>, id: Id) -> bool {
    exists|j: int| 0 <= j < list.len() && (#[trigger] list[j]).0 == id
}

/// Every anonymous resource node among the nodes is a member.
proof fn lemma_member_ids_contains(nodes: Seq<Node>, id: Id)
    requires
        nodes.contains(Node::Resource(ResourceNode::Anonymous(id))),
    ensures
        member_ids(nodes).contains(id),
    decreases nodes.len(),
{
    let prev = member_ids(nodes.drop_last());
    if nodes.last() == Node::Resource(ResourceNode::Anonymous(id)) {
        assert(member_ids(nodes) == prev.push(id));
        assert(member_ids(nodes)[prev.len() as int] == id);
    } else {
        let q = choose|q: int| 0 <= q < nodes.len() && nodes[q] == Node::Resource(ResourceNode::Anonymous(id));
        assert(q < nodes.len() - 1);
        assert(nodes.drop_last()[q] == nodes[q]);
        lemma_member_ids_contains(nodes.drop_last(), id);
        let k = choose|k: int| 0 <= k < prev.len() && prev[k] == id;
        match nodes.last() {
            Node::Resource(ResourceNode::Anonymous(x)) => assert(member_ids(nodes)[k] == id),
            _ => assert(member_ids(nodes)[k] == id),
        }
    }
}

/// Classifies the anonymous resources of the interpretation: the
/// dependency graph of the anonymous resources is split into strongly
/// connected components, layered so that each comes after every component
/// it depends on (those without dependencies first); layer by layer, each
/// component is classified (a cycle of resources through `normalizer`),
/// its group numbered among the distinct groups of the layer, in order,
/// and each of its resources given the class of its member. `None` when
/// some component cannot be classified: it depends on a resource left
/// unclassified, or the normal form leaves a member without a position.
pub fn classify_anonymous_nodes<N: GroupNormalizer>(
    dataset: &Standard,
    interpretation: &Interpretation,
    normalizer: &mut N,
) -> (r: Option<LocalClassification>)
    requires
        dataset.wf(),
        interpretation.wf(),
        dependencies_known(*dataset, *interpretation),
    ensures
        r matches Some(c) ==> c.wf() && forall|id: u32| #[trigger] c.resource_classes().contains_key(id) <==> is_anonymous_in(
            *interpretation,
            Id(id),
        ),
{
    let graph = dependency_graph(dataset, interpretation);
    let (vertices, adj) = index_graph(&graph);
    let vertex_count: usize = vertices.len();
    let ghost g = adjacency_view(adj@);
    let cond = condense(&adj);
    let comps = components_of(&vertices, cond, Ghost(g));
    let heights = match component_layers(&comps) {
        Some(h) => h,
        None => {
            return None;
        },
    };
    let n = comps.nodes.len();
    let mut top: usize = 0;
    let mut x: usize = 0;
    while x < n
        invariant
            n == comps.nodes@.len(),
            heights@.len() == n,
            forall|y: int| 0 <= y < n ==> #[trigger] heights@[y] < n,
            x <= n,
            top <= n,
            forall|y: int| 0 <= y < x ==> #[trigger] heights@[y] < top,
        decreases n - x,
    {
        if heights[x] >= top {
            top = heights[x] + 1;
        }
        x = x + 1;
    }
    if top > 4294967295 {
        return None;
    }
    let mut classes = Classes::new();
    let mut layers: Vec<Layer> = Vec::new();
    let mut all: Vec<(Id, Class)> = Vec::new();
    let mut l: usize = 0;
    while l < top
        invariant
            comps.wf(),
            n == comps.nodes@.len(),
            forall|y: int| 0 <= y < n ==> (#[trigger] comps.nodes@[y])@.len() > 0,
            forall|y: int| 0 <= y < n ==> (#[trigger] comps.nodes@[y])@ == cond.members@[y]@.map_values(|i: usize| vertices@[i as int]),
            indexes_graph(graph@, vertices@, g),
            condensation_of(g, cond),
            cond.members@.len() == n,
            dependency_graph_of(*dataset, *interpretation, graph@),
            dependencies_known(*dataset, *interpretation),
            heights@.len() == n,
            top <= 4294967295,
            l <= top,
            forall|y: int| 0 <= y < layers@.len() ==> (#[trigger] layers@[y]).groups@.len() <= u32::MAX,
            forall|j: int| 0 <= j < all@.len() ==> is_anonymous_in(*interpretation, (#[trigger] all@[j]).0),
            forall|y: int, id: Id|
                0 <= y < n && heights@[y] < l && #[trigger] comps.nodes@[y]@.contains(Node::Resource(ResourceNode::Anonymous(id)))
                    ==> listed(all@, id),
            comps.reflexive@ == cond.reflexive@,
            forall|y: int| 0 <= y < n ==> #[trigger] heights@[y] < top,
        decreases top - l,
    {
        let mut new_groups: Vec<Description> = Vec::new();
        let mut new_classes: Vec<(Id, LayerClass)> = Vec::new();
        let mut c: usize = 0;
        while c < n
            invariant
                comps.wf(),
                n == comps.nodes@.len(),
                forall|y: int| 0 <= y < n ==> (#[trigger] comps.nodes@[y])@.len() > 0,
                forall|y: int| 0 <= y < n ==> (#[trigger] comps.nodes@[y])@ == cond.members@[y]@.map_values(|i: usize| vertices@[i as int]),
                indexes_graph(graph@, vertices@, g),
                condensation_of(g, cond),
                cond.members@.len() == n,
                dependency_graph_of(*dataset, *interpretation, graph@),
                dependencies_known(*dataset, *interpretation),
                heights@.len() == n,
                c <= n,
                forall|j: int| 0 <= j < new_classes@.len() ==> is_anonymous_in(*interpretation, (#[trigger] new_classes@[j]).0),
                forall|j: int| 0 <= j < new_classes@.len() ==> (#[trigger] new_classes@[j]).1.group < new_groups@.len(),
                comps.reflexive@ == cond.reflexive@,
                forall|y: int, id: Id|
                    0 <= y < c && heights@[y] == l && #[trigger] comps.nodes@[y]@.contains(Node::Resource(ResourceNode::Anonymous(id)))
                        ==> listed(new_classes@, id),
            decreases n - c,
        {
            if heights[c] == l {
                let ghost ng0 = new_groups@;
                let ghost nc0 = new_classes@;
                if comps.reflexive[c] {
                    if !check_reflexive_ready(&comps, &classes, c) {
                        return None;
                    }
                    if !compute_reflexive(&comps, &classes, &mut new_groups, &mut new_classes, c, normalizer) {
                        return None;
                    }
                    proof {
                        let ids = member_ids(comps.node_seqs()[c as int]);
                        let (group, morphism) = choose|group: Description, morphism: Seq<usize>|
                            #![trigger ng0.push(group), member_classes(ids, morphism, ng0.len() as usize)]
                            {
                                &&& morphism.len() >= ids.len()
                                &&& new_groups@ == ng0.push(group)
                                &&& new_classes@ == nc0 + member_classes(ids, morphism, ng0.len() as usize)
                            };
                        assert forall|j: int| 0 <= j < new_classes@.len() implies is_anonymous_in(*interpretation, (#[trigger] new_classes@[j]).0)
                            && new_classes@[j].1.group < new_groups@.len() by {
                            if j >= nc0.len() {
                                let k = j - nc0.len();
                                assert(new_classes@[j] == member_classes(ids, morphism, ng0.len() as usize)[k]);
                                lemma_member_ids_nodes(comps.node_seqs()[c as int], k);
                                let node = Node::Resource(ResourceNode::Anonymous(ids[k]));
                                let nodes = comps.node_seqs()[c as int];
                                let q = choose|q: int| 0 <= q < nodes.len() && nodes[q] == node;
                                assert(nodes == comps.nodes@[c as int]@);
                                assert(cond.members@.len() == n);
                                assert(nodes.len() == cond.members@[c as int]@.len());
                                let v = cond.members@[c as int]@[q];
                                assert(g.len() == vertices@.len());
                                assert(nodes[q] == vertices@[v as int]);
                                assert(v < vertices@.len());
                                assert(vertices@.contains(node));
                                lemma_anonymous_node(*dataset, *interpretation, graph@, ids[k]);
                            } else {
                                assert(new_classes@[j] == nc0[j]);
                            }
                        }
                        assert forall|y: int, id: Id|
                            0 <= y < c + 1 && heights@[y] == l && #[trigger] comps.nodes@[y]@.contains(Node::Resource(ResourceNode::Anonymous(id)))
                                implies listed(new_classes@, id) by {
                            if y < c {
                                assert(listed(nc0, id));
                                let j = choose|j: int| 0 <= j < nc0.len() && (#[trigger] nc0[j]).0 == id;
                                assert(new_classes@[j] == nc0[j]);
                            } else {
                                assert(comps.node_seqs()[c as int] == comps.nodes@[c as int]@);
                                lemma_member_ids_contains(comps.node_seqs()[c as int], id);
                                let k = choose|k: int| 0 <= k < ids.len() && ids[k] == id;
                                assert(new_classes@[nc0.len() + k] == member_classes(ids, morphism, ng0.len() as usize)[k]);
                                assert(new_classes@[nc0.len() + k].0 == id);
                            }
                        }
                    }
                } else {
                    match comps.nodes[c][0] {
                        Node::Resource(ResourceNode::Anonymous(id)) => {
                            if !check_successors_classified(&comps, &classes, c, id) {
                                return None;
                            }
                        },
                        _ => {},
                    }
                    compute_non_reflexive(&comps, &classes, &mut new_groups, &mut new_classes, c);
                    proof {
                        assert forall|j: int| 0 <= j < new_classes@.len() implies is_anonymous_in(*interpretation, (#[trigger] new_classes@[j]).0)
                            && new_classes@[j].1.group < new_groups@.len() by {
                            if j >= nc0.len() {
                                let node = comps.nodes@[c as int]@[0];
                                assert(cond.members@.len() == n);
                                assert(comps.nodes@[c as int]@.len() == cond.members@[c as int]@.len());
                                let v = cond.members@[c as int]@[0];
                                assert(g.len() == vertices@.len());
                                assert(node == vertices@[v as int]);
                                assert(v < vertices@.len());
                                assert(vertices@.contains(node));
                                match node {
                                    Node::Resource(ResourceNode::Anonymous(id)) => {
                                        lemma_anonymous_node(*dataset, *interpretation, graph@, id);
                                    },
                                    _ => {},
                                }
                            } else {
                                assert(new_classes@[j] == nc0[j]);
                            }
                        }
                        assert forall|y: int, id: Id|
                            0 <= y < c + 1 && heights@[y] == l && #[trigger] comps.nodes@[y]@.contains(Node::Resource(ResourceNode::Anonymous(id)))
                                implies listed(new_classes@, id) by {
                            if y < c {
                                assert(listed(nc0, id));
                                let j = choose|j: int| 0 <= j < nc0.len() && (#[trigger] nc0[j]).0 == id;
                                assert(new_classes@[j] == nc0[j]);
                            } else {
                                let nodes = comps.nodes@[c as int]@;
                                let node = Node::Resource(ResourceNode::Anonymous(id));
                                let q = choose|q: int| 0 <= q < nodes.len() && nodes[q] == node;
                                assert(cond.members@.len() == n);
                                assert(nodes.len() == cond.members@[c as int]@.len());
                                assert(g.len() == vertices@.len());
                                let v = cond.members@[c as int]@[q];
                                let m0 = cond.members@[c as int]@[0];
                                assert(v < g.len() && m0 < g.len());
                                assert(cond.members@[c as int]@.contains(v));
                                assert(cond.members@[c as int]@.contains(m0));
                                assert(cond.component@[v as int] == c);
                                assert(cond.component@[m0 as int] == c);
                                if v != m0 {
                                    assert(mutual(g, v, m0));
                                    lemma_component_has_inner_edge(g, cond.component@, v, m0);
                                    assert(cond.reflexive@[c as int]);
                                }
                                assert(nodes[0] == vertices@[m0 as int]);
                                assert(nodes[q] == vertices@[v as int]);
                                assert(nodes[0] == node);
                                assert(new_classes@[nc0.len() as int].0 == id);
                            }
                        }
                    }
                }
            } else {
                proof {
                    assert forall|y: int, id: Id|
                        0 <= y < c + 1 && heights@[y] == l && #[trigger] comps.nodes@[y]@.contains(Node::Resource(ResourceNode::Anonymous(id)))
                            implies listed(new_classes@, id) by {
                    }
                }
            }
            c = c + 1;
        }
        if new_groups.len() >= 4294967295 {
            return None;
        }
        let mut layer_groups = LayerGroups::new(l as u32);
        let mut group_ids: Vec<GroupId> = Vec::new();
        let ng = new_groups.len();
        let mut rest = new_groups;
        let mut taken: usize = 0;
        let mut pending: Vec<Description> = Vec::new();
        while rest.len() > 0
            invariant
                rest@.len() + taken == ng,
                pending@.len() == taken,
            decreases rest@.len(),
        {
            let d = rest.pop().unwrap();
            pending.push(d);
            taken = taken + 1;
        }
        let mut k: usize = 0;
        while pending.len() > 0
            invariant
                layer_groups.wf(),
                pending@.len() + k == ng,
                ng < 4294967295,
                layer_groups.groups().len() <= k,
                group_ids@.len() == k,
            decreases pending@.len(),
        {
            let d = pending.pop().unwrap();
            let gid = layer_groups.insert(d);
            group_ids.push(gid);
            k = k + 1;
        }
        let mut j: usize = 0;
        while j < new_classes.len()
            invariant
                j <= new_classes@.len(),
                group_ids@.len() == ng,
                forall|q: int| 0 <= q < new_classes@.len() ==> (#[trigger] new_classes@[q]).1.group < ng,
                forall|q: int| 0 <= q < new_classes@.len() ==> is_anonymous_in(*interpretation, (#[trigger] new_classes@[q]).0),
                forall|q: int| 0 <= q < all@.len() ==> is_anonymous_in(*interpretation, (#[trigger] all@[q]).0),
                forall|q: int| 0 <= q < j ==> listed(all@, (#[trigger] new_classes@[q]).0),
                forall|y: int, id: Id|
                    0 <= y < n && heights@[y] < l && #[trigger] comps.nodes@[y]@.contains(Node::Resource(ResourceNode::Anonymous(id)))
                        ==> listed(all@, id),
            decreases new_classes@.len() - j,
        {
            let (id, lc) = new_classes[j];
            let class = Class::new(group_ids[lc.group], lc.member);
            classes.insert(id, class);
            let ghost a0 = all@;
            all.push((id, class));
            proof {
                assert forall|q: int| 0 <= q < all@.len() implies is_anonymous_in(*interpretation, (#[trigger] all@[q]).0) by {
                    if q < a0.len() {
                        assert(all@[q] == a0[q]);
                    } else {
                        assert(new_classes@[j as int].0 == id);
                    }
                }
                assert forall|i: Id| listed(a0, i) implies listed(all@, i) by {
                    let q = choose|q: int| 0 <= q < a0.len() && (#[trigger] a0[q]).0 == i;
                    assert(all@[q] == a0[q]);
                }
                assert forall|q: int| 0 <= q < j + 1 implies listed(all@, (#[trigger] new_classes@[q]).0) by {
                    if q == j {
                        assert(all@[a0.len() as int].0 == id);
                    } else {
                        assert(listed(a0, new_classes@[q].0));
                    }
                }
                assert forall|y: int, i: Id|
                    0 <= y < n && heights@[y] < l && #[trigger] comps.nodes@[y]@.contains(Node::Resource(ResourceNode::Anonymous(i)))
                        implies listed(all@, i) by {
                    assert(listed(a0, i));
                }
            }
            j = j + 1;
        }
        proof {
            assert forall|y: int, i: Id|
                0 <= y < n && heights@[y] < l + 1 && #[trigger] comps.nodes@[y]@.contains(Node::Resource(ResourceNode::Anonymous(i)))
                    implies listed(all@, i) by {
                if heights@[y] == l {
                    assert(listed(new_classes@, i));
                    let q = choose|q: int| 0 <= q < new_classes@.len() && (#[trigger] new_classes@[q]).0 == i;
                    assert(listed(all@, new_classes@[q].0));
                }
            }
        }
        let groups = layer_groups.into_vec();
        proof {
            assert(groups@.map_values(|d: Description| crate::class::classification::description_view(d)).len() == groups@.len());
        }
        let ghost l0 = layers@;
        layers.push(Layer::new(groups));
        proof {
            assert forall|y: int| 0 <= y < layers@.len() implies (#[trigger] layers@[y]).groups@.len() <= u32::MAX by {
                if y < l0.len() {
                    assert(layers@[y] == l0[y]);
                }
            }
        }
        l = l + 1;
    }
    let r = LocalClassification::new(layers, all);
    proof {
        assert forall|id: u32| is_anonymous_in(*interpretation, Id(id)) implies #[trigger] r.resource_classes().contains_key(id) by {
            let node = Node::Resource(ResourceNode::Anonymous(Id(id)));
            assert(is_anonymous_in(*interpretation, Id(id)));
            let k = choose|k: int| 0 <= k < graph@.len() && graph@[k].0 == node;
            assert(in_graph(graph@, node));
            assert(vertices@.contains(node));
            let v = choose|v: int| 0 <= v < vertices@.len() && vertices@[v] == node;
            assert(g.len() == vertices@.len());
            assert(vertices@.len() == vertex_count);
            let vu: usize = v as usize;
            assert(vu as int == v);
            let x = cond.component@[v];
            assert(x < cond.members@.len());
            assert(cond.members@[x as int]@.contains(vu));
            let q = choose|q: int| 0 <= q < cond.members@[x as int]@.len() && cond.members@[x as int]@[q] == vu;
            assert(x < n);
            assert(comps.nodes@[x as int]@ == cond.members@[x as int]@.map_values(|i: usize| vertices@[i as int]));
            assert(comps.nodes@[x as int]@[q] == vertices@[cond.members@[x as int]@[q] as int]);
            assert(comps.nodes@[x as int]@[q] == vertices@[vu as int]);
            assert(comps.nodes@[x as int]@[q] == node);
            assert(comps.nodes@[x as int]@.contains(node));
            assert(heights@[x as int] < top);
            assert(listed(all@, Id(id)));
            let j = choose|j: int| 0 <= j < all@.len() && (#[trigger] all@[j]).0 == Id(id);
            assert(all@[j].0.0 == id);
        }
        assert forall|id: u32| #[trigger] r.resource_classes().contains_key(id) implies is_anonymous_in(*interpretation, Id(id)) by {
            let j = choose|j: int| 0 <= j < all@.len() && all@[j].0.0 == id;
            assert(is_anonymous_in(*interpretation, all@[j].0));
            assert(all@[j].0 == Id(id));
        }
    }
    Some(r)
}

/// Whether `a` and `b` reach each other in the graph.
pub open spec fn node_mutual(graph: Seq<(Node, Vec<Node>)>, a: Node, b: Node) -> bool {
    node_reaches(graph, a, b) && node_reaches(graph, b, a)
}

/// Reachability between numbered vertices is reachability between their
/// nodes.
proof fn lemma_reaches_nodes(graph: Seq<(Node, Vec<Node>)>, vertices: Seq<Node>, g: Seq<Seq<usize>>, i: usize, j: usize)
    requires
        indexes_graph(graph, vertices, g),
        vertices.len() <= usize::MAX,
        (i as int) < vertices.len(),
        (j as int) < vertices.len(),
    ensures
        reaches(g, i, j) <==> node_reaches(graph, vertices[i as int], vertices[j as int]),
{
    if reaches(g, i, j) {
        assert forall|s: Set<Node>| #[trigger] closed_nodes(graph, s) && s.contains(vertices[i as int]) implies s.contains(vertices[j as int]) by {
            let t = Set::new(|x: usize| (x as int) < vertices.len() && s.contains(vertices[x as int]));
            assert forall|u: usize, q: int|
                #![trigger t.contains(u), g[u as int][q]]
                t.contains(u) && (u as int) < g.len() && 0 <= q < g[u as int].len() implies t.contains(g[u as int][q]) by {
                let w = g[u as int][q];
                assert(w < g.len());
                assert(g[u as int][q] == w);
                assert(g[u as int].contains(w));
                assert(g[u as int].contains((w as int) as usize));
                assert(node_edge(graph, vertices[u as int], vertices[w as int]));
            }
            assert(closed_under(g, t));
            assert(t.contains(i));
        }
    }
    if node_reaches(graph, vertices[i as int], vertices[j as int]) {
        assert forall|t: Set<usize>| #[trigger] closed_under(g, t) && t.contains(i) implies t.contains(j) by {
            let s = Set::new(|m: Node| exists|x: usize| (x as int) < vertices.len() && t.contains(x) && vertices[x as int] == m);
            assert forall|a: Node, b: Node| s.contains(a) && #[trigger] node_edge(graph, a, b) implies s.contains(b) by {
                let x = choose|x: usize| (x as int) < vertices.len() && t.contains(x) && vertices[x as int] == a;
                let e = choose|e: int| 0 <= e < graph.len() && (#[trigger] graph[e]).0 == a && graph[e].1@.contains(b);
                assert(in_graph(graph, b));
                assert(vertices.contains(b));
                let w = choose|w: int| 0 <= w < vertices.len() && vertices[w] == b;
                let wu: usize = w as usize;
                assert(wu as int == w);
                assert(g[x as int].contains(wu));
                let q = choose|q: int| 0 <= q < g[x as int].len() && g[x as int][q] == wu;
                assert(t.contains(g[x as int][q]));
                assert(t.contains(wu) && vertices[wu as int] == b);
            }
            assert(closed_nodes(graph, s));
            assert(s.contains(vertices[i as int]));
            assert(s.contains(vertices[j as int]));
            let x = choose|x: usize| (x as int) < vertices.len() && t.contains(x) && vertices[x as int] == vertices[j as int];
            assert(x == j);
        }
    }
}

/// Whether `r` holds the strongly connected components of the graph: each
/// node of the graph in one place, two nodes in the same component exactly
/// when they reach each other, the successors of each component the other
/// components its nodes have an edge to, and each component reflexive
/// exactly when one of its nodes has an edge to one of its nodes.
pub open spec fn sccs_of(graph: Seq<(Node, Vec<Node>)>, r: Components) -> bool {
    let nodes = r.node_seqs();
    &&& r.wf()
    &&& forall|n: Node| in_graph(graph, n) <==> exists|c: int, k: int| 0 <= c < nodes.len() && 0 <= k < nodes[c].len() && #[trigger] nodes[c][k] == n
    &&& forall|c1: int, k1: int, c2: int, k2: int|
        0 <= c1 < nodes.len() && 0 <= k1 < nodes[c1].len() && 0 <= c2 < nodes.len() && 0 <= k2 < nodes[c2].len() ==> ((c1 == c2)
            <==> node_mutual(graph, #[trigger] nodes[c1][k1], #[trigger] nodes[c2][k2]))
    &&& forall|c: int, d: usize|
        0 <= c < nodes.len() ==> (#[trigger] r.successors@[c]@.contains(d) <==> (d != c && (d as int) < nodes.len() && nodes_edge(
            graph,
            nodes,
            c,
            d as int,
        )))
    &&& forall|c: int| 0 <= c < nodes.len() ==> (#[trigger] r.reflexive@[c] <==> nodes_edge(graph, nodes, c, c))
}

/// Whether some node of component `c` has an edge to some node of
/// component `d`.
pub open spec fn nodes_edge(graph: Seq<(Node, Vec<Node>)>, nodes: Seq<Seq<Node>>, c: int, d: int) -> bool {
    exists|k1: int, k2: int|
        0 <= k1 < nodes[c].len() && 0 <= k2 < nodes[d].len() && #[trigger] node_edge(graph, nodes[c][k1], nodes[d][k2])
}

/// The strongly connected components of the graph, numbered in order of
/// their first node.
pub fn strongly_connected_components(graph: &Vec<(Node, Vec<Node>)>) -> (r: Components)
    ensures
        sccs_of(graph@, r),
{
    let (vertices, adj) = index_graph(graph);
    let vertex_count: usize = vertices.len();
    let ghost g = adjacency_view(adj@);
    let cond = condense(&adj);
    let ghost cv = cond;
    let r = components_of(&vertices, cond, Ghost(g));
    let component_count: usize = r.nodes.len();
    proof {
        let nodes = r.node_seqs();
        assert(nodes.len() == cv.members@.len());
        assert(nodes.len() == component_count);
        assert forall|c: int| 0 <= c < nodes.len() implies #[trigger] nodes[c] == cv.members@[c]@.map_values(|i: usize| vertices@[i as int]) by {
            assert(nodes[c] == r.nodes@[c]@);
        }
        assert forall|n: Node| in_graph(graph@, n) <==> exists|c: int, k: int|
            0 <= c < nodes.len() && 0 <= k < nodes[c].len() && #[trigger] nodes[c][k] == n by {
            if in_graph(graph@, n) {
                assert(vertices@.contains(n));
                let v = choose|v: int| 0 <= v < vertices@.len() && vertices@[v] == n;
                let vu: usize = v as usize;
                assert(vertices@.len() == vertex_count);
                let x = cv.component@[v];
                assert(cv.members@[x as int]@.contains(vu));
                let q = choose|q: int| 0 <= q < cv.members@[x as int]@.len() && cv.members@[x as int]@[q] == vu;
                assert(nodes[x as int] == cv.members@[x as int]@.map_values(|i: usize| vertices@[i as int]));
                assert(nodes[x as int][q] == n);
            }
            if exists|c: int, k: int| 0 <= c < nodes.len() && 0 <= k < nodes[c].len() && #[trigger] nodes[c][k] == n {
                let (c, k) = choose|c: int, k: int| 0 <= c < nodes.len() && 0 <= k < nodes[c].len() && #[trigger] nodes[c][k] == n;
                assert(nodes[c] == cv.members@[c]@.map_values(|i: usize| vertices@[i as int]));
                let v = cv.members@[c]@[k];
                assert(v < g.len());
                assert(vertices@.contains(vertices@[v as int]));
            }
        }
        assert forall|c1: int, k1: int, c2: int, k2: int|
            0 <= c1 < nodes.len() && 0 <= k1 < nodes[c1].len() && 0 <= c2 < nodes.len() && 0 <= k2 < nodes[c2].len() implies ((c1 == c2)
                <==> node_mutual(graph@, #[trigger] nodes[c1][k1], #[trigger] nodes[c2][k2])) by {
            assert(nodes[c1] == cv.members@[c1]@.map_values(|i: usize| vertices@[i as int]));
            assert(nodes[c2] == cv.members@[c2]@.map_values(|i: usize| vertices@[i as int]));
            let v1 = cv.members@[c1]@[k1];
            let v2 = cv.members@[c2]@[k2];
            assert(v1 < g.len() && v2 < g.len());
            assert(cv.members@[c1]@.contains(v1));
            assert(cv.members@[c2]@.contains(v2));
            assert(cv.component@[v1 as int] == c1);
            assert(cv.component@[v2 as int] == c2);
            assert(vertices@.len() == vertex_count);
            lemma_reaches_nodes(graph@, vertices@, g, v1, v2);
            lemma_reaches_nodes(graph@, vertices@, g, v2, v1);
        }
        assert forall|c: int, d: int| 0 <= c < nodes.len() && 0 <= d < nodes.len() implies nodes_edge(graph@, nodes, c, d) == component_edge(
            g,
            cv.component@,
            c as usize,
            d as usize,
        ) by {
            assert(nodes[c] == cv.members@[c]@.map_values(|i: usize| vertices@[i as int]));
            assert(nodes[d] == cv.members@[d]@.map_values(|i: usize| vertices@[i as int]));
            if nodes_edge(graph@, nodes, c, d) {
                let (k1, k2) = choose|k1: int, k2: int|
                    0 <= k1 < nodes[c].len() && 0 <= k2 < nodes[d].len() && #[trigger] node_edge(graph@, nodes[c][k1], nodes[d][k2]);
                let u = cv.members@[c]@[k1];
                let w = cv.members@[d]@[k2];
                assert(u < g.len() && w < g.len());
                assert(cv.members@[c]@.contains(u));
                assert(cv.members@[d]@.contains(w));
                assert(nodes[c][k1] == vertices@[u as int]);
                assert(nodes[d][k2] == vertices@[w as int]);
                assert(g[u as int].contains((w as int) as usize));
                assert(g[u as int].contains(w));
                let q = choose|q: int| 0 <= q < g[u as int].len() && g[u as int][q] == w;
                assert(cv.component@[g[u as int][q] as int] == d);
            }
            if component_edge(g, cv.component@, c as usize, d as usize) {
                assert((c as usize) as int == c && (d as usize) as int == d);
                let (u, q) = choose|u: int, q: int|
                    0 <= u < g.len() && cv.component@[u] == c as usize && 0 <= q < g[u].len() && #[trigger] cv.component@[g[u][q] as int] == d as usize;
                let w = g[u][q];
                assert(adjacency_ok(g));
                assert(w < g.len());
                assert(vertices@.len() == vertex_count);
                let uu: usize = u as usize;
                assert(cv.members@[c]@.contains(uu));
                assert(cv.members@[d]@.contains(w));
                let k1 = choose|k1: int| 0 <= k1 < cv.members@[c]@.len() && cv.members@[c]@[k1] == uu;
                let k2 = choose|k2: int| 0 <= k2 < cv.members@[d]@.len() && cv.members@[d]@[k2] == w;
                assert(g[u][q] == w);
                assert(g[u].contains(w));
                assert(node_edge(graph@, vertices@[u], vertices@[w as int]));
                assert(nodes[c][k1] == vertices@[u]);
                assert(nodes[d][k2] == vertices@[w as int]);
            }
        }
        assert forall|c: int, d: usize| 0 <= c < nodes.len() implies (#[trigger] r.successors@[c]@.contains(d) <==> (d != c && (d as int) < nodes.len() && nodes_edge(graph@, nodes, c, d as int))) by {
            if r.successors@[c]@.contains(d) {
                assert(component_edge(g, cv.component@, c as usize, d));
                let (u, q) = choose|u: int, q: int|
                    0 <= u < g.len() && cv.component@[u] == c && 0 <= q < g[u].len() && #[trigger] cv.component@[g[u][q] as int] == d;
                assert(cv.component@[g[u][q] as int] < nodes.len());
            }

        }
    }
    r
}

} // verus!
