use inferdf::inference::scc::condense;
use inferdf::inference::components::{classify_anonymous_nodes, strongly_connected_components};
use inferdf::dataset::standard::Standard;
use inferdf::inference::components::dependency_graph;
use inferdf::interpretation::local::Interpretation;
use inferdf::uninterpreted::Term;
use inferdf::{Cause, Meta, Quad};
use inferdf::class::group::{Binding, Description, GroupId, GroupNormalizer, Member};
use inferdf::class::{Class, Reference};
use inferdf::inference::components::{
    compute_non_reflexive, compute_reflexive, reflexive_members, sort_bindings, Classes, Components, Node, ResourceNode,
};
use inferdf::inference::LayerClass;
use inferdf::{Id, Sign, Signed};

struct Reversing;

impl GroupNormalizer for Reversing {
    fn normalize(&mut self, mut members: Vec<Member>) -> (Description, Vec<usize>) {
        let n = members.len();
        members.reverse();
        (Description::from_normalized_members(members), (0..n).rev().collect())
    }
}

struct Forgetful;

impl GroupNormalizer for Forgetful {
    fn normalize(&mut self, members: Vec<Member>) -> (Description, Vec<usize>) {
        (Description::from_normalized_members(members), Vec::new())
    }
}

fn triple(s: u32, p: ResourceNode, o: ResourceNode) -> Node {
    Node::Triple(Signed(Sign::Positive, (Id(s), p, o)))
}

fn anonymous(id: u32) -> ResourceNode {
    ResourceNode::Anonymous(Id(id))
}

fn named(id: u32) -> ResourceNode {
    ResourceNode::Named(Id(id))
}

#[test]
fn bindings_are_sorted_as_their_derived_order() {
    let c = Class::new(GroupId::new(0, 0), 0);
    let v: Vec<Binding> = vec![
        Signed(Sign::Negative, (Reference::Singleton(Id(1)), Reference::Singleton(Id(1)))),
        Signed(Sign::Positive, (Reference::Class(c), Reference::Singleton(Id(2)))),
        Signed(Sign::Positive, (Reference::Singleton(Id(9)), Reference::Group(0))),
        Signed(Sign::Positive, (Reference::Singleton(Id(9)), Reference::Singleton(Id(3)))),
    ];
    let mut expected = v.clone();
    expected.sort();
    assert_eq!(sort_bindings(v), expected);
}

#[test]
fn single_resource_component_gets_its_own_group() {
    let components = Components {
        nodes: vec![
            vec![Node::Resource(anonymous(1))],
            vec![triple(1, named(5), named(6)), triple(1, named(3), anonymous(2)), triple(4, named(5), named(5))],
        ],
        successors: vec![vec![1], vec![]],
        reflexive: vec![false, false],
    };
    let mut classes = Classes::new();
    let c = Class::new(GroupId::new(0, 0), 0);
    classes.insert(Id(2), c);
    let mut groups = vec![];
    let mut new_classes = vec![];
    compute_non_reflexive(&components, &classes, &mut groups, &mut new_classes, 0);
    let mut expected: Vec<Binding> = vec![
        Signed(Sign::Positive, (Reference::Singleton(Id(5)), Reference::Singleton(Id(6)))),
        Signed(Sign::Positive, (Reference::Singleton(Id(3)), Reference::Class(c))),
    ];
    expected.sort();
    assert_eq!(groups, vec![Description::from_normalized_members(vec![Member::new(expected)])]);
    assert_eq!(new_classes.len(), 1);
    assert_eq!(new_classes[0].0, Id(1));
    assert_eq!((new_classes[0].1.group, new_classes[0].1.member), (0, 0));

    // A component of a named resource adds nothing.
    let named_only = Components { nodes: vec![vec![Node::Resource(named(8))]], successors: vec![vec![]], reflexive: vec![false] };
    compute_non_reflexive(&named_only, &classes, &mut groups, &mut new_classes, 0);
    assert_eq!(groups.len(), 1);
    assert_eq!(new_classes.len(), 1);
}

fn cycle() -> Components {
    Components {
        nodes: vec![
            vec![
                Node::Resource(anonymous(1)),
                Node::Resource(anonymous(2)),
                triple(1, named(7), anonymous(2)),
                triple(2, named(7), anonymous(1)),
            ],
            vec![triple(2, named(9), anonymous(3)), triple(3, named(9), named(9))],
        ],
        successors: vec![vec![1], vec![]],
        reflexive: vec![true, false],
    }
}

#[test]
fn cyclic_component_members_refer_to_each_other() {
    let mut classes = Classes::new();
    let c = Class::new(GroupId::new(0, 4), 1);
    classes.insert(Id(3), c);
    let (ids, members) = reflexive_members(&cycle(), &classes, 0);
    assert_eq!(ids, vec![Id(1), Id(2)]);
    assert_eq!(members[0].properties, vec![Signed(Sign::Positive, (Reference::Singleton(Id(7)), Reference::Group(1)))]);
    assert_eq!(
        members[1].properties,
        vec![
            Signed(Sign::Positive, (Reference::Singleton(Id(7)), Reference::Group(0))),
            Signed(Sign::Positive, (Reference::Singleton(Id(9)), Reference::Class(c))),
        ]
    );
}

#[test]
fn cyclic_component_classes_follow_the_normal_form() {
    let mut classes = Classes::new();
    classes.insert(Id(3), Class::new(GroupId::new(0, 4), 1));
    let mut groups = vec![Description::from_normalized_members(vec![])];
    let mut new_classes = vec![];
    assert!(compute_reflexive(&cycle(), &classes, &mut groups, &mut new_classes, 0, &mut Reversing));
    assert_eq!(groups.len(), 2);
    assert_eq!(groups[1].members.len(), 2);
    let found: Vec<(Id, usize, u32)> = new_classes.iter().map(|(id, LayerClass { group, member })| (*id, *group, *member)).collect();
    assert_eq!(found, vec![(Id(1), 1, 1), (Id(2), 1, 0)]);

    assert!(!compute_reflexive(&cycle(), &classes, &mut groups, &mut new_classes, 0, &mut Forgetful));
    assert_eq!(groups.len(), 2);
    assert_eq!(new_classes.len(), 2);
}

#[test]
fn dependency_graph_links_anonymous_resources_to_their_triples() {
    let mut interpretation = Interpretation::new();
    let named_id = interpretation.insert_term(Term::Iri(0));
    let blank_id = interpretation.insert_term(Term::Blank(0));
    let mut dataset = Standard::new();
    let fact = |s: Id, p: Id, o: Id| Meta(Signed(Sign::Positive, Quad(s, p, o, None)), Cause::Stated(0));
    dataset.insert(fact(blank_id, named_id, named_id)).ok().unwrap();
    dataset.insert(fact(named_id, named_id, blank_id)).ok().unwrap();
    let graph = dependency_graph(&dataset, &interpretation);
    let t = Node::Triple(Signed(Sign::Positive, (blank_id, ResourceNode::Named(named_id), ResourceNode::Named(named_id))));
    assert_eq!(
        graph,
        vec![
            (t, vec![Node::Resource(ResourceNode::Named(named_id)), Node::Resource(ResourceNode::Named(named_id))]),
            (Node::Resource(ResourceNode::Anonymous(blank_id)), vec![t]),
        ]
    );
}

#[test]
fn condensation_groups_vertices_that_reach_each_other() {
    let adj: Vec<Vec<usize>> = vec![vec![1], vec![0], vec![0], vec![3]];
    let c = condense(&adj);
    assert_eq!(c.component, vec![0, 0, 1, 2]);
    assert_eq!(c.members, vec![vec![0, 1], vec![2], vec![3]]);
    assert_eq!(c.successors, vec![vec![], vec![0], vec![]]);
    assert_eq!(c.reflexive, vec![true, false, true]);
}

fn blank_interpretation() -> (Interpretation, Id, Id, Id) {
    let mut interpretation = Interpretation::new();
    let named_id = interpretation.insert_term(Term::Iri(0));
    let b1 = interpretation.insert_term(Term::Blank(1));
    let b2 = interpretation.insert_term(Term::Blank(2));
    (interpretation, named_id, b1, b2)
}

fn stated(s: Id, p: Id, o: Id) -> Meta<Signed<Quad>, Cause> {
    Meta(Signed(Sign::Positive, Quad(s, p, o, None)), Cause::Stated(0))
}

#[test]
fn classification_layers_chains_of_anonymous_resources() {
    let (interpretation, named_id, b1, b2) = blank_interpretation();
    let mut dataset = Standard::new();
    dataset.insert(stated(b1, named_id, named_id)).ok().unwrap();
    dataset.insert(stated(b2, named_id, b1)).ok().unwrap();
    let classification = classify_anonymous_nodes(&dataset, &interpretation, &mut Reversing).unwrap();
    let c1 = classification.resource_class(b1).unwrap();
    let c2 = classification.resource_class(b2).unwrap();
    assert!(classification.resource_class(named_id).is_none());
    assert!(c1.group.layer < c2.group.layer);
    assert_eq!(c1.member, 0);
    assert_eq!(c2.member, 0);
}

#[test]
fn classification_puts_a_cycle_in_one_group() {
    let (interpretation, named_id, b1, b2) = blank_interpretation();
    let mut dataset = Standard::new();
    dataset.insert(stated(b1, named_id, b2)).ok().unwrap();
    dataset.insert(stated(b2, named_id, b1)).ok().unwrap();
    let classification = classify_anonymous_nodes(&dataset, &interpretation, &mut Reversing).unwrap();
    let c1 = classification.resource_class(b1).unwrap();
    let c2 = classification.resource_class(b2).unwrap();
    assert_eq!(c1.group, c2.group);
    let mut members = vec![c1.member, c2.member];
    members.sort();
    assert_eq!(members, vec![0, 1]);
}

#[test]
fn components_of_a_cycle_of_anonymous_resources() {
    let (interpretation, named_id, b1, b2) = blank_interpretation();
    let mut dataset = Standard::new();
    dataset.insert(stated(b1, named_id, b2)).ok().unwrap();
    dataset.insert(stated(b2, named_id, b1)).ok().unwrap();
    let graph = dependency_graph(&dataset, &interpretation);
    let components = strongly_connected_components(&graph);
    // The named resource is a component of its own; the two anonymous
    // resources and their triples form one cycle.
    assert_eq!(components.nodes.len(), 2);
    let cycle = components.nodes.iter().position(|c| c.len() == 4).unwrap();
    let named = 1 - cycle;
    assert_eq!(components.nodes[named], vec![Node::Resource(ResourceNode::Named(named_id))]);
    assert!(components.reflexive[cycle]);
    assert!(!components.reflexive[named]);
    assert_eq!(components.successors[cycle], vec![named]);
    assert!(components.successors[named].is_empty());
    assert!(components.nodes[cycle].contains(&Node::Resource(ResourceNode::Anonymous(b1))));
    assert!(components.nodes[cycle].contains(&Node::Resource(ResourceNode::Anonymous(b2))));
}
