use inferdf::dataset::graph::{self, Graph};
use inferdf::dataset::standard::Standard;
use inferdf::dataset::{into_graph_fact, with_graph, Contradiction, Fact, TripleId};
use inferdf::module::sub_module::{filter_triple, Interface};
use inferdf::pattern::{AnySubject, AnySubjectAnyPredicate, Canonical};
use inferdf::{Cause, Id, Meta, Quad, Sign, Signed, Triple};

fn quad(s: u32, p: u32, o: u32, g: Option<u32>, sign: Sign) -> Fact {
    Meta(Signed(sign, Quad(Id(s), Id(p), Id(o), g.map(Id))), Cause::Stated(0))
}

fn gfact(s: u32, p: u32, o: u32, sign: Sign) -> graph::Fact {
    Meta(Signed(sign, Triple(Id(s), Id(p), Id(o))), Cause::Stated(0))
}

#[test]
fn standard_insert_in_named_graph() {
    let mut d = Standard::new();
    let (g, _, added) = d.insert(quad(1, 2, 3, Some(9), Sign::Positive)).ok().unwrap();
    assert_eq!(g, Some(Id(9)));
    assert!(added);
    let (g2, _, added2) = d.insert(quad(1, 2, 3, None, Sign::Positive)).ok().unwrap();
    assert_eq!(g2, None);
    assert!(added2);
    assert_eq!(d.graph(Some(Id(9))).unwrap().len(), 1);
    assert_eq!(d.graph(None).unwrap().len(), 1);
    assert!(d.graph(Some(Id(8))).is_none());
    assert!(d.contains_triple(Triple(Id(1), Id(2), Id(3)), Sign::Positive));
    assert!(!d.contains_triple(Triple(Id(1), Id(2), Id(3)), Sign::Negative));
    assert_eq!(d.graphs().len(), 2);
}

#[test]
fn standard_contradiction_stays_in_graph() {
    let mut d = Standard::new();
    d.insert(quad(1, 2, 3, Some(9), Sign::Positive)).ok().unwrap();
    assert!(d.insert(quad(1, 2, 3, None, Sign::Negative)).is_ok());
    match d.insert(quad(1, 2, 3, Some(9), Sign::Negative)) {
        Err(Contradiction(t)) => assert_eq!(t, Triple(Id(1), Id(2), Id(3))),
        Ok(_) => panic!("expected a contradiction"),
    }
}

#[test]
fn standard_find_and_matching() {
    let mut d = Standard::new();
    d.insert(quad(1, 2, 3, None, Sign::Positive)).ok().unwrap();
    d.insert(quad(4, 2, 3, Some(5), Sign::Negative)).ok().unwrap();
    let (g, _, f) = d.find_triple(Triple(Id(4), Id(2), Id(3))).unwrap();
    assert_eq!(g, Some(Id(5)));
    assert_eq!(*f, gfact(4, 2, 3, Sign::Negative));
    assert!(d.find_triple(Triple(Id(3), Id(2), Id(1))).is_none());
    let all = Canonical::AnySubject(AnySubject::AnyPredicate(AnySubjectAnyPredicate::AnyObject));
    assert_eq!(d.matching(all).len(), 2);
    assert_eq!(d.signed_matching(Signed(Sign::Negative, all)).len(), 1);
    let about_4 = d.resource_facts(Id(4));
    assert_eq!(about_4, vec![quad(4, 2, 3, Some(5), Sign::Negative)]);
    assert_eq!(d.iter().len(), 2);
}

#[test]
fn standard_graphs_move() {
    let mut d = Standard::new();
    let mut g = Graph::new();
    g.insert(gfact(1, 2, 3, Sign::Positive)).ok().unwrap();
    assert!(d.insert_graph(Id(7), g).is_none());
    assert_eq!(d.graph(Some(Id(7))).unwrap().len(), 1);
    let removed = d.remove_graph(Id(7)).unwrap();
    assert_eq!(removed.len(), 1);
    assert!(d.graph(Some(Id(7))).is_none());
}

#[test]
fn standard_replace_id_moves_graph() {
    let mut d = Standard::new();
    d.insert(quad(1, 2, 3, None, Sign::Positive)).ok().unwrap();
    d.insert(quad(4, 2, 1, Some(1), Sign::Positive)).ok().unwrap();
    d.replace_id(Id(9), Id(1), |_| Ok(true)).ok().unwrap();
    assert!(d.graph(Some(Id(1))).is_none());
    assert!(d.contains_triple(Triple(Id(9), Id(2), Id(3)), Sign::Positive));
    assert!(!d.contains_triple(Triple(Id(1), Id(2), Id(3)), Sign::Positive));
    let g9 = d.graph(Some(Id(9))).unwrap();
    assert!(g9.contains(Triple(Id(4), Id(2), Id(9)), Sign::Positive));
}

#[test]
fn standard_replace_id_filter_rejects() {
    let mut d = Standard::new();
    d.insert(quad(1, 2, 3, None, Sign::Positive)).ok().unwrap();
    d.insert(quad(5, 2, 3, None, Sign::Positive)).ok().unwrap();
    d.replace_id(Id(9), Id(1), |_| Ok(false)).ok().unwrap();
    assert!(!d.contains_triple(Triple(Id(9), Id(2), Id(3)), Sign::Positive));
    assert!(d.contains_triple(Triple(Id(5), Id(2), Id(3)), Sign::Positive));
}

#[test]
fn standard_replace_id_contradiction() {
    let mut d = Standard::new();
    d.insert(quad(1, 2, 3, None, Sign::Positive)).ok().unwrap();
    d.insert(quad(9, 2, 3, None, Sign::Negative)).ok().unwrap();
    match d.replace_id(Id(9), Id(1), |_| Ok(true)) {
        Err(Contradiction(t)) => assert_eq!(t, Triple(Id(9), Id(2), Id(3))),
        Ok(_) => panic!("expected a contradiction"),
    }
}

#[test]
fn facts_carry_graphs() {
    let f = quad(1, 2, 3, Some(4), Sign::Negative);
    let (gf, g) = into_graph_fact(f);
    assert_eq!(gf, gfact(1, 2, 3, Sign::Negative));
    assert_eq!(g, Some(Id(4)));
    assert_eq!(with_graph(gf, g), f);
    let id = TripleId::new(Some(Id(4)), 2);
    assert_eq!(id.graph, Some(Id(4)));
    assert_eq!(id.index, 2);
}

#[test]
fn sub_module_filters_known_triples() {
    let mut d = Standard::new();
    d.insert(quad(10, 20, 30, None, Sign::Positive)).ok().unwrap();
    let mut interface = Interface::new();
    interface.set_global_id(Id(10), Id(1));
    interface.set_global_id(Id(20), Id(2));
    interface.set_global_id(Id(30), Id(3));
    let t = Triple(Id(1), Id(2), Id(3));
    assert_eq!(filter_triple(&interface, &d, t, Sign::Positive).ok(), Some(false));
    match filter_triple(&interface, &d, t, Sign::Negative) {
        Err(Contradiction(local)) => assert_eq!(local, Triple(Id(10), Id(20), Id(30))),
        Ok(_) => panic!("expected a contradiction"),
    }
    assert_eq!(filter_triple(&interface, &d, Triple(Id(1), Id(2), Id(4)), Sign::Positive).ok(), Some(true));
    assert_eq!(filter_triple(&interface, &d, Triple(Id(3), Id(2), Id(1)), Sign::Positive).ok(), Some(true));
}
