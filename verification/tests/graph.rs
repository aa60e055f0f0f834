use inferdf::dataset::graph::{Fact, Graph};
use inferdf::dataset::Contradiction;
use inferdf::pattern::Canonical;
use inferdf::{Cause, Id, Meta, Sign, Signed, Triple};

fn fact(s: u32, p: u32, o: u32, sign: Sign) -> Fact {
    Meta(Signed(sign, Triple(Id(s), Id(p), Id(o))), Cause::Stated(0))
}

fn collect(graph: &Graph, pattern: Canonical) -> Vec<u32> {
    let mut m = graph.matching(pattern);
    let mut r = Vec::new();
    while let Some((i, _)) = m.next() {
        r.push(i);
    }
    r
}

#[test]
fn insert_then_find() {
    let mut g = Graph::new();
    let (i, added) = g.insert(fact(1, 2, 3, Sign::Positive)).ok().unwrap();
    assert!(added);
    assert_eq!(g.len(), 1);
    let (j, f) = g.find_triple(Triple(Id(1), Id(2), Id(3))).unwrap();
    assert_eq!(i, j);
    assert_eq!(*f, fact(1, 2, 3, Sign::Positive));
    assert!(g.contains(Triple(Id(1), Id(2), Id(3)), Sign::Positive));
    assert!(!g.contains(Triple(Id(1), Id(2), Id(3)), Sign::Negative));
    assert!(g.find_triple(Triple(Id(3), Id(2), Id(1))).is_none());
}

#[test]
fn insert_twice_is_no_op() {
    let mut g = Graph::new();
    let (i, _) = g.insert(fact(1, 2, 3, Sign::Positive)).ok().unwrap();
    let (j, added) = g.insert(fact(1, 2, 3, Sign::Positive)).ok().unwrap();
    assert_eq!(i, j);
    assert!(!added);
    assert_eq!(g.len(), 1);
}

#[test]
fn insert_opposite_sign_is_contradiction() {
    let mut g = Graph::new();
    g.insert(fact(1, 2, 3, Sign::Positive)).ok().unwrap();
    match g.insert(fact(1, 2, 3, Sign::Negative)) {
        Err(Contradiction(t)) => assert_eq!(t, Triple(Id(1), Id(2), Id(3))),
        Ok(_) => panic!("expected a contradiction"),
    }
    assert_eq!(g.len(), 1);
}

#[test]
fn matching_intersects_indexes() {
    let mut g = Graph::new();
    let a = g.insert(fact(1, 2, 3, Sign::Positive)).ok().unwrap().0;
    let _b = g.insert(fact(1, 2, 4, Sign::Positive)).ok().unwrap().0;
    let c = g.insert(fact(1, 5, 3, Sign::Positive)).ok().unwrap().0;
    let d = g.insert(fact(6, 2, 3, Sign::Positive)).ok().unwrap().0;
    let e = g.insert(fact(1, 7, 3, Sign::Negative)).ok().unwrap().0;
    assert_eq!(collect(&g, Canonical::from_option_triple(Some(Id(1)), None, Some(Id(3)))), vec![a, c, e]);
    assert_eq!(collect(&g, Canonical::from_option_triple(None, Some(Id(2)), Some(Id(3)))), vec![a, d]);
    assert_eq!(collect(&g, Canonical::from_option_triple(None, None, None)).len(), 5);
    assert_eq!(collect(&g, Canonical::from_option_triple(Some(Id(9)), None, None)), Vec::<u32>::new());
    let mut m = g.signed_matching(Signed(Sign::Negative, Canonical::from_option_triple(Some(Id(1)), None, None)));
    assert_eq!(m.next().map(|(i, _)| i), Some(e));
    assert!(m.next().is_none());
}

#[test]
fn remove_triple_undoes_insert() {
    let mut g = Graph::new();
    g.insert(fact(1, 2, 3, Sign::Positive)).ok().unwrap();
    g.insert(fact(4, 5, 6, Sign::Positive)).ok().unwrap();
    assert!(g.remove_negative_triple(Triple(Id(1), Id(2), Id(3))).is_none());
    let removed = g.remove_triple(Triple(Id(1), Id(2), Id(3))).unwrap();
    assert_eq!(removed, fact(1, 2, 3, Sign::Positive));
    assert_eq!(g.len(), 1);
    assert!(g.find_triple(Triple(Id(1), Id(2), Id(3))).is_none());
    assert!(collect(&g, Canonical::from_option_triple(Some(Id(1)), None, None)).is_empty());
}

#[test]
fn remove_resource_removes_its_facts() {
    let mut g = Graph::new();
    g.insert(fact(1, 2, 3, Sign::Positive)).ok().unwrap();
    g.insert(fact(3, 2, 1, Sign::Positive)).ok().unwrap();
    g.insert(fact(4, 5, 6, Sign::Positive)).ok().unwrap();
    let removed = g.remove_resource(Id(3));
    assert_eq!(removed, vec![fact(3, 2, 1, Sign::Positive), fact(1, 2, 3, Sign::Positive)]);
    assert_eq!(g.len(), 1);
    assert!(g.get_resource(Id(3)).is_none());
    assert!(collect(&g, Canonical::from_option_triple(None, Some(Id(2)), None)).is_empty());
}

#[test]
fn resource_facts_by_index() {
    let mut g = Graph::new();
    let a = g.insert(fact(1, 2, 3, Sign::Positive)).ok().unwrap().0;
    let _ = g.insert(fact(4, 5, 6, Sign::Positive)).ok().unwrap().0;
    let c = g.insert(fact(3, 3, 7, Sign::Negative)).ok().unwrap().0;
    let mut r = g.resource_facts(Id(3));
    assert!(!r.is_empty());
    assert_eq!(r.next().map(|(i, _)| i), Some(a));
    assert_eq!(r.next().map(|(i, _)| i), Some(c));
    assert!(r.next().is_none());
    assert!(r.is_empty());
}

#[test]
fn replace_id_rewrites_facts() {
    let mut g = Graph::new();
    g.insert(fact(1, 2, 3, Sign::Positive)).ok().unwrap();
    g.insert(fact(4, 2, 1, Sign::Positive)).ok().unwrap();
    g.replace_id(Id(9), Id(1), |_f: &Fact| Ok(true)).ok().unwrap();
    assert!(g.contains(Triple(Id(9), Id(2), Id(3)), Sign::Positive));
    assert!(g.contains(Triple(Id(4), Id(2), Id(9)), Sign::Positive));
    assert!(g.find_triple(Triple(Id(1), Id(2), Id(3))).is_none());
    assert_eq!(g.len(), 2);
}

#[test]
fn try_extend_stops_at_contradiction() {
    let mut g = Graph::new();
    let r = g.try_extend(vec![fact(1, 2, 3, Sign::Positive), fact(1, 2, 3, Sign::Negative), fact(4, 5, 6, Sign::Positive)]);
    assert!(r.is_err());
    assert_eq!(g.len(), 1);
    let ok = g.try_extend(vec![fact(4, 5, 6, Sign::Positive), fact(1, 2, 3, Sign::Positive)]).ok().unwrap();
    assert_eq!(ok.len(), 2);
    assert!(ok[0].1);
    assert!(!ok[1].1);
}

#[test]
fn full_matching_yields_each_match_once_by_increasing_index() {
    let mut g = Graph::new();
    let a = g.insert(fact(1, 2, 3, Sign::Positive)).ok().unwrap().0;
    let b = g.insert(fact(4, 2, 3, Sign::Negative)).ok().unwrap().0;
    let _c = g.insert(fact(1, 5, 6, Sign::Positive)).ok().unwrap().0;
    let d = g.insert(fact(7, 2, 3, Sign::Positive)).ok().unwrap().0;
    let all = g.full_matching(Canonical::from_option_triple(None, Some(Id(2)), Some(Id(3))), None).into_vec();
    assert_eq!(all.iter().map(|(i, _)| *i).collect::<Vec<_>>(), vec![a, b, d]);
    assert_eq!(*all[1].1, fact(4, 2, 3, Sign::Negative));
    let positive = g.full_matching(Canonical::from_option_triple(None, Some(Id(2)), None), Some(Sign::Positive)).into_vec();
    assert_eq!(positive.iter().map(|(i, _)| *i).collect::<Vec<_>>(), vec![a, d]);
}
