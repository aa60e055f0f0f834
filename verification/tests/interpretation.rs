use inferdf::interpretation::local::Interpretation;
use inferdf::interpretation::reservable_slab::ReservableSlab;
use inferdf::interpretation::Contradiction;
use inferdf::uninterpreted::{Quad as UQuad, Term, Triple as UTriple};
use inferdf::{Id, Quad, Triple};

#[test]
fn insert_term_is_stable() {
    let mut i = Interpretation::new();
    let a = i.insert_term(Term::Iri(1));
    let b = i.insert_term(Term::Iri(1));
    let c = i.insert_term(Term::Literal(1));
    assert_eq!(a, b);
    assert_ne!(a, c);
    assert_eq!(i.len(), 2);
    assert_eq!(i.term_interpretation(Term::Iri(1)), Some(a));
    assert_eq!(i.term_interpretation(Term::Literal(1)), Some(c));
    assert_eq!(i.term_interpretation(Term::Iri(2)), None);
}

#[test]
fn new_resource_is_anonymous() {
    let mut i = Interpretation::new();
    let a = i.new_resource();
    assert!(i.get(a).unwrap().is_anonymous());
    assert!(i.terms_of(a).is_empty());
    let b = i.insert_term(Term::Blank(3));
    assert_ne!(a, b);
    assert_eq!(i.terms_of(b), vec![Term::Blank(3)]);
}

#[test]
fn merge_takes_terms_of_both() {
    let mut i = Interpretation::new();
    let a = i.insert_term(Term::Iri(1));
    let b = i.insert_term(Term::Iri(2));
    let (kept, removed) = i.merge(b, a).ok().unwrap();
    assert_eq!(kept, a);
    assert_eq!(removed, b);
    assert_eq!(i.term_interpretation(Term::Iri(2)), Some(a));
    assert_eq!(i.term_interpretation(Term::Iri(1)), Some(a));
    assert!(i.get(b).is_none());
    let mut terms = i.terms_of(a);
    terms.sort();
    assert_eq!(terms, vec![Term::Iri(1), Term::Iri(2)]);
}

#[test]
fn merge_with_itself_is_no_op() {
    let mut i = Interpretation::new();
    let a = i.insert_term(Term::Iri(1));
    assert_eq!(i.merge(a, a).ok(), Some((a, a)));
    assert_eq!(i.len(), 1);
}

#[test]
fn split_then_merge_is_contradiction() {
    let mut i = Interpretation::new();
    let a = i.insert_term(Term::Iri(1));
    let b = i.insert_term(Term::Iri(2));
    assert_eq!(i.split(a, b).ok(), Some(true));
    assert_eq!(i.split(b, a).ok(), Some(false));
    match i.merge(a, b) {
        Err(Contradiction(x, y)) => {
            assert_eq!(x, a);
            assert_eq!(y, b);
        }
        Ok(_) => panic!("expected a contradiction"),
    }
    assert_eq!(i.term_interpretation(Term::Iri(2)), Some(b));
}

#[test]
fn split_with_itself_is_contradiction() {
    let mut i = Interpretation::new();
    let a = i.insert_term(Term::Iri(1));
    match i.split(a, a) {
        Err(Contradiction(x, y)) => {
            assert_eq!(x, a);
            assert_eq!(y, a);
        }
        Ok(_) => panic!("expected a contradiction"),
    }
}

#[test]
fn merge_keeps_differences() {
    let mut i = Interpretation::new();
    let a = i.insert_term(Term::Iri(1));
    let b = i.insert_term(Term::Iri(2));
    let c = i.insert_term(Term::Iri(3));
    i.split(b, c).ok().unwrap();
    i.merge(a, b).ok().unwrap();
    assert!(i.merge(a, c).is_err());
}

#[test]
fn quads_round_trip() {
    let mut i = Interpretation::new();
    let q = UQuad(Term::Iri(1), Term::Iri(2), Term::Literal(3), Some(Term::Iri(4)));
    let interpreted = i.insert_quad(q);
    assert_eq!(i.quad_interpretation(q), Some(interpreted));
    let back = i.uninterpreted_quads_of(interpreted);
    assert_eq!(back, vec![q]);
    let unknown = UQuad(Term::Iri(9), Term::Iri(2), Term::Literal(3), None);
    assert_eq!(i.quad_interpretation(unknown), None);
}

#[test]
fn uninterpreted_triples_cover_all_terms() {
    let mut i = Interpretation::new();
    let a = i.insert_term(Term::Iri(1));
    let b = i.insert_term(Term::Iri(2));
    let p = i.insert_term(Term::Iri(3));
    i.merge(a, b).ok().unwrap();
    let mut ts = i.uninterpreted_triples_of(Triple(a, p, a));
    ts.sort();
    assert_eq!(ts.len(), 4);
    assert!(ts.contains(&UTriple(Term::Iri(1), Term::Iri(3), Term::Iri(2))));
    assert!(ts.contains(&UTriple(Term::Iri(2), Term::Iri(3), Term::Iri(1))));
    let quads = i.uninterpreted_quads_of(Quad(a, p, p, None));
    assert_eq!(quads.len(), 2);
    assert!(quads.iter().all(|q| q.3.is_none()));
}

#[test]
fn reservation_gives_next_identifiers() {
    let mut i = Interpretation::new();
    let a = i.insert_term(Term::Iri(1));
    let mut r = i.begin_reservation();
    let x = r.new_resource();
    let y = r.new_resource();
    assert_ne!(x, a);
    assert_ne!(x, y);
    let completed = r.end();
    completed.apply(&mut i).ok().unwrap();
    assert!(i.get(x).unwrap().is_anonymous());
    assert!(i.get(y).unwrap().is_anonymous());
    assert_eq!(i.len(), 3);
}

#[test]
fn stale_reservation_is_refused() {
    let mut i = Interpretation::new();
    let completed = {
        let mut r = i.begin_reservation();
        r.new_resource();
        r.end()
    };
    i.insert_term(Term::Iri(1));
    assert!(completed.apply(&mut i).is_err());
}

#[test]
fn slab_reuses_freed_slots() {
    let mut s: ReservableSlab<u32> = ReservableSlab::new();
    let a = s.insert(10);
    let b = s.insert(20);
    assert_eq!(s.len(), 2);
    assert_eq!(s.remove(a), Some(10));
    assert_eq!(s.get(a), None);
    let c = s.insert(30);
    assert_eq!(c, a);
    assert_eq!(s.get(b), Some(&20));
    assert_eq!(s.replace(b, 21), 20);
    assert_eq!(s.get(b), Some(&21));
    assert_eq!(s.remove(99), None);
}

#[test]
fn slab_reservation_applies_in_order() {
    let mut s: ReservableSlab<u32> = ReservableSlab::new();
    s.insert(1);
    let mut r = s.begin_reservation();
    let i = r.insert(2);
    let j = r.insert(3);
    let completed = r.end();
    completed.apply(&mut s).ok().unwrap();
    assert_eq!(s.get(i), Some(&2));
    assert_eq!(s.get(j), Some(&3));
}

#[test]
fn identifiers_convert() {
    let id = Id::from_u32(7);
    assert_eq!(id.index(), 7);
    assert_eq!(id.into_u32(), 7);
}

#[test]
fn merge_contradiction_is_found_once_the_other_is_removed() {
    let mut i = Interpretation::new();
    let a = i.insert_term(Term::Iri(1));
    let b = i.insert_term(Term::Iri(2));
    i.split(a, b).ok().unwrap();
    assert!(i.merge(b, a).is_err());
    assert!(i.get(a).is_some());
    assert!(i.get(b).is_none());
}
