use inferdf::interpretation::composite::Interface as DependencyInterface;
use inferdf::module::sub_module::{Interface, IntoLocal, ResourceGenerator, TryResourceGenerator};
use inferdf::pattern::{
    AnySubject, AnySubjectAnyPredicate, AnySubjectGivenPredicate, Canonical, GivenSubject, GivenSubjectAnyPredicate,
    IdOrVar, IdOrVarIter, Pattern, PatternSubstitution,
};
use inferdf::rdfs::{is_iri_ref_successor, Keyword, Prefix, Unexpected};
use inferdf::semantics::{MaybeTrusted, QuadStatement, TripleStatement, Trust};
use inferdf::utils::DivCeil;
use inferdf::{Cause, Entailment, Id, Quad, Sign, Signed, Triple};

#[test]
fn cause_entailment() {
    assert_eq!(Cause::Entailed(3).into_entailed(), Some(3));
    assert_eq!(Cause::Stated(3).into_entailed(), None);
    let e = Entailment::new(Id(1), vec![Id(2), Id(3)]);
    assert_eq!(e.rule, Id(1));
    assert_eq!(e.substitution, vec![Id(2), Id(3)]);
}

#[test]
fn statements_replace_ids() {
    let s = TripleStatement::Triple(Triple(Id(1), Id(2), Id(1)));
    assert_eq!(s.with_graph(Some(Id(5))), QuadStatement::Quad(Quad(Id(1), Id(2), Id(1), Some(Id(5)))));
    let mut q = QuadStatement::Eq(Id(1), Id(2), Some(Id(1)));
    q.replace_id(Id(9), Id(1));
    assert_eq!(q, QuadStatement::Eq(Id(9), Id(2), Some(Id(9))));
}

#[test]
fn trust_parts() {
    assert!(Trust::Trusted.is_trusted());
    assert!(Trust::Untrusted.is_untrusted());
    let m = MaybeTrusted::new(3u32, Trust::Untrusted);
    assert_eq!(*m.value(), 3);
    assert_eq!(m.as_parts(), (&3, Trust::Untrusted));
    let m2 = m.map(|x| x + 1);
    assert_eq!(m2.into_parts(), (4, Trust::Untrusted));
}

#[test]
fn keywords_and_prefixes() {
    assert_eq!(Keyword::Base.as_str(), "base");
    assert_eq!(Keyword::Prefix.as_str(), "prefix");
    assert_eq!(Keyword::ForAll.as_str(), "forall");
    assert_eq!(Keyword::Exists.as_str(), "exists");
    assert_eq!(Prefix("ex".to_string()).as_str(), "ex");
    assert!(is_iri_ref_successor(None));
    assert!(is_iri_ref_successor(Some(' ')));
    assert!(is_iri_ref_successor(Some('\n')));
    assert!(!is_iri_ref_successor(Some('a')));
    assert_eq!(Unexpected::from_char(Some('x')), Unexpected(Some('x')));
}

#[test]
fn pattern_matching_binds_variables() {
    let p = Pattern(IdOrVar::Var(0), IdOrVar::Id(Id(2)), IdOrVar::Var(0));
    let mut s = PatternSubstitution::new();
    assert!(p.matching(&mut s, Triple(Id(1), Id(2), Id(1))));
    assert_eq!(s.get(0), Some(Id(1)));
    let mut s2 = PatternSubstitution::new();
    assert!(!p.matching(&mut s2, Triple(Id(1), Id(2), Id(3))));
    assert_eq!(p.instantiate(&s), Some(Triple(Id(1), Id(2), Id(1))));
    assert_eq!(p.instantiate(&PatternSubstitution::new()), None);
}

#[test]
fn canonical_round_trip() {
    let c = Canonical::GivenSubject(Id(1), GivenSubject::AnyPredicate(GivenSubjectAnyPredicate::SameAsPredicate));
    let p = Pattern::from_canonical(c);
    assert_eq!(p, Pattern(IdOrVar::Id(Id(1)), IdOrVar::Var(1), IdOrVar::Var(1)));
    assert_eq!(Canonical::from_pattern(p), c);
    let any = Canonical::AnySubject(AnySubject::SameAsSubject(AnySubjectGivenPredicate::SameAsSubject));
    assert_eq!(Canonical::from_pattern(Pattern::from_canonical(any)), any);
}

#[test]
fn substitution_operations() {
    let mut s = PatternSubstitution::new();
    assert!(s.bind(2, Id(5)));
    assert!(!s.bind(2, Id(6)));
    assert!(s.contains(2));
    assert!(!s.contains(0));
    assert_eq!(s.get_or_insert_with(0, || Id(8)), Id(8));
    assert_eq!(s.get_or_insert_with(0, || Id(9)), Id(8));
    assert_eq!(s.to_vec(), vec![Some(Id(8)), None]);
    assert_eq!(s.into_vec(), vec![Some(Id(8)), None]);
}

struct Counter(u32);

impl ResourceGenerator for Counter {
    fn new_resource(&mut self) -> Id {
        self.0 += 1;
        Id(100 + self.0)
    }
}

#[test]
fn sub_module_interface() {
    let mut i = Interface::new();
    assert_eq!(i.global_id(Id(1)), None);
    assert_eq!(i.get_or_insert_global(Id(1), || Id(10)), Id(10));
    assert_eq!(i.get_or_insert_global(Id(1), || Id(11)), Id(10));
    assert_eq!(i.local_id(Id(10)), Some(Id(1)));
    let r: Result<Id, ()> = i.get_or_try_insert_global(Id(2), |_| Err(()));
    assert!(r.is_err());
    assert_eq!(i.global_id(Id(2)), None);
    let r: Result<Id, ()> = i.get_or_try_insert_global(Id(2), |x| Ok(Id(x.0 + 20)));
    assert_eq!(r, Ok(Id(22)));
    let mut g = Counter(0);
    let t = i.triple_into_global(Triple(Id(1), Id(3), Id(3)), &mut g);
    assert_eq!(t, Triple(Id(10), Id(101), Id(101)));
    let q = i.quad_into_global(Quad(Id(2), Id(4), Id(1), Some(Id(5))), &mut g);
    assert_eq!(q, Quad(Id(22), Id(102), Id(10), Some(Id(103))));
    assert_eq!(Triple(Id(10), Id(101), Id(22)).into_local(&i), Some(Triple(Id(1), Id(3), Id(2))));
    assert_eq!(Triple(Id(10), Id(999), Id(22)).into_local(&i), None);
    let c = Canonical::AnySubject(AnySubject::GivenPredicate(Id(101), AnySubjectGivenPredicate::GivenObject(Id(10))));
    assert_eq!(
        c.into_local(&i),
        Some(Canonical::AnySubject(AnySubject::GivenPredicate(Id(3), AnySubjectGivenPredicate::GivenObject(Id(1)))))
    );
    let any = Canonical::AnySubject(AnySubject::AnyPredicate(AnySubjectAnyPredicate::AnyObject));
    assert_eq!(any.into_local(&i), Some(any));
    assert_eq!(Signed(Sign::Negative, Id(22)).into_local(&i), Some(Signed(Sign::Negative, Id(2))));
    assert_eq!(Some(Id(7)).into_local(&i), None);
}

#[test]
fn dependency_interface() {
    let mut i = DependencyInterface::new();
    i.bind(Id(1), Id(10));
    i.bind(Id(2), Id(20));
    assert_eq!(i.dependency_ids(Id(1)), vec![Id(10)]);
    assert!(i.dependency_ids(Id(3)).is_empty());
    assert_eq!(i.id_from_dependency(Id(20)), Some(Id(2)));
    assert_eq!(i.quad_from_dependency(Quad(Id(10), Id(20), Id(10), None)), Some(Quad(Id(1), Id(2), Id(1), None)));
    assert_eq!(i.quad_from_dependency(Quad(Id(10), Id(20), Id(30), None)), None);
    assert_eq!(i.dependency_triples(Triple(Id(1), Id(2), Id(1))), vec![Triple(Id(10), Id(20), Id(10))]);
    assert!(i.dependency_triples(Triple(Id(1), Id(3), Id(1))).is_empty());
    let p = Pattern(IdOrVar::Var(0), IdOrVar::Id(Id(2)), IdOrVar::Id(Id(1)));
    assert_eq!(i.dependency_patterns(p), vec![Pattern(IdOrVar::Var(0), IdOrVar::Id(Id(20)), IdOrVar::Id(Id(10)))]);
    let c = Canonical::GivenSubject(Id(1), GivenSubject::AnyPredicate(GivenSubjectAnyPredicate::AnyObject));
    assert_eq!(
        i.dependency_canonical_patterns(c),
        vec![Canonical::GivenSubject(Id(10), GivenSubject::AnyPredicate(GivenSubjectAnyPredicate::AnyObject))]
    );
}

#[test]
fn div_ceil_rounds_up() {
    assert_eq!(DivCeil::div_ceil(7u32, 2), 4);
    assert_eq!(DivCeil::div_ceil(8u32, 2), 4);
    assert_eq!(DivCeil::div_ceil(0u32, 3), 0);
}

/// Hands out resources 200, 201, ... and fails on the local resource 9.
struct Fallible(u32);

impl TryResourceGenerator for Fallible {
    type Error = Id;

    fn try_new_resource(&mut self, local_id: Id) -> Result<Id, Id> {
        if local_id == Id(9) {
            Err(local_id)
        } else {
            self.0 += 1;
            Ok(Id(199 + self.0))
        }
    }
}

#[test]
fn sub_module_try_into_global() {
    let mut i = Interface::new();
    let mut g = Fallible(0);
    i.set_global_id(Id(1), Id(10));
    assert_eq!(i.try_id_into_global(Id(1), &mut g), Ok(Id(10)));
    assert_eq!(i.try_triple_into_global(Triple(Id(1), Id(2), Id(2)), &mut g), Ok(Triple(Id(10), Id(200), Id(200))));
    assert_eq!(i.try_triple_into_global(Triple(Id(3), Id(9), Id(4)), &mut g), Err(Id(9)));
    assert_eq!(i.global_id(Id(3)), Some(Id(201)));
    assert_eq!(i.global_id(Id(9)), None);
    assert_eq!(i.global_id(Id(4)), None);
    assert_eq!(
        i.try_quad_into_global(Quad(Id(1), Id(2), Id(3), Some(Id(5))), &mut g),
        Ok(Quad(Id(10), Id(200), Id(201), Some(Id(202))))
    );
    assert_eq!(i.try_quad_into_global(Quad(Id(1), Id(2), Id(3), Some(Id(9))), &mut g), Err(Id(9)));
}

#[test]
fn dependency_triples_in_lexicographic_order() {
    let mut i = DependencyInterface::new();
    i.bind(Id(1), Id(10));
    i.bind(Id(2), Id(20));
    i.bind(Id(3), Id(30));
    i.bind(Id(1), Id(11));
    assert_eq!(i.dependency_triples(Triple(Id(1), Id(2), Id(3))), vec![Triple(Id(11), Id(20), Id(30))]);
    assert_eq!(i.dependency_triples(Triple(Id(3), Id(3), Id(2))), vec![Triple(Id(30), Id(30), Id(20))]);
    assert!(i.dependency_triples(Triple(Id(4), Id(2), Id(3))).is_empty());
}

#[test]
fn wrapping_iterator_yields_items_then_nothing() {
    let mut it = IdOrVar::Id(vec![Id(4), Id(5)]).into_wrapping_iter();
    assert_eq!(it.next(), Some(IdOrVar::Id(Id(4))));
    assert_eq!(it.next(), Some(IdOrVar::Id(Id(5))));
    assert_eq!(it.next(), None);
    assert_eq!(it.next(), None);
    let mut v: IdOrVarIter<Vec<Id>> = IdOrVar::Var(3).into_wrapping_iter();
    assert_eq!(v.next(), Some(IdOrVar::Var(3)));
    assert_eq!(v.next(), None);
    let all = IdOrVar::Id(vec![Id(1), Id(2), Id(3)]).into_wrapping_iter().into_vec();
    assert_eq!(all, vec![IdOrVar::Id(Id(1)), IdOrVar::Id(Id(2)), IdOrVar::Id(Id(3))]);
}

#[test]
fn white_space_agrees_with_char_is_whitespace() {
    for n in 0..0x3100u32 {
        if let Some(c) = char::from_u32(n) {
            assert_eq!(is_iri_ref_successor(Some(c)), c.is_whitespace(), "code point {n:#x}");
        }
    }
}
