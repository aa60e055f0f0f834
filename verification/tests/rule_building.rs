use inferdf::id::Id;
use inferdf::inference::formula::{Formula, FormulaRule, Variable};
use inferdf::inference::rule::StatementPattern;
use inferdf::pattern::{IdOrVar, Pattern};
use inferdf::rdfs::building::{Context, Error};
use inferdf::rdfs::rule_building::{BuildError, BuildInterpretation, IriInterpretation, NoRoom};
use inferdf::rdfs::{Document, IriBuf, Item, Rule, Span};
use inferdf::semantics::MaybeTrusted;
use inferdf::sign::{Sign, Signed};
use inferdf::Meta;

/// Interprets IRIs in a fresh interpretation, numbering them as first seen.
fn numbering() -> IriInterpretation {
    IriInterpretation::new()
}

/// The resource `iri` is interpreted as (interpreting it if it is new).
fn resource(i: &mut IriInterpretation, iri: &str) -> Id {
    i.interpret_iri(IriBuf::new(iri.to_string()).ok().unwrap()).ok().unwrap()
}

fn rule_of(s: &str) -> Rule {
    let chars: Vec<char> = s.chars().collect();
    let d = Document::parse_chars(&chars).ok().unwrap();
    match d.0.items.into_iter().next().unwrap().0 {
        Item::Rule(r) => r,
        _ => panic!("expected a rule"),
    }
}

fn based() -> Context {
    let mut c = Context::new();
    c.replace_base_iri(Some(IriBuf::new("http://a/".to_string()).ok().unwrap()));
    c
}

fn vars(vs: &[Variable]) -> Vec<(usize, Option<String>)> {
    vs.iter().map(|v| (v.index, v.name.clone())).collect()
}

fn named(i: usize, n: &str) -> (usize, Option<String>) {
    (i, Some(n.to_string()))
}

fn built(r: Result<FormulaRule, Meta<BuildError<NoRoom>, Span>>) -> FormulaRule {
    match r {
        Ok(rule) => rule,
        Err(_) => panic!("expected a rule"),
    }
}

#[test]
fn build_binds_hypothesis_variables_outside_and_others_in_the_conclusion() {
    let rule = rule_of("rule r forall ?x { ?x <p> ?y . } => { ?y <q> ?z . }");
    let mut n = numbering();
    let built = built(rule.build(&mut n, &based()));
    assert_eq!(n.interpretation().len(), 3);
    assert_eq!(resource(&mut n, "http://a/r"), Id(0));
    assert_eq!(resource(&mut n, "http://a/p"), Id(1));
    assert_eq!(resource(&mut n, "http://a/q"), Id(2));
    assert_eq!(built.id, Id(0));
    match built.formula {
        Formula::Exists(e) => {
            assert_eq!(vars(&e.variables), vec![named(1, "y")]);
            assert!(e.hypothesis.patterns.is_empty());
            match *e.inner {
                Formula::ForAll(a) => {
                    assert_eq!(vars(&a.variables), vec![named(0, "x")]);
                    assert_eq!(
                        a.constraints.patterns,
                        vec![Signed(Sign::Positive, Pattern(IdOrVar::Var(0), IdOrVar::Id(Id(1)), IdOrVar::Var(1)))]
                    );
                    match *a.inner {
                        Formula::Conclusion(c) => {
                            assert_eq!(vars(&c.variables), vec![named(2, "z")]);
                            assert_eq!(
                                c.statements,
                                vec![MaybeTrusted::Trusted(Signed(
                                    Sign::Positive,
                                    StatementPattern::Triple(Pattern(
                                        IdOrVar::Var(1),
                                        IdOrVar::Id(Id(2)),
                                        IdOrVar::Var(2)
                                    ))
                                ))]
                            );
                        }
                        _ => panic!("expected the conclusion"),
                    }
                }
                _ => panic!("expected the universal formula"),
            }
        }
        _ => panic!("expected an existential formula"),
    }
}

#[test]
fn build_extends_an_outermost_existential() {
    let rule = rule_of("rule r exists ?a { ?b <p> ?a . } => { ?a = ?b . }");
    let mut n = numbering();
    let built = built(rule.build(&mut n, &based()));
    match built.formula {
        Formula::Exists(e) => {
            assert_eq!(vars(&e.variables), vec![named(1, "a"), named(0, "b")]);
            match *e.inner {
                Formula::Conclusion(c) => {
                    assert!(c.variables.is_empty());
                    assert_eq!(
                        c.statements,
                        vec![MaybeTrusted::Trusted(Signed(Sign::Positive, StatementPattern::Eq(IdOrVar::Var(1), IdOrVar::Var(0))))]
                    );
                }
                _ => panic!("expected the conclusion"),
            }
        }
        _ => panic!("expected an existential formula"),
    }
}

#[test]
fn build_reuses_the_resource_of_a_repeated_iri() {
    let rule = rule_of("rule r forall ?x { ?x <p> <p> . } => { ! ?x <r> <p> ! }");
    let mut n = numbering();
    let built = built(rule.build(&mut n, &based()));
    assert_eq!(n.interpretation().len(), 2);
    match built.formula {
        Formula::ForAll(a) => match *a.inner {
            Formula::Conclusion(c) => {
                assert_eq!(
                    c.statements,
                    vec![MaybeTrusted::Untrusted(Signed(
                        Sign::Negative,
                        StatementPattern::Triple(Pattern(IdOrVar::Var(0), IdOrVar::Id(Id(0)), IdOrVar::Id(Id(1))))
                    ))]
                );
            }
            _ => panic!("expected the conclusion"),
        },
        _ => panic!("expected a universal formula"),
    }
}

#[test]
fn build_without_base_iri_fails_on_the_rule_identifier() {
    let rule = rule_of("rule r forall ?x { ?x <p> ?x . } => { }");
    let mut n = numbering();
    match rule.build(&mut n, &Context::new()) {
        Err(Meta(BuildError::Iri(Error::NoBaseIri), span)) => assert_eq!(span, rule.id.1),
        _ => panic!("expected a resolution error"),
    }
    assert_eq!(n.interpretation().len(), 0);
}

#[test]
fn build_fails_at_the_first_unresolvable_reference() {
    let rule = rule_of("rule <http://a/r> forall ?x { ?x <http://a/p> ?x . ?x <q> ?x . } => { }");
    let mut n = numbering();
    match rule.build(&mut n, &Context::new()) {
        Err(Meta(BuildError::Iri(Error::NoBaseIri), _)) => {}
        _ => panic!("expected a resolution error"),
    }
    assert_eq!(n.interpretation().len(), 2);
    assert_eq!(resource(&mut n, "http://a/p"), Id(1));
}

#[test]
fn iri_interpretation_numbers_iris_and_keeps_their_resources() {
    let rule = rule_of("rule r forall ?x { ?x <p> <p> . } => { ?x <r> <q> . }");
    let mut i = IriInterpretation::new();
    let first = built(rule.build(&mut i, &based()));
    assert_eq!(first.id, Id(0));
    assert_eq!(i.interpretation().len(), 3);
    let again = match rule.build(&mut i, &based()) {
        Ok(r) => r,
        Err(_) => panic!("expected a rule"),
    };
    assert_eq!(again.id, first.id);
    assert_eq!(i.interpretation().len(), 3);
    let r = resource(&mut i, "http://a/q");
    let q = resource(&mut i, "http://a/new");
    assert_eq!(r, Id(2));
    assert_eq!(q, Id(3));
}
