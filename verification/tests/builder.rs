use inferdf::inference::builder::{Builder, Contradiction, PendingStatement};
use inferdf::inference::formula::{Formula, FormulaRule, Variable};
use inferdf::inference::rule::{Conclusion, Hypothesis, Rule, StatementPattern};
use inferdf::inference::system::System;
use inferdf::interpretation::local::Interpretation;
use inferdf::module::sub_module::ResourceGenerator;
use inferdf::pattern::{IdOrVar, Pattern};
use inferdf::semantics::{MaybeTrusted, QuadStatement, TripleStatement};
use inferdf::uninterpreted::Term;
use inferdf::{Cause, Id, Meta, Quad, Sign, Signed, Triple};

struct Fresh(u32);

impl ResourceGenerator for Fresh {
    fn new_resource(&mut self) -> Id {
        self.0 += 1;
        Id(1000 + self.0)
    }
}

fn var(x: usize) -> IdOrVar {
    IdOrVar::Var(x)
}

fn id(x: u32) -> IdOrVar {
    IdOrVar::Id(Id(x))
}

/// `?x 10 ?y, ?y 10 ?z => ?x 10 ?z`.
fn transitivity() -> Rule {
    Rule {
        id: Id(99),
        hypothesis: Hypothesis {
            patterns: vec![
                Signed(Sign::Positive, Pattern(var(0), id(10), var(1))),
                Signed(Sign::Positive, Pattern(var(1), id(10), var(2))),
            ],
        },
        conclusion: Conclusion {
            statements: vec![MaybeTrusted::Trusted(Signed(Sign::Positive, StatementPattern::Triple(Pattern(var(0), id(10), var(2)))))],
        },
    }
}

/// `?x 20 ?y => ?y 22 ?x`, to be checked.
fn converse_to_check() -> Rule {
    Rule {
        id: Id(77),
        hypothesis: Hypothesis { patterns: vec![Signed(Sign::Positive, Pattern(var(0), id(20), var(1)))] },
        conclusion: Conclusion {
            statements: vec![MaybeTrusted::Untrusted(Signed(Sign::Positive, StatementPattern::Triple(Pattern(var(1), id(22), var(0)))))],
        },
    }
}

fn quad(sign: Sign, s: u32, p: u32, o: u32) -> PendingStatement {
    Meta(Signed(sign, QuadStatement::Quad(Quad(Id(s), Id(p), Id(o), None))), Cause::Stated(0))
}

fn eq(sign: Sign, a: u32, b: u32) -> PendingStatement {
    Meta(Signed(sign, QuadStatement::Eq(Id(a), Id(b), None)), Cause::Stated(0))
}

fn builder_with(rules: Vec<Rule>, terms: u32) -> Builder {
    let mut system = System::new();
    for rule in rules {
        system.insert(rule);
    }
    let mut interpretation = Interpretation::new();
    for i in 0..terms {
        interpretation.insert_term(Term::Iri(i));
    }
    Builder::new(interpretation, system)
}

/// Inserts the statement and everything pushed after it.
fn saturate(builder: &mut Builder, statement: PendingStatement, fresh: &mut Fresh) -> Result<(), Contradiction> {
    let mut stack = vec![statement];
    while let Some(s) = stack.pop() {
        assert!(builder.can_insert(s.0));
        builder.insert_deduced_statement(&mut stack, s, fresh)?;
    }
    Ok(())
}

#[test]
fn trusted_deductions_are_pushed() {
    let mut builder = builder_with(vec![transitivity()], 0);
    let mut fresh = Fresh(0);
    let mut stack = Vec::new();
    builder.insert_deduced_statement(&mut stack, quad(Sign::Positive, 1, 10, 2), &mut fresh).ok().unwrap();
    assert!(stack.is_empty());
    builder.insert_deduced_statement(&mut stack, quad(Sign::Positive, 2, 10, 3), &mut fresh).ok().unwrap();
    assert_eq!(stack, vec![Meta(Signed(Sign::Positive, QuadStatement::Quad(Quad(Id(1), Id(10), Id(3), None))), Cause::Entailed(0))]);
    let e = builder.entailment(0).unwrap();
    assert_eq!(e.rule, Id(99));
    assert_eq!(e.substitution, vec![Id(1), Id(2), Id(3)]);
    assert!(builder.entailment(1).is_none());
    assert!(builder.to_check.is_empty());
}

#[test]
fn saturation_closes_under_transitivity() {
    let mut builder = builder_with(vec![transitivity()], 0);
    let mut fresh = Fresh(0);
    saturate(&mut builder, quad(Sign::Positive, 1, 10, 2), &mut fresh).ok().unwrap();
    saturate(&mut builder, quad(Sign::Positive, 2, 10, 3), &mut fresh).ok().unwrap();
    saturate(&mut builder, quad(Sign::Positive, 3, 10, 4), &mut fresh).ok().unwrap();
    for (s, o) in [(1, 3), (2, 4), (1, 4)] {
        assert!(builder.dataset.contains_triple(Triple(Id(s), Id(10), Id(o)), Sign::Positive));
    }
    assert!(!builder.dataset.contains_triple(Triple(Id(4), Id(10), Id(1)), Sign::Positive));
}

#[test]
fn inserting_a_fact_twice_changes_nothing() {
    let mut builder = builder_with(vec![transitivity()], 0);
    let mut fresh = Fresh(0);
    let mut stack = Vec::new();
    builder.insert_deduced_statement(&mut stack, quad(Sign::Positive, 1, 10, 2), &mut fresh).ok().unwrap();
    builder.insert_deduced_statement(&mut stack, quad(Sign::Positive, 2, 10, 3), &mut fresh).ok().unwrap();
    let before = stack.clone();
    builder.insert_deduced_statement(&mut stack, quad(Sign::Positive, 2, 10, 3), &mut fresh).ok().unwrap();
    assert_eq!(stack, before);
    assert!(builder.entailment(1).is_none());
}

#[test]
fn asserting_and_denying_a_triple_is_a_contradiction() {
    let mut builder = builder_with(vec![], 0);
    let mut fresh = Fresh(0);
    let mut stack = Vec::new();
    builder.insert_deduced_statement(&mut stack, quad(Sign::Positive, 1, 2, 3), &mut fresh).ok().unwrap();
    match builder.insert_deduced_statement(&mut stack, quad(Sign::Negative, 1, 2, 3), &mut fresh) {
        Err(Contradiction::Data(c)) => assert_eq!(c.0, Triple(Id(1), Id(2), Id(3))),
        _ => panic!("expected a data contradiction"),
    }
}

#[test]
fn untrusted_deductions_are_checked() {
    let mut builder = builder_with(vec![converse_to_check()], 0);
    let mut fresh = Fresh(0);
    let mut stack = Vec::new();
    builder.insert_deduced_statement(&mut stack, quad(Sign::Positive, 5, 20, 6), &mut fresh).ok().unwrap();
    assert!(stack.is_empty());
    assert_eq!(builder.to_check, vec![(Signed(Sign::Positive, TripleStatement::Triple(Triple(Id(6), Id(22), Id(5)))), 0)]);
    let missing = builder.check().err().unwrap();
    assert_eq!(missing.0, Signed(Sign::Positive, TripleStatement::Triple(Triple(Id(6), Id(22), Id(5)))));
    assert_eq!(missing.1, 0);
    assert!(builder.to_check.is_empty());

    builder.insert_deduced_statement(&mut stack, quad(Sign::Positive, 7, 20, 8), &mut fresh).ok().unwrap();
    builder.insert_deduced_statement(&mut stack, quad(Sign::Positive, 8, 22, 7), &mut fresh).ok().unwrap();
    assert_eq!(builder.to_check.len(), 1);
    assert!(builder.check().is_ok());
    assert!(builder.to_check.is_empty());
}

#[test]
fn equality_merges_resources() {
    let mut builder = builder_with(vec![], 2);
    let mut fresh = Fresh(0);
    let mut stack = vec![quad(Sign::Positive, 0, 7, 1)];
    builder.insert_deduced_statement(&mut Vec::new(), quad(Sign::Positive, 0, 7, 8), &mut fresh).ok().unwrap();
    assert!(builder.can_insert(eq(Sign::Positive, 1, 0).0));
    assert!(!builder.can_insert(eq(Sign::Positive, 1, 5).0));
    builder.insert_deduced_statement(&mut stack, eq(Sign::Positive, 1, 0), &mut fresh).ok().unwrap();
    assert_eq!(builder.interpretation.term_interpretation(Term::Iri(1)), Some(Id(0)));
    assert!(builder.interpretation.get(Id(1)).is_none());
    // In the dataset and the pending statements, the kept resource is
    // replaced with the removed one.
    assert!(builder.dataset.contains_triple(Triple(Id(1), Id(7), Id(8)), Sign::Positive));
    assert!(!builder.dataset.contains_triple(Triple(Id(0), Id(7), Id(8)), Sign::Positive));
    assert_eq!(stack, vec![quad(Sign::Positive, 1, 7, 1)]);
}

#[test]
fn difference_then_equality_is_a_contradiction() {
    let mut builder = builder_with(vec![], 2);
    let mut fresh = Fresh(0);
    let mut stack = Vec::new();
    match builder.insert_deduced_statement(&mut stack, eq(Sign::Negative, 1, 1), &mut fresh) {
        Err(Contradiction::Interpretation(c)) => assert_eq!((c.0, c.1), (Id(1), Id(1))),
        _ => panic!("a resource cannot differ from itself"),
    }
    builder.insert_deduced_statement(&mut stack, eq(Sign::Negative, 0, 1), &mut fresh).ok().unwrap();
    match builder.insert_deduced_statement(&mut stack, eq(Sign::Positive, 1, 0), &mut fresh) {
        Err(Contradiction::Interpretation(c)) => assert_eq!((c.0, c.1), (Id(0), Id(1))),
        _ => panic!("expected an interpretation contradiction"),
    }
}

#[test]
fn closing_pushes_what_rules_without_hypothesis_deduce() {
    let mut builder = builder_with(vec![], 0);
    let mut fresh = Fresh(0);
    let mut stack = Vec::new();
    let rules = vec![FormulaRule {
        id: Id(77),
        formula: Formula::Conclusion(inferdf::inference::formula::Conclusion {
            variables: vec![Variable { index: 0, name: None }],
            statements: vec![
                MaybeTrusted::Trusted(Signed(Sign::Positive, StatementPattern::Triple(Pattern(var(0), id(10), id(4))))),
                MaybeTrusted::Untrusted(Signed(Sign::Negative, StatementPattern::Triple(Pattern(id(4), id(10), var(0))))),
            ],
        }),
    }];
    builder.close_further(&mut stack, &rules, &vec![], &mut fresh);
    let n = fresh.0;
    assert_eq!(n, 1);
    let made = Id(1001);
    assert_eq!(stack, vec![Meta(Signed(Sign::Positive, QuadStatement::Quad(Quad(made, Id(10), Id(4), None))), Cause::Entailed(0))]);
    assert_eq!(builder.to_check, vec![(Signed(Sign::Negative, TripleStatement::Triple(Triple(Id(4), Id(10), made))), 0)]);
    assert_eq!(builder.entailment(0).unwrap().rule, Id(77));
    assert!(builder.entailment(1).is_none());
}
