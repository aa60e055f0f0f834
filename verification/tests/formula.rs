use inferdf::dataset::standard::Standard;
use inferdf::inference::formula::{deduce_from_conclusion_with, Conclusion, Exists, ForAll, Formula, FormulaRule, Variable};
use inferdf::inference::rule::{Hypothesis, StatementPattern};
use inferdf::inference::system::System;
use inferdf::module::sub_module::ResourceGenerator;
use inferdf::pattern::{IdOrVar, Pattern, PatternSubstitution};
use inferdf::semantics::{MaybeTrusted, TripleStatement};
use inferdf::{Cause, Id, Meta, Quad, Sign, Signed, Triple};

struct Fresh(u32);

impl ResourceGenerator for Fresh {
    fn new_resource(&mut self) -> Id {
        self.0 += 1;
        Id(1000 + self.0)
    }
}

fn var(x: usize) -> IdOrVar {
    IdOrVar::Var(x)
}

fn id(x: u32) -> IdOrVar {
    IdOrVar::Id(Id(x))
}

fn variable(index: usize) -> Variable {
    Variable { index, name: None }
}

fn dataset() -> Standard {
    let mut d = Standard::new();
    for (s, o) in [(1, 2), (2, 3)] {
        d.insert(Meta(Signed(Sign::Positive, Quad(Id(s), Id(10), Id(o), None)), Cause::Stated(0))).ok().unwrap();
    }
    d
}

fn hypothesis() -> Hypothesis {
    Hypothesis { patterns: vec![Signed(Sign::Positive, Pattern(var(0), id(10), var(1)))] }
}

fn triple(s: u32, p: u32, o: u32) -> Signed<TripleStatement> {
    Signed(Sign::Positive, TripleStatement::Triple(Triple(Id(s), Id(p), Id(o))))
}

#[test]
fn find_substitutions_extends_unbound_variables_over_resources() {
    let system = System::new();
    let variables = vec![variable(0), variable(1), variable(2)];
    let found = system.find_substitutions(&dataset(), &vec![Id(7), Id(8)], &variables, &hypothesis(), PatternSubstitution::new());
    let mut views: Vec<Vec<Option<Id>>> = found.iter().map(|s| s.to_vec()).collect();
    views.sort();
    assert_eq!(
        views,
        vec![
            vec![Some(Id(1)), Some(Id(2)), Some(Id(7))],
            vec![Some(Id(1)), Some(Id(2)), Some(Id(8))],
            vec![Some(Id(2)), Some(Id(3)), Some(Id(7))],
            vec![Some(Id(2)), Some(Id(3)), Some(Id(8))],
        ]
    );
    let mut s = PatternSubstitution::new();
    s.bind(0, Id(2));
    let found = system.find_substitutions(&dataset(), &vec![], &vec![variable(0), variable(1)], &hypothesis(), s);
    let views: Vec<Vec<Option<Id>>> = found.iter().map(|s| s.to_vec()).collect();
    assert_eq!(views, vec![vec![Some(Id(2)), Some(Id(3))]]);
}

#[test]
fn exists_deduces_once_per_substitution() {
    let f = Formula::Exists(Exists {
        variables: vec![variable(0), variable(1)],
        hypothesis: hypothesis(),
        inner: Box::new(Formula::Conclusion(Conclusion {
            variables: vec![],
            statements: vec![MaybeTrusted::Trusted(Signed(Sign::Positive, StatementPattern::Triple(Pattern(var(1), id(11), var(0)))))],
        })),
    });
    let mut fresh = Fresh(0);
    let r = System::new().deduce_from_formula(&dataset(), &vec![], Id(99), &f, PatternSubstitution::new(), &mut fresh);
    let mut statements: Vec<Signed<TripleStatement>> = r.iter().map(|(e, s)| {
        assert_eq!(e.rule, Id(99));
        assert_eq!(s.len(), 1);
        *s[0].value()
    }).collect();
    statements.sort();
    assert_eq!(statements, vec![triple(2, 11, 1), triple(3, 11, 2)]);
}

#[test]
fn forall_gathers_the_inner_statements() {
    let f = Formula::ForAll(ForAll {
        variables: vec![variable(0), variable(1)],
        constraints: hypothesis(),
        inner: Box::new(Formula::Conclusion(Conclusion {
            variables: vec![variable(2)],
            statements: vec![
                MaybeTrusted::Untrusted(Signed(Sign::Positive, StatementPattern::Triple(Pattern(var(0), id(12), var(2))))),
                MaybeTrusted::Trusted(Signed(Sign::Positive, StatementPattern::Triple(Pattern(var(0), id(13), var(5))))),
            ],
        })),
    });
    let mut fresh = Fresh(0);
    let r = System::new().deduce_from_formula(&dataset(), &vec![], Id(98), &f, PatternSubstitution::new(), &mut fresh);
    assert_eq!(r.len(), 1);
    assert_eq!(r[0].0.rule, Id(98));
    assert!(r[0].0.substitution.is_empty());
    let mut statements = r[0].1.clone();
    statements.sort();
    assert_eq!(statements.len(), 2);
    let subjects: Vec<Id> = {
        let mut v: Vec<Id> = statements
            .iter()
            .map(|s| match s {
                MaybeTrusted::Untrusted(s) => s,
                MaybeTrusted::Trusted(_) => panic!("the statement is untrusted"),
            })
            .map(|s| match s.1 {
                TripleStatement::Triple(t) => {
                    assert_eq!(t.1, Id(12));
                    assert!(t.2 == Id(1001) || t.2 == Id(1002));
                    t.0
                },
                TripleStatement::Eq(a, _) => a,
            })
            .collect();
        v.sort();
        v
    };
    assert_eq!(subjects, vec![Id(1), Id(2)]);
    assert_eq!(fresh.0, 2);
}

#[test]
fn forall_deduces_nothing_when_an_inner_formula_does_not_hold() {
    let f = Formula::ForAll(ForAll {
        variables: vec![variable(0), variable(1)],
        constraints: hypothesis(),
        inner: Box::new(Formula::Exists(Exists {
            variables: vec![],
            hypothesis: Hypothesis { patterns: vec![Signed(Sign::Positive, Pattern(var(1), id(10), id(3)))] },
            inner: Box::new(Formula::Conclusion(Conclusion { variables: vec![], statements: vec![] })),
        })),
    });
    let mut fresh = Fresh(0);
    let r = System::new().deduce_from_formula(&dataset(), &vec![], Id(97), &f, PatternSubstitution::new(), &mut fresh);
    assert!(r.is_empty());
}

#[test]
fn forall_without_instances_deduces_an_empty_conclusion() {
    let f = Formula::ForAll(ForAll {
        variables: vec![variable(0)],
        constraints: Hypothesis { patterns: vec![Signed(Sign::Positive, Pattern(var(0), id(40), id(41)))] },
        inner: Box::new(Formula::Conclusion(Conclusion { variables: vec![], statements: vec![] })),
    });
    let mut fresh = Fresh(0);
    let mut s = PatternSubstitution::new();
    s.bind(0, Id(4));
    let r = System::new().deduce_from_formula(&dataset(), &vec![], Id(96), &f, s, &mut fresh);
    assert_eq!(r.len(), 1);
    assert_eq!(r[0].0.substitution, vec![Id(4)]);
    assert!(r[0].1.is_empty());
}

#[test]
fn conclusion_variables_take_the_given_resources_in_order() {
    let conclusion = Conclusion {
        variables: vec![variable(2), variable(0), variable(3)],
        statements: vec![
            MaybeTrusted::Trusted(Signed(Sign::Positive, StatementPattern::Triple(Pattern(var(0), id(11), var(2))))),
            MaybeTrusted::Untrusted(Signed(Sign::Negative, StatementPattern::Eq(var(3), var(1)))),
            MaybeTrusted::Trusted(Signed(Sign::Positive, StatementPattern::Triple(Pattern(var(4), id(11), var(2))))),
        ],
    };
    let mut s = PatternSubstitution::new();
    s.bind(0, Id(7));
    let (entailment, statements) = deduce_from_conclusion_with(Id(99), &conclusion, s, &vec![Id(50), Id(51), Id(52)]);
    assert_eq!(entailment.rule, Id(99));
    assert_eq!(entailment.substitution, vec![Id(7)]);
    // Variable 0 was bound and keeps its resource; 2 and 3 get 50 and 52;
    // the statement mentioning unbound variable 1, and the one mentioning 4,
    // are left out.
    assert_eq!(statements, vec![MaybeTrusted::Trusted(Signed(Sign::Positive, TripleStatement::Triple(Triple(Id(7), Id(11), Id(50)))))]);
}

fn universal_rules() -> Vec<FormulaRule> {
    vec![
        FormulaRule {
            id: Id(90),
            formula: Formula::Exists(Exists {
                variables: vec![variable(0), variable(1)],
                hypothesis: hypothesis(),
                inner: Box::new(Formula::Conclusion(Conclusion {
                    variables: vec![],
                    statements: vec![MaybeTrusted::Trusted(Signed(Sign::Positive, StatementPattern::Triple(Pattern(var(1), id(11), var(0)))))],
                })),
            }),
        },
        FormulaRule {
            id: Id(91),
            formula: Formula::Conclusion(Conclusion {
                variables: vec![variable(0)],
                statements: vec![MaybeTrusted::Trusted(Signed(Sign::Positive, StatementPattern::Triple(Pattern(var(0), id(14), id(5)))))],
            }),
        },
        FormulaRule {
            id: Id(92),
            formula: Formula::ForAll(ForAll {
                variables: vec![variable(0), variable(1)],
                constraints: hypothesis(),
                inner: Box::new(Formula::Conclusion(Conclusion {
                    variables: vec![],
                    statements: vec![MaybeTrusted::Untrusted(Signed(Sign::Positive, StatementPattern::Triple(Pattern(var(0), id(15), var(1)))))],
                })),
            }),
        },
    ]
}

#[test]
fn only_existential_formulas_are_existential() {
    let rules = universal_rules();
    let kinds: Vec<bool> = rules.iter().map(|r| r.is_existential()).collect();
    assert_eq!(kinds, vec![true, false, false]);
}

#[test]
fn universal_rules_deduce_in_order_and_skip_existential_ones() {
    let mut fresh = Fresh(0);
    let r = System::new().deduce_from_universal_rules(&universal_rules(), &dataset(), &vec![], &mut fresh);
    assert_eq!(r.len(), 2);
    assert_eq!(r[0].0.rule, Id(91));
    let first: Vec<Signed<TripleStatement>> = r[0].1.iter().map(|s| *s.value()).collect();
    assert_eq!(first, vec![triple(1001, 14, 5)]);
    assert_eq!(r[1].0.rule, Id(92));
    let mut second: Vec<Signed<TripleStatement>> = r[1].1.iter().map(|s| *s.value()).collect();
    second.sort();
    assert_eq!(second, vec![triple(1, 15, 2), triple(2, 15, 3)]);
}
