use inferdf::dataset::standard::Standard;
use inferdf::inference::rule::{Conclusion, Hypothesis, Rule, StatementPattern};
use inferdf::inference::system::{rule_equal, search, System};
use inferdf::inference::Path;
use inferdf::module::sub_module::ResourceGenerator;
use inferdf::pattern::{IdOrVar, Pattern, PatternSubstitution};
use inferdf::semantics::{MaybeTrusted, TripleStatement};
use inferdf::{Cause, Id, Meta, Quad, Sign, Signed, Triple};

struct Fresh(u32);

impl ResourceGenerator for Fresh {
    fn new_resource(&mut self) -> Id {
        self.0 += 1;
        Id(1000 + self.0)
    }
}

fn var(x: usize) -> IdOrVar {
    IdOrVar::Var(x)
}

fn id(x: u32) -> IdOrVar {
    IdOrVar::Id(Id(x))
}

/// `?x 10 ?y, ?y 10 ?z => ?x 10 ?z` (transitivity of property 10).
fn transitivity() -> Rule {
    Rule {
        id: Id(99),
        hypothesis: Hypothesis {
            patterns: vec![
                Signed(Sign::Positive, Pattern(var(0), id(10), var(1))),
                Signed(Sign::Positive, Pattern(var(1), id(10), var(2))),
            ],
        },
        conclusion: Conclusion {
            statements: vec![MaybeTrusted::Trusted(Signed(Sign::Positive, StatementPattern::Triple(Pattern(var(0), id(10), var(2)))))],
        },
    }
}

fn fact(s: u32, p: u32, o: u32) -> Meta<Signed<Quad>, Cause> {
    Meta(Signed(Sign::Positive, Quad(Id(s), Id(p), Id(o), None)), Cause::Stated(0))
}

#[test]
fn rules_are_inserted_once() {
    let mut system = System::new();
    assert!(system.is_empty());
    let i = system.insert(transitivity());
    let j = system.insert(transitivity());
    assert_eq!(i, j);
    assert_eq!(system.len(), 1);
    assert!(rule_equal(system.get(i).unwrap(), &transitivity()));
    assert!(system.get(1).is_none());
}

#[test]
fn paths_of_a_triple() {
    let mut system = System::new();
    system.insert(transitivity());
    let mut paths = system.paths_of(Signed(Sign::Positive, Triple(Id(1), Id(10), Id(2))));
    paths.sort();
    assert_eq!(paths, vec![Path::new(0, 0), Path::new(0, 1)]);
    assert!(system.paths_of(Signed(Sign::Negative, Triple(Id(1), Id(10), Id(2)))).is_empty());
    assert!(system.paths_of(Signed(Sign::Positive, Triple(Id(1), Id(11), Id(2)))).is_empty());
}

#[test]
fn search_joins_candidates() {
    let patterns = vec![Pattern(var(0), id(10), var(1)), Pattern(var(1), id(10), var(2))];
    let candidates = vec![
        vec![Triple(Id(1), Id(10), Id(2)), Triple(Id(3), Id(10), Id(4))],
        vec![Triple(Id(2), Id(10), Id(5)), Triple(Id(4), Id(10), Id(6)), Triple(Id(7), Id(10), Id(8))],
    ];
    let found = search(&PatternSubstitution::new(), &patterns, &candidates, 0);
    let views: Vec<Vec<Option<Id>>> = found.iter().map(|s| s.to_vec()).collect();
    assert_eq!(
        views,
        vec![vec![Some(Id(1)), Some(Id(2)), Some(Id(5))], vec![Some(Id(3)), Some(Id(4)), Some(Id(6))]]
    );
}

#[test]
fn deduce_transitive_triple() {
    let mut system = System::new();
    system.insert(transitivity());
    let mut dataset = Standard::new();
    dataset.insert(fact(1, 10, 2)).ok().unwrap();
    dataset.insert(fact(2, 10, 3)).ok().unwrap();
    let mut fresh = Fresh(0);
    let deductions = system.deduce(&dataset, Signed(Sign::Positive, Triple(Id(2), Id(10), Id(3))), &mut fresh);
    assert_eq!(deductions.len(), 1);
    let (entailment, statements) = &deductions[0];
    assert_eq!(entailment.rule, Id(99));
    assert_eq!(entailment.substitution, vec![Id(1), Id(2), Id(3)]);
    assert_eq!(statements, &vec![MaybeTrusted::Trusted(Signed(Sign::Positive, TripleStatement::Triple(Triple(Id(1), Id(10), Id(3)))))]);
    assert_eq!(fresh.0, 0);
}

#[test]
fn deduce_from_one_path() {
    let mut system = System::new();
    system.insert(transitivity());
    let mut dataset = Standard::new();
    dataset.insert(fact(1, 10, 2)).ok().unwrap();
    dataset.insert(fact(2, 10, 3)).ok().unwrap();
    dataset.insert(fact(2, 10, 4)).ok().unwrap();
    let mut fresh = Fresh(0);
    let deductions = system.deduce_from(&dataset, Signed(Sign::Positive, Triple(Id(1), Id(10), Id(2))), Path::new(0, 0), &mut fresh);
    let mut objects: Vec<Id> = deductions
        .iter()
        .map(|(_, s)| match s[0].value().1 {
            TripleStatement::Triple(t) => t.2,
            TripleStatement::Eq(_, b) => b,
        })
        .collect();
    objects.sort();
    assert_eq!(objects, vec![Id(3), Id(4)]);
}

#[test]
fn conclusion_variables_get_new_resources() {
    let rule = Rule {
        id: Id(50),
        hypothesis: Hypothesis { patterns: vec![Signed(Sign::Positive, Pattern(var(0), id(20), var(1)))] },
        conclusion: Conclusion {
            statements: vec![
                MaybeTrusted::Trusted(Signed(Sign::Positive, StatementPattern::Triple(Pattern(var(0), id(21), var(2))))),
                MaybeTrusted::Untrusted(Signed(Sign::Negative, StatementPattern::Eq(var(2), var(1)))),
            ],
        },
    };
    let mut system = System::new();
    system.insert(rule);
    let dataset = Standard::new();
    let mut fresh = Fresh(0);
    let deductions = system.deduce(&dataset, Signed(Sign::Positive, Triple(Id(5), Id(20), Id(6))), &mut fresh);
    assert_eq!(deductions.len(), 1);
    let (entailment, statements) = &deductions[0];
    assert_eq!(entailment.substitution, vec![Id(5), Id(6), Id(1001)]);
    assert_eq!(
        statements,
        &vec![
            MaybeTrusted::Trusted(Signed(Sign::Positive, TripleStatement::Triple(Triple(Id(5), Id(21), Id(1001))))),
            MaybeTrusted::Untrusted(Signed(Sign::Negative, TripleStatement::Eq(Id(1001), Id(6)))),
        ]
    );
}

#[test]
fn statement_instantiation_keeps_bindings() {
    let mut s = PatternSubstitution::new();
    s.bind(0, Id(7));
    let mut fresh = Fresh(0);
    let st = StatementPattern::Eq(var(0), var(3)).instantiate(&mut s, &mut fresh);
    assert_eq!(st, TripleStatement::Eq(Id(7), Id(1001)));
    assert_eq!(s.get(3), Some(Id(1001)));
    let again = StatementPattern::Triple(Pattern(var(3), id(1), var(0))).instantiate(&mut s, &mut fresh);
    assert_eq!(again, TripleStatement::Triple(Triple(Id(1001), Id(1), Id(7))));
    assert_eq!(fresh.0, 1);
}

#[test]
fn fresh_variables_follow_first_occurrence() {
    let conclusion = Conclusion {
        statements: vec![
            MaybeTrusted::Trusted(Signed(Sign::Positive, StatementPattern::Triple(Pattern(var(3), var(0), var(5))))),
            MaybeTrusted::Untrusted(Signed(Sign::Negative, StatementPattern::Eq(var(5), var(4)))),
        ],
    };
    let mut s = PatternSubstitution::new();
    s.bind(0, Id(7));
    assert_eq!(conclusion.fresh_variables(&s), vec![3, 5, 4]);
    let statements = conclusion.instantiate_with(&mut s, &vec![Id(30), Id(50), Id(40)]);
    assert_eq!(
        statements,
        vec![
            MaybeTrusted::Trusted(Signed(Sign::Positive, TripleStatement::Triple(Triple(Id(30), Id(7), Id(50))))),
            MaybeTrusted::Untrusted(Signed(Sign::Negative, TripleStatement::Eq(Id(50), Id(40)))),
        ]
    );
    assert_eq!((s.get(3), s.get(4), s.get(5)), (Some(Id(30)), Some(Id(40)), Some(Id(50))));
}

#[test]
fn rule_deduction_uses_the_given_resources() {
    let rule = Rule {
        id: Id(50),
        hypothesis: Hypothesis { patterns: vec![Signed(Sign::Positive, Pattern(var(0), id(20), var(1)))] },
        conclusion: Conclusion {
            statements: vec![MaybeTrusted::Trusted(Signed(Sign::Positive, StatementPattern::Triple(Pattern(var(0), id(21), var(2)))))],
        },
    };
    let mut s = PatternSubstitution::new();
    s.bind(0, Id(5));
    s.bind(1, Id(6));
    let (entailment, statements) = rule.deduce_with(s, &vec![Id(77)]);
    assert_eq!(entailment.rule, Id(50));
    assert_eq!(entailment.substitution, vec![Id(5), Id(6), Id(77)]);
    assert_eq!(statements, vec![MaybeTrusted::Trusted(Signed(Sign::Positive, TripleStatement::Triple(Triple(Id(5), Id(21), Id(77)))))]);
}
