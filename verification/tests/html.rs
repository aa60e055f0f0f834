use inferdf::id::Id;
use inferdf::inference::formula::{Conclusion, ForAll, Formula, FormulaRule, Variable};
use inferdf::inference::rule::{Hypothesis, StatementPattern};
use inferdf::pattern::{IdOrVar, Pattern};
use inferdf::rdfs::html::{render_formula, render_rule};
use inferdf::rdfs::render::Context;
use inferdf::rdfs::IriBuf;
use inferdf::semantics::MaybeTrusted;
use inferdf::sign::{Sign, Signed};
use std::collections::HashMap;

fn sample() -> Formula {
    Formula::ForAll(ForAll {
        variables: vec![Variable { index: 0, name: Some("x".to_string()) }],
        constraints: Hypothesis {
            patterns: vec![Signed(Sign::Positive, Pattern(IdOrVar::Var(0), IdOrVar::Id(Id(0)), IdOrVar::Var(12)))],
        },
        inner: Box::new(Formula::Conclusion(Conclusion {
            variables: vec![Variable { index: 1, name: None }],
            statements: vec![MaybeTrusted::Untrusted(Signed(Sign::Negative, StatementPattern::Eq(IdOrVar::Var(1), IdOrVar::Id(Id(1)))))],
        })),
    })
}

fn sample_html() -> String {
    [
    "<div class=\"rdfs-binding rdfs-forall\">",
    "<div class=\"rdfs-vars\"><span class=\"rdfs-quantifer\">∀</span><ul>",
    "<li><span class=\"rdfs-var\">x</span></li>",
    "</ul></div>",
    "<ul class=\"rdfs-statements\"><li>",
    "<span class=\"rdfs-sign rdfs-positive\"></span>",
    "<span class=\"rdfs-var\">x</span><b>P</b><span class=\"rdfs-var\">x12</span>",
    "</li></ul></div>",
    "<div class=\"rdfs-conclusion\">",
    "<div class=\"rdfs-vars\"><span class=\"rdfs-quantifer\">∃</span><ul>",
    "<li><span class=\"rdfs-var\">x1</span></li>",
    "</ul></div>",
    "<ul class=\"rdfs-statements\"><li>",
    "<span class=\"rdfs-sign rdfs-negative\">¬</span>",
    "<span class=\"rdfs-var\">x1</span><span class=\"rdfs-eq\">=</span><b>Q</b>",
    "</li></ul></div>",
    ]
    .concat()
}

#[test]
fn formula_html_names_variables_as_bound() {
    let ids = vec!["<b>P</b>".to_string(), "<b>Q</b>".to_string()];
    let mut out = String::from("#");
    let mut scope: HashMap<usize, String> = HashMap::new();
    render_formula(&mut out, &ids, &mut scope, &sample());
    assert_eq!(out, format!("#{}", sample_html()));
    assert_eq!(scope.len(), 2);
    assert_eq!(scope.get(&0), Some(&"x".to_string()));
    assert_eq!(scope.get(&1), Some(&"x1".to_string()));
}

#[test]
fn formula_html_uses_names_already_in_scope() {
    let ids = vec!["<b>P</b>".to_string(), "<b>Q</b>".to_string()];
    let mut out = String::new();
    let mut scope: HashMap<usize, String> = HashMap::new();
    scope.insert(12, "y".to_string());
    render_formula(&mut out, &ids, &mut scope, &sample());
    assert!(out.contains("<span class=\"rdfs-var\">y</span>"));
    assert!(!out.contains("x12"));
}

#[test]
fn rule_html_with_relative_identifier() {
    let ids = vec!["<b>P</b>".to_string(), "<b>Q</b>".to_string()];
    let mut context = Context::new();
    context.set_base_iri(Some(IriBuf::new("http://a/".to_string()).ok().unwrap()));
    let rule = FormulaRule { id: Id(5), formula: sample() };
    let iri = IriBuf::new("http://a/r".to_string()).ok().unwrap();
    let mut out = String::new();
    render_rule(&mut out, &ids, &context, &iri, &rule);
    assert_eq!(
        out,
        format!(
            "<div class=\"rdfs-rule\"><span class=\"rdfs-rule-id\">r<a class=\"rdfs-anchor\" href=\"r\">§</a></span><div class=\"rdfs-formula\">{}</div></div>",
            sample_html()
        )
    );
}
