//! HTML rendering of rule formulas: each quantifier with its variables and
//! hypothesis, then the conclusion with its statements.
use vstd::prelude::*;
use vstd::string::StringExecFns;

use std::collections::HashMap;

use crate::id::Id;
use crate::inference::formula::{formula_view, variables_view, Formula, FormulaRule, FormulaView, Variable};
use crate::rdfs::render::Context;
use crate::rdfs::IriBuf;
use crate::rdfs::render::relative_iri_ref;
use crate::inference::rule::StatementPattern;
use crate::pattern::{IdOrVar, Pattern};
use crate::rdfs::parsing::push_char;
use crate::semantics::{spec_value, MaybeTrusted};
use crate::sign::{Sign, Signed};

verus! {

/// The decimal digit `d`.
pub open spec fn digit(d: nat) -> char {
    if d == 0 {
        '0'
    } else if d == 1 {
        '1'
    } else if d == 2 {
        '2'
    } else if d == 3 {
        '3'
    } else if d == 4 {
        '4'
    } else if d == 5 {
        '5'
    } else if d == 6 {
        '6'
    } else if d == 7 {
        '7'
    } else if d == 8 {
        '8'
    } else {
        '9'
    }
}

/// `n` written in decimal.
pub open spec fn decimal(n: nat) -> Seq<char>
    decreases n,
{
    if n < 10 {
        seq![digit(n)]
    } else {
        decimal(n / 10).push(digit(n % 10))
    }
}

/// The name of a variable: the one it is bound to, or `x` and its number.
pub open spec fn var_name(b: Map<usize, Seq<char>>, x: usize) -> Seq<char> {
    if b.contains_key(x) {
        b[x]
    } else {
        "x"@ + decimal(x as nat)
    }
}

/// The name a quantifier gives its variable: its own, or `x` and its
/// number.
pub open spec fn display_name(v: (usize, Option<Seq<char>>)) -> Seq<char> {
    match v.1 {
        Some(n) => n,
        None => "x"@ + decimal(v.0 as nat),
    }
}

pub open spec fn var_html(b: Map<usize, Seq<char>>, x: usize) -> Seq<char> {
    "<span class=\"rdfs-var\">"@ + var_name(b, x) + "</span>"@
}

/// A resource (as `ids` renders it) or a variable.
pub open spec fn term_html(ids: Seq<Seq<char>>, b: Map<usize, Seq<char>>, v: IdOrVar) -> Seq<char> {
    match v {
        IdOrVar::Id(i) => ids[i.0 as int],
        IdOrVar::Var(x) => var_html(b, x),
    }
}

pub open spec fn sign_html(s: Sign) -> Seq<char> {
    match s {
        Sign::Positive => "<span class=\"rdfs-sign rdfs-positive\"></span>"@,
        Sign::Negative => "<span class=\"rdfs-sign rdfs-negative\">¬</span>"@,
    }
}

/// The list items of the variables, and the bindings with each variable
/// named in turn.
pub open spec fn var_items_html(b: Map<usize, Seq<char>>, vs: Seq<(usize, Option<Seq<char>>)>) -> (
    Seq<char>,
    Map<usize, Seq<char>>,
)
    decreases vs.len(),
{
    if vs.len() == 0 {
        (Seq::empty(), b)
    } else {
        let (h, b1) = var_items_html(b, vs.drop_last());
        let n = display_name(vs.last());
        (h + "<li><span class=\"rdfs-var\">"@ + n + "</span></li>"@, b1.insert(vs.last().0, n))
    }
}

/// The variables a quantifier binds, after its symbol; nothing when it
/// binds none.
pub open spec fn variables_html(b: Map<usize, Seq<char>>, symbol: Seq<char>, vs: Seq<(usize, Option<Seq<char>>)>) -> (
    Seq<char>,
    Map<usize, Seq<char>>,
) {
    if vs.len() == 0 {
        (Seq::empty(), b)
    } else {
        let (h, b1) = var_items_html(b, vs);
        (
            "<div class=\"rdfs-vars\"><span class=\"rdfs-quantifer\">"@ + symbol + "</span><ul>"@ + h + "</ul></div>"@,
            b1,
        )
    }
}

pub open spec fn patterns_html(ids: Seq<Seq<char>>, b: Map<usize, Seq<char>>, ps: Seq<Signed<Pattern>>) -> Seq<char>
    decreases ps.len(),
{
    if ps.len() == 0 {
        Seq::empty()
    } else {
        let p = ps.last();
        patterns_html(ids, b, ps.drop_last()) + "<li>"@ + sign_html(p.0) + term_html(ids, b, p.1.0) + term_html(
            ids,
            b,
            p.1.1,
        ) + term_html(ids, b, p.1.2) + "</li>"@
    }
}

pub open spec fn statement_html(ids: Seq<Seq<char>>, b: Map<usize, Seq<char>>, s: StatementPattern) -> Seq<char> {
    match s {
        StatementPattern::Eq(x, y) => term_html(ids, b, x) + "<span class=\"rdfs-eq\">=</span>"@ + term_html(ids, b, y),
        StatementPattern::Triple(p) => term_html(ids, b, p.0) + term_html(ids, b, p.1) + term_html(ids, b, p.2),
    }
}

pub open spec fn statements_html(
    ids: Seq<Seq<char>>,
    b: Map<usize, Seq<char>>,
    ss: Seq<MaybeTrusted<Signed<StatementPattern>>>,
) -> Seq<char>
    decreases ss.len(),
{
    if ss.len() == 0 {
        Seq::empty()
    } else {
        let s = spec_value(ss.last());
        statements_html(ids, b, ss.drop_last()) + "<li>"@ + sign_html(s.0) + statement_html(ids, b, s.1) + "</li>"@
    }
}

/// A quantifier: its variables, then its hypothesis.
pub open spec fn binding_html(
    ids: Seq<Seq<char>>,
    b: Map<usize, Seq<char>>,
    class: Seq<char>,
    symbol: Seq<char>,
    vs: Seq<(usize, Option<Seq<char>>)>,
    ps: Seq<Signed<Pattern>>,
) -> (Seq<char>, Map<usize, Seq<char>>) {
    let (vh, b1) = variables_html(b, symbol, vs);
    (
        "<div class=\"rdfs-binding "@ + class + "\">"@ + vh + "<ul class=\"rdfs-statements\">"@ + patterns_html(ids, b1, ps)
            + "</ul>"@ + "</div>"@,
        b1,
    )
}

/// The HTML of a formula, `ids[i]` being that of resource `i` and `b` the
/// variables named so far; and the variables named after it.
pub open spec fn formula_html(ids: Seq<Seq<char>>, b: Map<usize, Seq<char>>, f: FormulaView) -> (
    Seq<char>,
    Map<usize, Seq<char>>,
)
    decreases f,
{
    match f {
        FormulaView::Exists(vs, h, inner) => {
            let (h1, b1) = binding_html(ids, b, "rdfs-exists"@, "∃"@, vs, h);
            let (h2, b2) = formula_html(ids, b1, *inner);
            (h1 + h2, b2)
        },
        FormulaView::ForAll(vs, h, inner) => {
            let (h1, b1) = binding_html(ids, b, "rdfs-forall"@, "∀"@, vs, h);
            let (h2, b2) = formula_html(ids, b1, *inner);
            (h1 + h2, b2)
        },
        FormulaView::Conclusion(vs, ss) => {
            let (vh, b1) = variables_html(b, "∃"@, vs);
            (
                "<div class=\"rdfs-conclusion\">"@ + vh + "<ul class=\"rdfs-statements\">"@ + statements_html(ids, b1, ss)
                    + "</ul></div>"@,
                b1,
            )
        },
    }
}

pub open spec fn term_in(v: IdOrVar, n: nat) -> bool {
    match v {
        IdOrVar::Id(i) => i.0 < n,
        IdOrVar::Var(_) => true,
    }
}

pub open spec fn pattern_in(p: Pattern, n: nat) -> bool {
    term_in(p.0, n) && term_in(p.1, n) && term_in(p.2, n)
}

pub open spec fn statement_in(s: StatementPattern, n: nat) -> bool {
    match s {
        StatementPattern::Eq(x, y) => term_in(x, n) && term_in(y, n),
        StatementPattern::Triple(p) => pattern_in(p, n),
    }
}

/// Whether every resource of the formula is below `n`.
pub open spec fn resources_below(f: FormulaView, n: nat) -> bool
    decreases f,
{
    match f {
        FormulaView::Exists(_, h, inner) => (forall|j: int| 0 <= j < h.len() ==> pattern_in((#[trigger] h[j]).1, n))
            && resources_below(*inner, n),
        FormulaView::ForAll(_, h, inner) => (forall|j: int| 0 <= j < h.len() ==> pattern_in((#[trigger] h[j]).1, n))
            && resources_below(*inner, n),
        FormulaView::Conclusion(_, ss) => forall|j: int| 0 <= j < ss.len() ==> statement_in(spec_value(#[trigger] ss[j]).1, n),
    }
}

/// The names of the variables.
pub open spec fn scope_view(s: HashMap<usize, String>) -> Map<usize, Seq<char>> {
    s@.map_values(|e: String| e@)
}

pub open spec fn strings_view(s: Seq<String>) -> Seq<Seq<char>> {
    s.map_values(|e: String| e@)
}

fn digit_char(d: usize) -> (r: char)
    requires
        d < 10,
    ensures
        r == digit(d as nat),
{
    if d == 0 {
        '0'
    } else if d == 1 {
        '1'
    } else if d == 2 {
        '2'
    } else if d == 3 {
        '3'
    } else if d == 4 {
        '4'
    } else if d == 5 {
        '5'
    } else if d == 6 {
        '6'
    } else if d == 7 {
        '7'
    } else if d == 8 {
        '8'
    } else {
        '9'
    }
}

/// Appends `n` in decimal.
fn write_decimal(out: &mut String, n: usize)
    ensures
        final(out)@ == old(out)@ + decimal(n as nat),
    decreases n,
{
    if n < 10 {
        push_char(out, digit_char(n));
        proof {
            assert(out@ =~= old(out)@ + decimal(n as nat));
        }
    } else {
        write_decimal(out, n / 10);
        push_char(out, digit_char(n % 10));
        proof {
            assert(out@ =~= old(out)@ + decimal(n as nat));
        }
    }
}

/// The name `x` is bound to, if any.
fn lookup_name(scope: &HashMap<usize, String>, x: usize) -> (r: Option<&String>)
    ensures
        match r {
            Some(n) => scope_view(*scope).contains_key(x) && scope_view(*scope)[x] == n@,
            None => !scope_view(*scope).contains_key(x),
        },
{
    broadcast use vstd::std_specs::hash::group_hash_axioms;

    scope.get(&x)
}

/// Appends a variable.
fn write_var(out: &mut String, scope: &HashMap<usize, String>, x: usize)
    ensures
        final(out)@ == old(out)@ + var_html(scope_view(*scope), x),
{
    out.append("<span class=\"rdfs-var\">");
    match lookup_name(scope, x) {
        Some(n) => out.append(n.as_str()),
        None => {
            out.append("x");
            write_decimal(out, x);
        },
    }
    out.append("</span>");
    proof {
        assert(out@ =~= old(out)@ + var_html(scope_view(*scope), x));
    }
}

/// Appends a resource or a variable.
fn write_term(out: &mut String, ids: &Vec<String>, scope: &HashMap<usize, String>, v: IdOrVar)
    requires
        term_in(v, ids@.len()),
    ensures
        final(out)@ == old(out)@ + term_html(strings_view(ids@), scope_view(*scope), v),
{
    match v {
        IdOrVar::Id(i) => out.append(ids[i.0 as usize].as_str()),
        IdOrVar::Var(x) => write_var(out, scope, x),
    }
}

fn write_sign(out: &mut String, s: Sign)
    ensures
        final(out)@ == old(out)@ + sign_html(s),
{
    match s {
        Sign::Positive => out.append("<span class=\"rdfs-sign rdfs-positive\"></span>"),
        Sign::Negative => out.append("<span class=\"rdfs-sign rdfs-negative\">¬</span>"),
    }
}

/// Appends the variables a quantifier binds, naming each in `scope`.
fn write_variables(out: &mut String, scope: &mut HashMap<usize, String>, symbol: &str, vs: &Vec<Variable>)
    ensures
        final(out)@ == old(out)@ + variables_html(scope_view(*old(scope)), symbol@, variables_view(vs@)).0,
        scope_view(*final(scope)) == variables_html(scope_view(*old(scope)), symbol@, variables_view(vs@)).1,
{
    if vs.len() == 0 {
        proof {
            assert(out@ =~= old(out)@ + Seq::<char>::empty());
        }
        return;
    }
    let ghost vv = variables_view(vs@);
    let ghost b0 = scope_view(*scope);
    out.append("<div class=\"rdfs-vars\"><span class=\"rdfs-quantifer\">");
    out.append(symbol);
    out.append("</span><ul>");
    let ghost start = out@;
    let mut i: usize = 0;
    proof {
        assert(vv.take(0) =~= Seq::<(usize, Option<Seq<char>>)>::empty());
        assert(out@ =~= start + var_items_html(b0, vv.take(0)).0);
    }
    while i < vs.len()
        invariant
            i <= vs@.len(),
            vv == variables_view(vs@),
            out@ == start + var_items_html(b0, vv.take(i as int)).0,
            scope_view(*scope) == var_items_html(b0, vv.take(i as int)).1,
        decreases vs@.len() - i,
    {
        let ghost o = out@;
        let ghost sc = *scope;
        let name = match &vs[i].name {
            Some(n) => n.clone(),
            None => {
                let mut n = String::from_str("x");
                write_decimal(&mut n, vs[i].index);
                n
            },
        };
        proof {
            assert(vv[i as int] == crate::inference::formula::variable_view(vs@[i as int]));
            assert(name@ == display_name(vv[i as int]));
        }
        out.append("<li><span class=\"rdfs-var\">");
        out.append(name.as_str());
        out.append("</span></li>");
        let index = vs[i].index;
        let ghost nv = name@;
        scope.insert(index, name);
        proof {
            broadcast use vstd::std_specs::hash::group_hash_axioms;

            assert(vv.take(i + 1).drop_last() =~= vv.take(i as int));
            assert(vv.take(i + 1).last() == vv[i as int]);
            assert(out@ =~= start + var_items_html(b0, vv.take(i + 1)).0);
            assert(scope_view(*scope) =~= scope_view(sc).insert(index, nv));
        }
        i = i + 1;
    }
    out.append("</ul></div>");
    proof {
        assert(vv.take(i as int) =~= vv);
        assert(out@ =~= old(out)@ + variables_html(b0, symbol@, vv).0);
    }
}

/// Appends the patterns of a hypothesis as list items.
fn write_patterns(out: &mut String, ids: &Vec<String>, scope: &HashMap<usize, String>, ps: &Vec<Signed<Pattern>>)
    requires
        forall|j: int| 0 <= j < ps@.len() ==> pattern_in((#[trigger] ps@[j]).1, ids@.len()),
    ensures
        final(out)@ == old(out)@ + patterns_html(strings_view(ids@), scope_view(*scope), ps@),
{
    let ghost start = out@;
    let ghost iv = strings_view(ids@);
    let ghost b = scope_view(*scope);
    let mut i: usize = 0;
    proof {
        assert(ps@.take(0) =~= Seq::<Signed<Pattern>>::empty());
        assert(out@ =~= start + patterns_html(iv, b, ps@.take(0)));
    }
    while i < ps.len()
        invariant
            i <= ps@.len(),
            forall|j: int| 0 <= j < ps@.len() ==> pattern_in((#[trigger] ps@[j]).1, ids@.len()),
            iv == strings_view(ids@),
            b == scope_view(*scope),
            out@ == start + patterns_html(iv, b, ps@.take(i as int)),
        decreases ps@.len() - i,
    {
        let p = ps[i];
        proof {
            assert(pattern_in(ps@[i as int].1, ids@.len()));
        }
        out.append("<li>");
        write_sign(out, p.0);
        write_term(out, ids, scope, p.1.0);
        write_term(out, ids, scope, p.1.1);
        write_term(out, ids, scope, p.1.2);
        out.append("</li>");
        proof {
            assert(ps@.take(i + 1).drop_last() =~= ps@.take(i as int));
            assert(ps@.take(i + 1).last() == p);
            assert(out@ =~= start + patterns_html(iv, b, ps@.take(i + 1)));
        }
        i = i + 1;
    }
    proof {
        assert(ps@.take(i as int) =~= ps@);
    }
}

fn write_statement(out: &mut String, ids: &Vec<String>, scope: &HashMap<usize, String>, st: StatementPattern)
    requires
        statement_in(st, ids@.len()),
    ensures
        final(out)@ == old(out)@ + statement_html(strings_view(ids@), scope_view(*scope), st),
{
    match st {
        StatementPattern::Eq(x, y) => {
            write_term(out, ids, scope, x);
            out.append("<span class=\"rdfs-eq\">=</span>");
            write_term(out, ids, scope, y);
        },
        StatementPattern::Triple(p) => {
            write_term(out, ids, scope, p.0);
            write_term(out, ids, scope, p.1);
            write_term(out, ids, scope, p.2);
        },
    }
    proof {
        assert(out@ =~= old(out)@ + statement_html(strings_view(ids@), scope_view(*scope), st));
    }
}

/// Appends the statements of a conclusion as list items.
fn write_statements(
    out: &mut String,
    ids: &Vec<String>,
    scope: &HashMap<usize, String>,
    ss: &Vec<MaybeTrusted<Signed<StatementPattern>>>,
)
    requires
        forall|j: int| 0 <= j < ss@.len() ==> statement_in(spec_value(#[trigger] ss@[j]).1, ids@.len()),
    ensures
        final(out)@ == old(out)@ + statements_html(strings_view(ids@), scope_view(*scope), ss@),
{
    let ghost start = out@;
    let ghost iv = strings_view(ids@);
    let ghost b = scope_view(*scope);
    let mut i: usize = 0;
    proof {
        assert(ss@.take(0) =~= Seq::<MaybeTrusted<Signed<StatementPattern>>>::empty());
        assert(out@ =~= start + statements_html(iv, b, ss@.take(0)));
    }
    while i < ss.len()
        invariant
            i <= ss@.len(),
            forall|j: int| 0 <= j < ss@.len() ==> statement_in(spec_value(#[trigger] ss@[j]).1, ids@.len()),
            iv == strings_view(ids@),
            b == scope_view(*scope),
            out@ == start + statements_html(iv, b, ss@.take(i as int)),
        decreases ss@.len() - i,
    {
        let item = ss[i];
        let st = *item.value();
        proof {
            assert(statement_in(spec_value(ss@[i as int]).1, ids@.len()));
        }
        out.append("<li>");
        write_sign(out, st.0);
        write_statement(out, ids, scope, st.1);
        out.append("</li>");
        proof {
            assert(ss@.take(i + 1).drop_last() =~= ss@.take(i as int));
            assert(ss@.take(i + 1).last() == item);
            assert(out@ =~= start + statements_html(iv, b, ss@.take(i + 1)));
        }
        i = i + 1;
    }
    proof {
        assert(ss@.take(i as int) =~= ss@);
    }
}

/// Appends a quantifier: its variables, named in `scope`, then its
/// hypothesis.
fn write_binding(
    out: &mut String,
    ids: &Vec<String>,
    scope: &mut HashMap<usize, String>,
    class: &str,
    symbol: &str,
    vs: &Vec<Variable>,
    ps: &Vec<Signed<Pattern>>,
)
    requires
        forall|j: int| 0 <= j < ps@.len() ==> pattern_in((#[trigger] ps@[j]).1, ids@.len()),
    ensures
        final(out)@ == old(out)@ + binding_html(
            strings_view(ids@),
            scope_view(*old(scope)),
            class@,
            symbol@,
            variables_view(vs@),
            ps@,
        ).0,
        scope_view(*final(scope)) == binding_html(
            strings_view(ids@),
            scope_view(*old(scope)),
            class@,
            symbol@,
            variables_view(vs@),
            ps@,
        ).1,
{
    out.append("<div class=\"rdfs-binding ");
    out.append(class);
    out.append("\">");
    write_variables(out, scope, symbol, vs);
    out.append("<ul class=\"rdfs-statements\">");
    write_patterns(out, ids, scope, ps);
    out.append("</ul>");
    out.append("</div>");
    proof {
        assert(out@ =~= old(out)@ + binding_html(
            strings_view(ids@),
            scope_view(*old(scope)),
            class@,
            symbol@,
            variables_view(vs@),
            ps@,
        ).0);
    }
}

/// Appends the HTML of `formula` to `out`: each quantifier with its
/// variables and hypothesis, then the conclusion with the variables it
/// binds to new resources and its statements. `ids[i]` is the HTML of
/// resource `i`; `scope` names the variables, each quantifier naming those
/// it binds.
pub fn render_formula(out: &mut String, ids: &Vec<String>, scope: &mut HashMap<usize, String>, formula: &Formula)
    requires
        resources_below(formula_view(*formula), ids@.len()),
    ensures
        final(out)@ == old(out)@ + formula_html(strings_view(ids@), scope_view(*old(scope)), formula_view(*formula)).0,
        scope_view(*final(scope)) == formula_html(strings_view(ids@), scope_view(*old(scope)), formula_view(*formula)).1,
    decreases formula,
{
    match formula {
        Formula::Exists(e) => {
            proof {
                assert(decreases_to!(*formula => e));
                assert(decreases_to!(e => e.inner));
            }
            let ghost o = out@;
            write_binding(out, ids, scope, "rdfs-exists", "∃", &e.variables, &e.hypothesis.patterns);
            render_formula(out, ids, scope, &e.inner);
            proof {
                let fv = formula_view(*formula);
                assert(fv->Exists_0 == variables_view(e.variables@));
                assert(*fv->Exists_2 == formula_view(*e.inner));
                assert(out@ =~= o + formula_html(strings_view(ids@), scope_view(*old(scope)), fv).0);
            }
        },
        Formula::ForAll(a) => {
            proof {
                assert(decreases_to!(*formula => a));
                assert(decreases_to!(a => a.inner));
            }
            let ghost o = out@;
            write_binding(out, ids, scope, "rdfs-forall", "∀", &a.variables, &a.constraints.patterns);
            render_formula(out, ids, scope, &a.inner);
            proof {
                let fv = formula_view(*formula);
                assert(fv->ForAll_0 == variables_view(a.variables@));
                assert(*fv->ForAll_2 == formula_view(*a.inner));
                assert(out@ =~= o + formula_html(strings_view(ids@), scope_view(*old(scope)), fv).0);
            }
        },
        Formula::Conclusion(c) => {
            let ghost o = out@;
            out.append("<div class=\"rdfs-conclusion\">");
            write_variables(out, scope, "∃", &c.variables);
            out.append("<ul class=\"rdfs-statements\">");
            write_statements(out, ids, scope, &c.statements);
            out.append("</ul></div>");
            proof {
                let fv = formula_view(*formula);
                assert(fv->Conclusion_0 == variables_view(c.variables@));
                assert(out@ =~= o + formula_html(strings_view(ids@), scope_view(*old(scope)), fv).0);
            }
        },
    }
}

/// The reference a rule's IRI is written as in the rendering context.
pub open spec fn rendered_iri_ref(context: Context, iri: Seq<char>) -> Seq<char> {
    match context.base() {
        Some(b) => relative_iri_ref(iri, b),
        None => iri,
    }
}

/// The HTML of a rule: its identifier, as a reference and an anchor, then
/// its formula with no variable named beforehand.
pub open spec fn rule_html(ids: Seq<Seq<char>>, iri_ref: Seq<char>, f: FormulaView) -> Seq<char> {
    "<div class=\"rdfs-rule\"><span class=\"rdfs-rule-id\">"@ + iri_ref + "<a class=\"rdfs-anchor\" href=\""@ + iri_ref
        + "\">§</a></span>"@ + "<div class=\"rdfs-formula\">"@ + formula_html(ids, Map::empty(), f).0 + "</div></div>"@
}

/// Appends the HTML of `rule`, whose identifier is the resource of `iri`.
pub fn render_rule(out: &mut String, ids: &Vec<String>, context: &Context, iri: &IriBuf, rule: &FormulaRule)
    requires
        resources_below(formula_view(rule.formula), ids@.len()),
    ensures
        final(out)@ == old(out)@ + rule_html(strings_view(ids@), rendered_iri_ref(*context, iri@), formula_view(rule.formula)),
{
    let iri_ref = context.iri_ref(iri);
    out.append("<div class=\"rdfs-rule\"><span class=\"rdfs-rule-id\">");
    out.append(iri_ref.as_str());
    out.append("<a class=\"rdfs-anchor\" href=\"");
    out.append(iri_ref.as_str());
    out.append("\">§</a></span>");
    let mut scope: HashMap<usize, String> = HashMap::new();
    out.append("<div class=\"rdfs-formula\">");
    let ghost o = out@;
    proof {
        assert(scope_view(scope) =~= Map::<usize, Seq<char>>::empty());
    }
    render_formula(out, ids, &mut scope, &rule.formula);
    out.append("</div></div>");
    proof {
        assert(out@ =~= old(out)@ + rule_html(strings_view(ids@), rendered_iri_ref(*context, iri@), formula_view(rule.formula)));
    }
}

} // verus!
