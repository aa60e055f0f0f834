//! Rules as formulas: quantified hypotheses around a conclusion, and what
//! the deduction system deduces from them.
use vstd::prelude::*;

use crate::cause::Entailment;
use crate::dataset::standard::Standard;
use crate::id::Id;
use crate::inference::rule::{bound_fresh, instance_of, statement_of, statement_vars, Hypothesis, StatementPattern};
use crate::inference::system::{
    bound_ids, candidate, candidate_views, candidates, search, search_spec, substitution_ids, substitution_views,
    SubDeduction, System,
};
use crate::module::sub_module::ResourceGenerator;
use crate::pattern::{id_or_var_bind, IdOrVar, Pattern, PatternSubstitution};
use crate::semantics::{spec_value, MaybeTrusted, TripleStatement};
use crate::sign::Signed;
use crate::triple::Triple;

verus! {

/// Variable of a formula: its index in substitutions, and its name.
pub struct Variable {
    pub index: usize,
    pub name: Option<String>,
}

/// Conclusion of a formula: variables bound to new resources, and the
/// statements deduced.
pub struct Conclusion {
    pub variables: Vec<Variable>,
    pub statements: Vec<MaybeTrusted<Signed<StatementPattern>>>,
}

/// `exists variables. hypothesis => inner`.
pub struct Exists {
    pub variables: Vec<Variable>,
    pub hypothesis: Hypothesis,
    pub inner: Box<Formula>,
}

/// `forall variables. constraints => inner`.
pub struct ForAll {
    pub variables: Vec<Variable>,
    pub constraints: Hypothesis,
    pub inner: Box<Formula>,
}

/// Rule formula.
pub enum Formula {
    Exists(Exists),
    ForAll(ForAll),
    Conclusion(Conclusion),
}

/// Inference rule given as a formula, named by a resource.
pub struct FormulaRule {
    pub id: Id,
    pub formula: Formula,
}

/// A variable as a value: its index and its name.
pub open spec fn variable_view(v: Variable) -> (usize, Option<Seq<char>>) {
    (
        v.index,
        match v.name {
            Some(n) => Some(n@),
            None => None,
        },
    )
}

pub open spec fn variables_view(vs: Seq<Variable>) -> Seq<(usize, Option<Seq<char>>)> {
    vs.map_values(|v: Variable| variable_view(v))
}

/// A formula as a value: variables, patterns and statements as sequences.
pub enum FormulaView {
    Exists(Seq<(usize, Option<Seq<char>>)>, Seq<Signed<Pattern>>, Box<FormulaView>),
    ForAll(Seq<(usize, Option<Seq<char>>)>, Seq<Signed<Pattern>>, Box<FormulaView>),
    Conclusion(Seq<(usize, Option<Seq<char>>)>, Seq<MaybeTrusted<Signed<StatementPattern>>>),
}

pub open spec fn formula_view(f: Formula) -> FormulaView
    decreases f,
{
    match f {
        Formula::Exists(e) => FormulaView::Exists(
            variables_view(e.variables@),
            e.hypothesis.patterns@,
            Box::new(formula_view(*e.inner)),
        ),
        Formula::ForAll(a) => FormulaView::ForAll(
            variables_view(a.variables@),
            a.constraints.patterns@,
            Box::new(formula_view(*a.inner)),
        ),
        Formula::Conclusion(c) => FormulaView::Conclusion(variables_view(c.variables@), c.statements@),
    }
}

/// The indexes of the variables.
pub open spec fn var_indexes(vs: Seq<Variable>) -> Seq<usize> {
    vs.map_values(|v: Variable| v.index)
}

/// The variables of `xs` that `m` does not bind, in order.
pub open spec fn unbound(xs: Seq<usize>, m: Map<usize, Id>) -> Seq<usize>
    decreases xs.len(),
{
    if xs.len() == 0 {
        Seq::empty()
    } else {
        unbound(xs.drop_last(), m) + if m.contains_key(xs.last()) {
            Seq::empty()
        } else {
            seq![xs.last()]
        }
    }
}

/// Every extension of `m` binding, in order, each variable of `xs` to one
/// of the resources `rs`: depth first, resources in order.
pub open spec fn extend_spec(m: Map<usize, Id>, xs: Seq<usize>, rs: Seq<Id>) -> Seq<Map<usize, Id>>
    decreases xs.len(), 1int, 0int,
{
    if xs.len() == 0 {
        seq![m]
    } else {
        extend_branch(m, xs, rs, rs.len() as int)
    }
}

/// The extensions through the first `n` resources for the first variable.
pub open spec fn extend_branch(m: Map<usize, Id>, xs: Seq<usize>, rs: Seq<Id>, n: int) -> Seq<Map<usize, Id>>
    decreases xs.len(), 0int, n,
{
    if xs.len() == 0 || n <= 0 {
        Seq::empty()
    } else {
        extend_branch(m, xs, rs, n - 1) + extend_spec(
            id_or_var_bind(IdOrVar::Var(xs[0]), m, rs[n - 1]).1,
            xs.drop_first(),
            rs,
        )
    }
}

/// Each substitution of `found` extended over the resources `rs` for those
/// of the variables `xs` it leaves unbound.
pub open spec fn extend_each(found: Seq<Map<usize, Id>>, xs: Seq<usize>, rs: Seq<Id>) -> Seq<Map<usize, Id>>
    decreases found.len(),
{
    if found.len() == 0 {
        Seq::empty()
    } else {
        extend_each(found.drop_last(), xs, rs) + extend_spec(found.last(), unbound(xs, found.last()), rs)
    }
}

/// Whether `r` is what `find_substitutions` finds: every extension of `s`
/// matching the patterns, in order, against the triples of the facts of the
/// dataset matching them, then each extended over the resources for the
/// variables it leaves unbound.
pub open spec fn found_by(
    dataset: Standard,
    resources: Seq<Id>,
    variables: Seq<Variable>,
    patterns: Seq<Signed<Pattern>>,
    s: Map<usize, Id>,
    r: Seq<Map<usize, Id>>,
) -> bool {
    exists|cands: Seq<Seq<Triple>>| {
        &&& cands.len() == patterns.len()
        &&& forall|i: int, t: Triple| 0 <= i < patterns.len() ==> (#[trigger] cands[i].contains(t) <==> candidate(dataset, patterns[i], t))
        &&& r == extend_each(
            search_spec(s, patterns.map_values(|sp: Signed<Pattern>| sp.1), cands),
            var_indexes(variables),
            resources,
        )
    }
}

/// The statements whose variables `m` all binds, instantiated under `m`,
/// in order.
pub open spec fn instantiated(stmts: Seq<MaybeTrusted<Signed<StatementPattern>>>, m: Map<usize, Id>) -> Seq<
    MaybeTrusted<Signed<TripleStatement>>,
>
    decreases stmts.len(),
{
    if stmts.len() == 0 {
        Seq::empty()
    } else {
        instantiated(stmts.drop_last(), m) + if statement_vars(spec_value(stmts.last()).1).subset_of(m.dom()) {
            seq![instance_of(stmts.last(), m)]
        } else {
            Seq::empty()
        }
    }
}

/// The statements of the deductions, in order.
pub open spec fn merged(ds: Seq<SubDeduction>) -> Seq<MaybeTrusted<Signed<TripleStatement>>>
    decreases ds.len(),
{
    if ds.len() == 0 {
        Seq::empty()
    } else {
        merged(ds.drop_last()) + ds.last().1@
    }
}

/// Whether `e` is the entailment of the rule under `s`.
pub open spec fn entailment_of(e: Entailment, rule: Id, s: Map<usize, Id>) -> bool {
    e.rule == rule && e.substitution@ == bound_ids(s, s.len())
}

/// Whether `r` is what the formula deduces under `s`:
/// - `exists`: what the inner formula deduces under each substitution
///   found for the hypothesis, in order;
/// - `forall`: nothing if the inner formula deduces nothing under one of
///   the substitutions found for the constraints (looked at in order, up to
///   the first such), else one deduction, entailed by the rule under `s`,
///   holding the statements of all the inner deductions;
/// - a conclusion: one deduction, entailed by the rule under `s`, of the
///   statements whose variables are all bound once the conclusion's
///   variables are bound, in order, to new resources (one per variable;
///   one already bound keeps its resource).
pub open spec fn formula_deduced(
    dataset: Standard,
    resources: Seq<Id>,
    rule: Id,
    f: Formula,
    s: Map<usize, Id>,
    r: Seq<SubDeduction>,
) -> bool
    decreases f,
{
    match f {
        Formula::Exists(e) => exists|subs: Seq<Map<usize, Id>>, parts: Seq<Seq<SubDeduction>>|
            #![trigger found_by(dataset, resources, e.variables@, e.hypothesis.patterns@, s, subs), parts.len()]
        {
            &&& found_by(dataset, resources, e.variables@, e.hypothesis.patterns@, s, subs)
            &&& parts.len() == subs.len()
            &&& forall|i: int| 0 <= i < subs.len() ==> formula_deduced(dataset, resources, rule, *e.inner, subs[i], #[trigger] parts[i])
            &&& r == parts.flatten()
        },
        Formula::ForAll(a) => exists|subs: Seq<Map<usize, Id>>, parts: Seq<Seq<SubDeduction>>|
            #![trigger found_by(dataset, resources, a.variables@, a.constraints.patterns@, s, subs), parts.len()]
        {
            &&& found_by(dataset, resources, a.variables@, a.constraints.patterns@, s, subs)
            &&& parts.len() <= subs.len()
            &&& forall|i: int| 0 <= i < parts.len() ==> formula_deduced(dataset, resources, rule, *a.inner, subs[i], #[trigger] parts[i])
            &&& forall|i: int| 0 <= i < parts.len() - 1 ==> (#[trigger] parts[i]).len() > 0
            &&& if parts.len() == subs.len() && (parts.len() == 0 || parts.last().len() > 0) {
                r.len() == 1 && entailment_of(r[0].0, rule, s) && r[0].1@ == merged(parts.flatten())
            } else {
                parts.len() > 0 && parts.last().len() == 0 && r.len() == 0
            }
        },
        Formula::Conclusion(c) => exists|fresh: Seq<Id>| #[trigger] fresh_conclusion(rule, &c, s, r, fresh),
    }
}


/// Every extension of `s` binding, in order, each variable of `xs` from
/// position `k` to one of the resources `rs`.
fn extend(s: &PatternSubstitution, xs: &Vec<usize>, k: usize, rs: &Vec<Id>) -> (r: Vec<PatternSubstitution>)
    requires
        k <= xs@.len(),
    ensures
        substitution_views(r@) == extend_spec(s@, xs@.skip(k as int), rs@),
    decreases xs@.len() - k,
{
    let ghost xk = xs@.skip(k as int);
    if k == xs.len() {
        let r = vec![s.duplicate()];
        proof {
            assert(xk.len() == 0);
            assert(substitution_views(r@) =~= seq![s@]);
        }
        return r;
    }
    let mut r: Vec<PatternSubstitution> = Vec::new();
    let mut j: usize = 0;
    proof {
        assert(substitution_views(r@) =~= Seq::<Map<usize, Id>>::empty());
    }
    while j < rs.len()
        invariant
            k < xs@.len(),
            k + 1 <= xs.len(),
            xk == xs@.skip(k as int),
            j <= rs@.len(),
            substitution_views(r@) == extend_branch(s@, xk, rs@, j as int),
        decreases rs@.len() - j,
    {
        let mut s2 = s.duplicate();
        s2.bind(xs[k], rs[j]);
        proof {
            assert(xk[0] == xs@[k as int]);
            assert(xk.drop_first() =~= xs@.skip(k + 1));
        }
        let mut sub = extend(&s2, xs, k + 1, rs);
        let ghost r0 = r@;
        let ghost sub0 = sub@;
        r.append(&mut sub);
        proof {
            assert(substitution_views(r@) =~= substitution_views(r0) + substitution_views(sub0));
        }
        j = j + 1;
    }
    r
}

/// The indexes of the variables that `s` leaves unbound, in order.
fn unbound_vars(variables: &Vec<Variable>, s: &PatternSubstitution) -> (r: Vec<usize>)
    ensures
        r@ == unbound(var_indexes(variables@), s@),
{
    let ghost xs = var_indexes(variables@);
    let mut r: Vec<usize> = Vec::new();
    let mut i: usize = 0;
    while i < variables.len()
        invariant
            i <= variables@.len(),
            xs == var_indexes(variables@),
            r@ == unbound(xs.take(i as int), s@),
        decreases variables@.len() - i,
    {
        let x = variables[i].index;
        proof {
            assert(xs.take(i + 1).drop_last() =~= xs.take(i as int));
            assert(xs.take(i + 1).last() == x);
        }
        if !s.contains(x) {
            r.push(x);
        }
        i = i + 1;
    }
    proof {
        assert(xs.take(i as int) =~= xs);
    }
    r
}

impl System {
    /// Every substitution extending `substitution` that matches the
    /// hypothesis patterns, in order, against the triples of the facts of
    /// the dataset matching them, each then extended over `resources` for
    /// those of `variables` it leaves unbound.
    pub fn find_substitutions(
        &self,
        dataset: &Standard,
        resources: &Vec<Id>,
        variables: &Vec<Variable>,
        hypothesis: &Hypothesis,
        substitution: PatternSubstitution,
    ) -> (r: Vec<PatternSubstitution>)
        requires
            dataset.wf(),
        ensures
            found_by(*dataset, resources@, variables@, hypothesis.patterns@, substitution@, substitution_views(r@)),
    {
        let hyp = &hypothesis.patterns;
        let mut ps: Vec<Pattern> = Vec::new();
        let mut cs: Vec<Vec<Triple>> = Vec::new();
        let mut i: usize = 0;
        while i < hyp.len()
            invariant
                dataset.wf(),
                i <= hyp@.len(),
                ps@.len() == i,
                cs@.len() == i,
                ps@ == hyp@.take(i as int).map_values(|sp: Signed<Pattern>| sp.1),
                forall|j: int, t: Triple| 0 <= j < i ==> (#[trigger] cs@[j]@.contains(t) <==> candidate(*dataset, hyp@[j], t)),
            decreases hyp@.len() - i,
        {
            let sp = hyp[i];
            let c = candidates(dataset, sp);
            ps.push(sp.1);
            cs.push(c);
            proof {
                assert(ps@ =~= hyp@.take(i + 1).map_values(|sp: Signed<Pattern>| sp.1));
            }
            i = i + 1;
        }
        proof {
            assert(hyp@.take(i as int) =~= hyp@);
            assert(ps@.skip(0) =~= ps@);
            assert(candidate_views(cs@).skip(0) =~= candidate_views(cs@));
        }
        let found = search(&substitution, &ps, &cs, 0);
        let ghost fviews = substitution_views(found@);
        let ghost xs = var_indexes(variables@);
        let mut r: Vec<PatternSubstitution> = Vec::new();
        let mut j: usize = 0;
        proof {
            assert(substitution_views(r@) =~= Seq::<Map<usize, Id>>::empty());
            assert(fviews.take(0) =~= Seq::<Map<usize, Id>>::empty());
        }
        while j < found.len()
            invariant
                j <= found@.len(),
                fviews == substitution_views(found@),
                xs == var_indexes(variables@),
                substitution_views(r@) == extend_each(fviews.take(j as int), xs, resources@),
            decreases found@.len() - j,
        {
            let xs_j = unbound_vars(variables, &found[j]);
            proof {
                assert(xs_j@.skip(0) =~= xs_j@);
            }
            let mut sub = extend(&found[j], &xs_j, 0, resources);
            let ghost r0 = r@;
            let ghost sub0 = sub@;
            r.append(&mut sub);
            proof {
                assert(fviews.take(j + 1).drop_last() =~= fviews.take(j as int));
                assert(fviews.take(j + 1).last() == found@[j as int]@);
                assert(substitution_views(r@) =~= substitution_views(r0) + substitution_views(sub0));
            }
            j = j + 1;
        }
        proof {
            assert(fviews.take(j as int) =~= fviews);
            let cands = candidate_views(cs@);
            assert forall|x: int, t: Triple| 0 <= x < hyp@.len() implies (#[trigger] cands[x].contains(t) <==> candidate(*dataset, hyp@[x], t)) by {
                assert(cands[x] == cs@[x]@);
            }
            assert(found_by(*dataset, resources@, variables@, hyp@, substitution@, substitution_views(r@)));
        }
        r
    }
}


pub proof fn lemma_merged_concat(a: Seq<SubDeduction>, b: Seq<SubDeduction>)
    ensures
        merged(a + b) == merged(a) + merged(b),
    decreases b.len(),
{
    if b.len() == 0 {
        assert(a + b =~= a);
        assert(merged(a) + merged(b) =~= merged(a));
    } else {
        assert((a + b).drop_last() =~= a + b.drop_last());
        assert((a + b).last() == b.last());
        lemma_merged_concat(a, b.drop_last());
        assert(merged(a) + merged(b.drop_last()) + b.last().1@ =~= merged(a) + (merged(b.drop_last()) + b.last().1@));
    }
}

/// The statement under `s`, if `s` binds all its variables.
fn instantiate_bound(p: &StatementPattern, s: &PatternSubstitution) -> (r: Option<TripleStatement>)
    ensures
        r == (if statement_vars(*p).subset_of(s@.dom()) {
            Some(statement_of(*p, s@))
        } else {
            None::<TripleStatement>
        }),
{
    match p {
        StatementPattern::Triple(t) => {
            match (t.0.instantiate(s), t.1.instantiate(s), t.2.instantiate(s)) {
                (Some(a), Some(b), Some(c)) => {
                    proof {
                        assert(statement_vars(*p).subset_of(s@.dom()));
                    }
                    Some(TripleStatement::Triple(Triple(a, b, c)))
                },
                (x, y, z) => {
                    proof {
                        if x is None {
                            let v = t.0->Var_0;
                            assert(statement_vars(*p).contains(v));
                        } else if y is None {
                            let v = t.1->Var_0;
                            assert(statement_vars(*p).contains(v));
                        } else {
                            let v = t.2->Var_0;
                            assert(statement_vars(*p).contains(v));
                        }
                    }
                    None
                },
            }
        },
        StatementPattern::Eq(a, b) => {
            match (a.instantiate(s), b.instantiate(s)) {
                (Some(x), Some(y)) => {
                    proof {
                        assert(statement_vars(*p).subset_of(s@.dom()));
                    }
                    Some(TripleStatement::Eq(x, y))
                },
                (x, y) => {
                    proof {
                        if x is None {
                            let v = a->Var_0;
                            assert(statement_vars(*p).contains(v));
                        } else {
                            let v = b->Var_0;
                            assert(statement_vars(*p).contains(v));
                        }
                    }
                    None
                },
            }
        },
    }
}

/// What a conclusion deduces under `substitution` once its variables are
/// bound, in order, to the resources `fresh`, one per variable (a variable
/// already bound keeps its resource): the rule's entailment under
/// `substitution`, with the statements whose variables are then all bound.
pub fn deduce_from_conclusion_with(
    rule: Id,
    conclusion: &Conclusion,
    substitution: PatternSubstitution,
    fresh: &Vec<Id>,
) -> (r: SubDeduction)
    requires
        fresh@.len() == conclusion.variables@.len(),
    ensures
        entailment_of(r.0, rule, substitution@),
        r.1@ == instantiated(
            conclusion.statements@,
            bound_fresh(substitution@, var_indexes(conclusion.variables@), fresh@),
        ),
{
    let ghost s0 = substitution@;
    let e = Entailment::new(rule, substitution_ids(&substitution));
    let mut s = substitution;
    let ghost xs = var_indexes(conclusion.variables@);
    let mut i: usize = 0;
    proof {
        assert(xs.take(0) =~= Seq::<usize>::empty());
    }
    while i < conclusion.variables.len()
        invariant
            i <= conclusion.variables@.len(),
            fresh@.len() == conclusion.variables@.len(),
            xs == var_indexes(conclusion.variables@),
            s@ == bound_fresh(s0, xs.take(i as int), fresh@.take(i as int)),
        decreases conclusion.variables@.len() - i,
    {
        s.bind(conclusion.variables[i].index, fresh[i]);
        proof {
            assert(xs.take(i + 1).drop_last() =~= xs.take(i as int));
            assert(fresh@.take(i + 1).drop_last() =~= fresh@.take(i as int));
            assert(xs.take(i + 1).last() == conclusion.variables@[i as int].index);
            assert(fresh@.take(i + 1).last() == fresh@[i as int]);
        }
        i = i + 1;
    }
    proof {
        assert(xs.take(i as int) =~= xs);
        assert(fresh@.take(i as int) =~= fresh@);
    }
    let mut statements: Vec<MaybeTrusted<Signed<TripleStatement>>> = Vec::new();
    let mut k: usize = 0;
    proof {
        assert(conclusion.statements@.take(0) =~= Seq::<MaybeTrusted<Signed<StatementPattern>>>::empty());
    }
    while k < conclusion.statements.len()
        invariant
            k <= conclusion.statements@.len(),
            statements@ == instantiated(conclusion.statements@.take(k as int), s@),
        decreases conclusion.statements@.len() - k,
    {
        let sp = conclusion.statements[k];
        proof {
            assert(conclusion.statements@.take(k + 1).drop_last() =~= conclusion.statements@.take(k as int));
            assert(conclusion.statements@.take(k + 1).last() == sp);
        }
        let (p, trust) = sp.into_parts();
        match instantiate_bound(&p.1, &s) {
            Some(st) => {
                let item = MaybeTrusted::new(Signed(p.0, st), trust);
                proof {
                    assert(item == instance_of(sp, s@)) by {
                        match sp {
                            MaybeTrusted::Trusted(_) => {},
                            MaybeTrusted::Untrusted(_) => {},
                        }
                        match item {
                            MaybeTrusted::Trusted(_) => {},
                            MaybeTrusted::Untrusted(_) => {},
                        }
                    }
                }
                statements.push(item);
            },
            None => {},
        }
        proof {
            assert(statements@ =~= instantiated(conclusion.statements@.take(k + 1), s@));
        }
        k = k + 1;
    }
    proof {
        assert(conclusion.statements@.take(k as int) =~= conclusion.statements@);
    }
    (e, statements)
}

/// What a conclusion deduces under `substitution`, its variables bound, in
/// order, to new resources of `generator` (one drawn per variable).
fn deduce_from_conclusion<G: ResourceGenerator>(
    rule: Id,
    conclusion: &Conclusion,
    substitution: PatternSubstitution,
    generator: &mut G,
) -> (r: Vec<SubDeduction>)
    ensures
        formula_deduced_conclusion(rule, conclusion, substitution@, r@),
{
    let mut fresh: Vec<Id> = Vec::new();
    let mut i: usize = 0;
    while i < conclusion.variables.len()
        invariant
            i <= conclusion.variables@.len(),
            fresh@.len() == i,
        decreases conclusion.variables@.len() - i,
    {
        fresh.push(generator.new_resource());
        i = i + 1;
    }
    let ghost s0 = substitution@;
    let d = deduce_from_conclusion_with(rule, conclusion, substitution, &fresh);
    let r = vec![d];
    proof {
        assert(r@[0] == d);
        assert(fresh_conclusion(rule, conclusion, s0, r@, fresh@));
    }
    r
}

/// Whether `r` is what the conclusion deduces under `s` with its variables
/// bound to the resources `fresh`.
pub open spec fn fresh_conclusion(rule: Id, c: &Conclusion, s: Map<usize, Id>, r: Seq<SubDeduction>, fresh: Seq<Id>) -> bool {
    &&& fresh.len() == c.variables@.len()
    &&& r.len() == 1
    &&& entailment_of(r[0].0, rule, s)
    &&& r[0].1@ == instantiated(c.statements@, bound_fresh(s, var_indexes(c.variables@), fresh))
}

/// What a conclusion deduces (see `formula_deduced`): its deduction with
/// its variables bound to some resources, one per variable.
pub open spec fn formula_deduced_conclusion(rule: Id, c: &Conclusion, s: Map<usize, Id>, r: Seq<SubDeduction>) -> bool {
    exists|fresh: Seq<Id>| #[trigger] fresh_conclusion(rule, c, s, r, fresh)
}

impl System {
    /// What the formula deduces under `substitution` (see
    /// `formula_deduced`): new resources come from `generator`, and
    /// variables left unbound by a hypothesis range over `resources`.
    pub fn deduce_from_formula<G: ResourceGenerator>(
        &self,
        dataset: &Standard,
        resources: &Vec<Id>,
        rule: Id,
        formula: &Formula,
        substitution: PatternSubstitution,
        generator: &mut G,
    ) -> (r: Vec<SubDeduction>)
        requires
            dataset.wf(),
        ensures
            formula_deduced(*dataset, resources@, rule, *formula, substitution@, r@),
        decreases formula,
    {
        match formula {
            Formula::Exists(e) => {
                let subs = self.find_substitutions(dataset, resources, &e.variables, &e.hypothesis, substitution);
                let ghost views = substitution_views(subs@);
                let ghost mut parts: Seq<Seq<SubDeduction>> = Seq::empty();
                let mut r: Vec<SubDeduction> = Vec::new();
                let mut j: usize = 0;
                while j < subs.len()
                    invariant
                        dataset.wf(),
                        *formula == Formula::Exists(*e),
                        j <= subs@.len(),
                        views == substitution_views(subs@),
                        parts.len() == j,
                        r@ == parts.flatten(),
                        forall|i: int| 0 <= i < j ==> formula_deduced(*dataset, resources@, rule, *e.inner, views[i], #[trigger] parts[i]),
                    decreases subs@.len() - j,
                {
                    proof {
                        assert(decreases_to!(*formula => (*formula)->Exists_0));
                        assert((*formula)->Exists_0 == *e);
                        assert(decreases_to!(*e => *e.inner));
                    }
                    let mut d = self.deduce_from_formula(dataset, resources, rule, &e.inner, subs[j].duplicate(), generator);
                    let ghost part = d@;
                    r.append(&mut d);
                    proof {
                        parts.lemma_flatten_push(part);
                        parts = parts.push(part);
                    }
                    j = j + 1;
                }
                proof {
                    assert(found_by(*dataset, resources@, e.variables@, e.hypothesis.patterns@, substitution@, views));
                    assert(parts.len() == views.len());
                }
                r
            },
            Formula::ForAll(a) => {
                let ent = Entailment::new(rule, substitution_ids(&substitution));
                let ghost s0 = substitution@;
                let subs = self.find_substitutions(dataset, resources, &a.variables, &a.constraints, substitution);
                let ghost views = substitution_views(subs@);
                let ghost mut parts: Seq<Seq<SubDeduction>> = Seq::empty();
                let mut statements: Vec<MaybeTrusted<Signed<TripleStatement>>> = Vec::new();
                let mut j: usize = 0;
                proof {
                    assert(merged(parts.flatten()) =~= Seq::<MaybeTrusted<Signed<TripleStatement>>>::empty()) by {
                        assert(parts.flatten() =~= Seq::<SubDeduction>::empty());
                    }
                }
                while j < subs.len()
                    invariant
                        dataset.wf(),
                        *formula == Formula::ForAll(*a),
                        s0 == substitution@,
                        entailment_of(ent, rule, s0),
                        j <= subs@.len(),
                        views == substitution_views(subs@),
                        parts.len() == j,
                        statements@ == merged(parts.flatten()),
                        forall|i: int| 0 <= i < j ==> formula_deduced(*dataset, resources@, rule, *a.inner, views[i], #[trigger] parts[i]),
                        forall|i: int| 0 <= i < j ==> (#[trigger] parts[i]).len() > 0,
                        found_by(*dataset, resources@, a.variables@, a.constraints.patterns@, s0, views),
                    decreases subs@.len() - j,
                {
                    proof {
                        assert(decreases_to!(*formula => (*formula)->ForAll_0));
                        assert((*formula)->ForAll_0 == *a);
                        assert(decreases_to!(*a => *a.inner));
                    }
                    let d = self.deduce_from_formula(dataset, resources, rule, &a.inner, subs[j].duplicate(), generator);
                    let ghost part = d@;
                    if d.len() == 0 {
                        proof {
                            let p2 = parts.push(part);
                            assert(p2.last() == part);
                            assert forall|i: int| 0 <= i < p2.len() implies formula_deduced(*dataset, resources@, rule, *a.inner, views[i], #[trigger] p2[i]) by {
                                if i < j {
                                    assert(p2[i] == parts[i]);
                                }
                            }
                            assert forall|i: int| 0 <= i < p2.len() - 1 implies (#[trigger] p2[i]).len() > 0 by {
                                assert(p2[i] == parts[i]);
                            }
                            assert(p2.len() <= views.len());
                        }
                        return Vec::new();
                    }
                    let mut k: usize = 0;
                    let ghost base = statements@;
                    proof {
                        assert(part.take(0) =~= Seq::<SubDeduction>::empty());
                        assert(base + merged(part.take(0)) =~= base);
                    }
                    while k < d.len()
                        invariant
                            k <= d@.len(),
                            part == d@,
                            statements@ == base + merged(part.take(k as int)),
                        decreases d@.len() - k,
                    {
                        proof {
                            assert(part.take(k + 1).drop_last() =~= part.take(k as int));
                            assert(part.take(k + 1).last() == d@[k as int]);
                        }
                        let ghost st0 = statements@;
                        let mut x: usize = 0;
                        while x < d[k].1.len()
                            invariant
                                k < d@.len(),
                                x <= d@[k as int].1@.len(),
                                statements@ == st0 + d@[k as int].1@.take(x as int),
                            decreases d@[k as int].1@.len() - x,
                        {
                            statements.push(d[k].1[x]);
                            proof {
                                assert(d@[k as int].1@.take(x + 1) =~= d@[k as int].1@.take(x as int).push(d@[k as int].1@[x as int]));
                            }
                            x = x + 1;
                        }
                        proof {
                            assert(d@[k as int].1@.take(x as int) =~= d@[k as int].1@);
                            assert(statements@ =~= base + merged(part.take(k + 1)));
                        }
                        k = k + 1;
                    }
                    proof {
                        assert(part.take(k as int) =~= part);
                        parts.lemma_flatten_push(part);
                        lemma_merged_concat(parts.flatten(), part);
                        let p2 = parts.push(part);
                        assert forall|i: int| 0 <= i < p2.len() implies formula_deduced(*dataset, resources@, rule, *a.inner, views[i], #[trigger] p2[i]) by {
                            if i < j {
                                assert(p2[i] == parts[i]);
                            }
                        }
                        assert forall|i: int| 0 <= i < p2.len() implies (#[trigger] p2[i]).len() > 0 by {
                            if i < j {
                                assert(p2[i] == parts[i]);
                            }
                        }
                        parts = p2;
                    }
                    j = j + 1;
                }
                let r = vec![(ent, statements)];
                proof {
                    assert(parts.len() == views.len());
                    assert(parts.len() == 0 || parts.last().len() > 0);
                    assert(entailment_of(r@[0].0, rule, s0));
                }
                r
            },
            Formula::Conclusion(c) => {
                let r = deduce_from_conclusion(rule, c, substitution, generator);
                r
            },
        }
    }
}


impl FormulaRule {
    /// Whether the rule's formula starts with an existential quantifier
    /// (a hypothesis to match); the other rules hold without one.
    pub fn is_existential(&self) -> (r: bool)
        ensures
            r == (self.formula is Exists),
    {
        match &self.formula {
            Formula::Exists(_) => true,
            _ => false,
        }
    }
}

/// What the rules that are not existential deduce from nothing: the
/// deductions of each such rule, in order, from the empty substitution (see
/// `formula_deduced`); an existential rule deduces nothing here.
pub open spec fn universal_deduced(dataset: Standard, resources: Seq<Id>, rules: Seq<FormulaRule>, r: Seq<SubDeduction>) -> bool {
    exists|parts: Seq<Seq<SubDeduction>>| #[trigger] universal_parts(dataset, resources, rules, parts, r)
}

/// The deductions `parts` of the rules `rules`, one entry per rule, and
/// `r`, all of them in order.
pub open spec fn universal_parts(
    dataset: Standard,
    resources: Seq<Id>,
    rules: Seq<FormulaRule>,
    parts: Seq<Seq<SubDeduction>>,
    r: Seq<SubDeduction>,
) -> bool {
    &&& parts.len() == rules.len()
    &&& forall|k: int| 0 <= k < rules.len() ==> if rules[k].formula is Exists {
        (#[trigger] parts[k]).len() == 0
    } else {
        formula_deduced(dataset, resources, rules[k].id, rules[k].formula, Map::empty(), parts[k])
    }
    &&& r == parts.flatten()
}

impl System {
    /// What the rules that are not existential deduce (see
    /// `universal_deduced`), new resources coming from `generator`.
    pub fn deduce_from_universal_rules<G: ResourceGenerator>(
        &self,
        rules: &Vec<FormulaRule>,
        dataset: &Standard,
        resources: &Vec<Id>,
        generator: &mut G,
    ) -> (r: Vec<SubDeduction>)
        requires
            dataset.wf(),
        ensures
            universal_deduced(*dataset, resources@, rules@, r@),
    {
        let ghost mut parts: Seq<Seq<SubDeduction>> = Seq::empty();
        let mut r: Vec<SubDeduction> = Vec::new();
        let mut k: usize = 0;
        while k < rules.len()
            invariant
                dataset.wf(),
                k <= rules@.len(),
                universal_parts(*dataset, resources@, rules@.take(k as int), parts, r@),
            decreases rules@.len() - k,
        {
            let rule = &rules[k];
            let ghost part: Seq<SubDeduction>;
            if rule.is_existential() {
                proof {
                    part = Seq::empty();
                }
            } else {
                let mut d = self.deduce_from_formula(dataset, resources, rule.id, &rule.formula, PatternSubstitution::new(), generator);
                proof {
                    part = d@;
                }
                r.append(&mut d);
            }
            proof {
                parts.lemma_flatten_push(part);
                let p2 = parts.push(part);
                let rs = rules@.take(k + 1);
                assert(rs.drop_last() =~= rules@.take(k as int));
                assert forall|i: int| 0 <= i < rs.len() implies if rs[i].formula is Exists {
                    (#[trigger] p2[i]).len() == 0
                } else {
                    formula_deduced(*dataset, resources@, rs[i].id, rs[i].formula, Map::empty(), p2[i])
                } by {
                    if i < k {
                        assert(p2[i] == parts[i]);
                        assert(rs[i] == rules@.take(k as int)[i]);
                    }
                }
                assert(r@ =~= p2.flatten());
                parts = p2;
            }
            k = k + 1;
        }
        proof {
            assert(rules@.take(k as int) =~= rules@);
            assert(universal_parts(*dataset, resources@, rules@, parts, r@));
        }
        r
    }
}

} // verus!
