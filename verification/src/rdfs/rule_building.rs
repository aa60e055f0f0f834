//! Building inference rules from parsed rules: each IRI reference resolved
//! in the context and interpreted as a resource, each variable numbered by
//! the rule's scope.
use vstd::prelude::*;

use crate::id::Id;
use crate::inference::formula::{
    formula_view, Conclusion, Exists, ForAll, Formula, FormulaRule, FormulaView, Variable,
};
use crate::inference::rule::{Hypothesis, StatementPattern};
use crate::pattern::{IdOrVar, Pattern};
use crate::rdfs::building::{
    error_model, formula_vars, pattern_vars, patterns_vars, reference_resolution, statement_vars, statements_vars,
    Context, Error, ErrorModel, Scope,
};
use crate::rdfs::model::{
    expr_model, formula_model, iri_reference_model, patterns_model, statements_model, ExprModel, FormulaModel,
    IriReferenceModel, MaybeTrustedStatementModel, PatternModel, SignedPatternModel, StatementModel,
};
use crate::rdfs::{
    Expr, Formula as RuleFormula, IriBuf, MaybeTrustedStatement, Pattern as RulePattern, Rule, SignedPattern, Span,
    Statement,
};
use crate::semantics::{MaybeTrusted, Trust};
use crate::interpretation::local::Interpretation;
use crate::sign::{Sign, Signed};
use crate::uninterpreted::Term;
use crate::Meta;

verus! {

/// Interpretation of the IRIs that rules name, as resources.
pub trait BuildInterpretation {
    type Error;

    /// The resource an IRI stands for, once it is interpreted.
    spec fn interpreted(&self, iri: Seq<char>) -> Option<Id>;

    /// The resource `iri` is interpreted as: the one it stands for already,
    /// or one it stands for from then on. The IRIs already interpreted keep
    /// their resources.
    fn interpret_iri(&mut self, iri: IriBuf) -> (r: Result<Id, Self::Error>)
        ensures
            forall|x: Seq<char>| #[trigger] old(self).interpreted(x) is Some ==> final(self).interpreted(x) == old(self).interpreted(x),
            match r {
                Ok(id) => final(self).interpreted(iri@) == Some(id),
                Err(_) => true,
            },
    ;
}

/// There is no room left for a new resource.
#[derive(Debug, Clone, Copy, PartialEq, Eq, Structural)]
pub struct NoRoom;

/// IRIs numbered in the order they are first interpreted, each interpreted
/// in a local interpretation as the IRI term of its number.
pub struct IriInterpretation {
    iris: Vec<String>,
    interpretation: Interpretation,
}

impl IriInterpretation {
    #[verifier::type_invariant]
    spec fn inv(self) -> bool {
        &&& self.interpretation.wf()
        &&& self.names().no_duplicates()
        &&& self.iris@.len() < u32::MAX
        &&& forall|k: int| 0 <= k < self.iris@.len() ==> (#[trigger] self.interpretation.interpretation_of(Term::Iri(k as u32))) is Some
    }

    /// The IRIs, by number.
    pub closed spec fn names(&self) -> Seq<Seq<char>> {
        self.iris@.map_values(|s: String| s@)
    }

    /// The local interpretation.
    pub closed spec fn local(&self) -> Interpretation {
        self.interpretation
    }

    /// No IRI and no resource.
    pub fn new() -> (r: IriInterpretation)
        ensures
            r.names() == Seq::<Seq<char>>::empty(),
            r.local().resources() == Map::<usize, crate::interpretation::local::ResourceView>::empty(),
    {
        let r = IriInterpretation { iris: Vec::new(), interpretation: Interpretation::new() };
        proof {
            assert(r.names() =~= Seq::<Seq<char>>::empty());
        }
        r
    }

    /// The local interpretation the IRIs are interpreted in.
    pub fn interpretation(&self) -> (r: &Interpretation)
        ensures
            *r == self.local(),
            r.wf(),
    {
        proof {
            use_type_invariant(self);
        }
        &self.interpretation
    }
}

impl BuildInterpretation for IriInterpretation {
    type Error = NoRoom;

    /// The resource of the IRI term numbered as the IRI, once numbered.
    closed spec fn interpreted(&self, iri: Seq<char>) -> Option<Id> {
        if self.names().contains(iri) {
            self.interpretation.interpretation_of(Term::Iri(self.names().index_of(iri) as u32))
        } else {
            None
        }
    }

    /// Numbers the IRI if it is new, then interprets its term; there is no
    /// room when 32-bit numbers or identifiers run out.
    fn interpret_iri(&mut self, iri: IriBuf) -> (r: Result<Id, NoRoom>) {
        let mut current = IriInterpretation::new();
        std::mem::swap(self, &mut current);
        proof {
            use_type_invariant(&current);
        }
        let ghost before = current;
        let IriInterpretation { mut iris, mut interpretation } = current;
        let text = iri.as_str().to_owned();
        let ghost names = iris@.map_values(|s: String| s@);
        let mut k: usize = 0;
        while k < iris.len()
            invariant
                k <= iris@.len(),
                names == iris@.map_values(|s: String| s@),
                text@ == iri@,
                forall|t: int| 0 <= t < k ==> names[t] != iri@,
            ensures
                k <= iris@.len(),
                forall|t: int| 0 <= t < k ==> names[t] != iri@,
                k < iris@.len() ==> names[k as int] == iri@,
            decreases iris@.len() - k,
        {
            if iris[k] == text {
                proof {
                    assert(names[k as int] == iris@[k as int]@);
                }
                break;
            }
            k = k + 1;
        }
        if k < iris.len() {
            proof {
                assert(names[k as int] == iri@);
                assert(names.contains(iri@));
                assert(names.index_of(iri@) == k as int) by {
                    let j = names.index_of(iri@);
                    assert(names[j] == iri@);
                }
                assert(interpretation.interpretation_of(Term::Iri(k as u32)) is Some);
            }
            let id = interpretation.insert_term(Term::Iri(k as u32));
            *self = IriInterpretation { iris, interpretation };
            proof {
                assert(self.names() == names);
                assert(self.interpreted(iri@) == Some(id));
                assert forall|x: Seq<char>| #[trigger] before.interpreted(x) is Some implies self.interpreted(x)
                    == before.interpreted(x) by {
                    assert(self.names() == before.names());
                }
            }
            Ok(id)
        } else {
            if !interpretation.room_left() || iris.len() >= 0xffff_fffe {
                *self = IriInterpretation { iris, interpretation };
                proof {
                    assert(self.names() == before.names());
                }
                return Err(NoRoom);
            }
            let ghost i0 = interpretation;
            let id = interpretation.insert_term(Term::Iri(k as u32));
            proof {
                assert forall|t: int| 0 <= t < iris@.len() implies (#[trigger] interpretation.interpretation_of(
                    Term::Iri(t as u32),
                )) is Some by {
                    assert(i0.interpretation_of(Term::Iri(t as u32)) is Some);
                    assert(Term::Iri(t as u32) != Term::Iri(k as u32));
                }
            }
            iris.push(text);
            let ghost names2 = iris@.map_values(|s: String| s@);
            proof {
                assert(names2 =~= names.push(iri@));
                assert(!names.contains(iri@));
            }
            *self = IriInterpretation { iris, interpretation };
            proof {
                assert(self.names() == names2);
                assert(names2.index_of(iri@) == k as int) by {
                    let j = names2.index_of(iri@);
                    assert(names2[k as int] == iri@);
                    assert(names2[j] == iri@);
                }
                assert(names2[k as int] == iri@);
                assert(names2.contains(iri@));
                assert(self.interpreted(iri@) == Some(id));
                assert forall|x: Seq<char>| #[trigger] before.interpreted(x) is Some implies self.interpreted(x)
                    == before.interpreted(x) by {
                    assert(before.names().contains(x));
                    let j = names.index_of(x);
                    assert(names[j] == x);
                    assert(names2[j] == x);
                    assert(names2.index_of(x) == j) by {
                        let j2 = names2.index_of(x);
                        assert(names2[j2] == x);
                        assert(names2.no_duplicates());
                    }
                    assert(Term::Iri(j as u32) != Term::Iri(k as u32));
                }
            }
            Ok(id)
        }
    }
}

/// Whether `after` keeps every IRI `before` interprets.
pub open spec fn keeps<I: BuildInterpretation>(before: I, after: I) -> bool {
    forall|x: Seq<char>| #[trigger] before.interpreted(x) is Some ==> after.interpreted(x) == before.interpreted(x)
}

/// The IRI a reference stands for in the context, when it resolves.
pub open spec fn resolved(x: (IriReferenceModel, Span), ctx: Context) -> Seq<char> {
    match reference_resolution(x.0, ctx.base(), ctx.prefixes()) {
        Ok(v) => v,
        Err(_) => Seq::empty(),
    }
}

/// Whether `ids` are, in order, the resources the interpretation gives
/// the IRIs the references stand for.
pub open spec fn interprets<I: BuildInterpretation>(
    interp: I,
    refs: Seq<(IriReferenceModel, Span)>,
    ctx: Context,
    ids: Seq<Id>,
) -> bool {
    &&& ids.len() == refs.len()
    &&& forall|j: int| 0 <= j < refs.len() ==> interp.interpreted(#[trigger] resolved(refs[j], ctx)) == Some(ids[j])
}

/// The resources the interpretation gives the IRIs the references stand
/// for, in order.
pub open spec fn interpreted_ids<I: BuildInterpretation>(interp: I, refs: Seq<(IriReferenceModel, Span)>, ctx: Context) -> Seq<
    Id,
> {
    refs.map_values(|x: (IriReferenceModel, Span)| interp.interpreted(resolved(x, ctx)).unwrap())
}

proof fn lemma_keeps_trans<I: BuildInterpretation>(a: I, b: I, c: I)
    requires
        keeps(a, b),
        keeps(b, c),
    ensures
        keeps(a, c),
{
    assert forall|x: Seq<char>| #[trigger] a.interpreted(x) is Some implies c.interpreted(x) == a.interpreted(x) by {
        assert(b.interpreted(x) == a.interpreted(x));
    }
}

proof fn lemma_interprets_kept<I: BuildInterpretation>(
    a: I,
    b: I,
    refs: Seq<(IriReferenceModel, Span)>,
    ctx: Context,
    ids: Seq<Id>,
)
    requires
        interprets(a, refs, ctx, ids),
        keeps(a, b),
    ensures
        interprets(b, refs, ctx, ids),
{
    assert forall|j: int| 0 <= j < refs.len() implies b.interpreted(#[trigger] resolved(refs[j], ctx)) == Some(ids[j]) by {
        assert(a.interpreted(resolved(refs[j], ctx)) == Some(ids[j]));
    }
}

proof fn lemma_interprets_concat<I: BuildInterpretation>(
    i: I,
    a: Seq<(IriReferenceModel, Span)>,
    b: Seq<(IriReferenceModel, Span)>,
    ctx: Context,
    ia: Seq<Id>,
    ib: Seq<Id>,
)
    requires
        interprets(i, a, ctx, ia),
        interprets(i, b, ctx, ib),
    ensures
        interprets(i, a + b, ctx, ia + ib),
{
    assert forall|j: int| 0 <= j < (a + b).len() implies i.interpreted(#[trigger] resolved((a + b)[j], ctx)) == Some(
        (ia + ib)[j],
    ) by {
        if j < a.len() {
            assert((a + b)[j] == a[j]);
            assert(i.interpreted(resolved(a[j], ctx)) == Some(ia[j]));
        } else {
            assert((a + b)[j] == b[j - a.len()]);
            assert(i.interpreted(resolved(b[j - a.len()], ctx)) == Some(ib[j - a.len()]));
        }
    }
}

/// Ids that the interpretation gives the references are the interpreted
/// ones.
proof fn lemma_interprets_ids<I: BuildInterpretation>(
    i: I,
    refs: Seq<(IriReferenceModel, Span)>,
    ctx: Context,
    ids: Seq<Id>,
)
    requires
        interprets(i, refs, ctx, ids),
    ensures
        ids == interpreted_ids(i, refs, ctx),
{
    assert forall|j: int| 0 <= j < ids.len() implies ids[j] == interpreted_ids(i, refs, ctx)[j] by {
        assert(i.interpreted(resolved(refs[j], ctx)) == Some(ids[j]));
    }
    assert(ids =~= interpreted_ids(i, refs, ctx));
}

/// Error while building a rule: an IRI reference that does not resolve,
/// or an IRI the interpretation refused.
pub enum BuildError<E> {
    Iri(Error),
    Interpretation(E),
}

/// The IRI reference of an expression, if it is one, with its span.
pub open spec fn expr_refs(e: (ExprModel, Span)) -> Seq<(IriReferenceModel, Span)> {
    match e.0 {
        ExprModel::IriRef(r) => seq![(r, e.1)],
        ExprModel::Var(_) => Seq::empty(),
    }
}

pub open spec fn pattern_refs(p: PatternModel) -> Seq<(IriReferenceModel, Span)> {
    expr_refs(p.subject) + expr_refs(p.predicate) + expr_refs(p.object)
}

pub open spec fn patterns_refs(ps: Seq<(SignedPatternModel, Span)>) -> Seq<(IriReferenceModel, Span)>
    decreases ps.len(),
{
    if ps.len() == 0 {
        Seq::empty()
    } else {
        patterns_refs(ps.drop_last()) + pattern_refs(ps.last().0.pattern.0)
    }
}

pub open spec fn statement_refs(s: StatementModel) -> Seq<(IriReferenceModel, Span)> {
    match s {
        StatementModel::Eq(a, b) => expr_refs(a) + expr_refs(b),
        StatementModel::Pattern(p) => pattern_refs(p),
    }
}

pub open spec fn statements_refs(ss: Seq<(MaybeTrustedStatementModel, Span)>) -> Seq<(IriReferenceModel, Span)>
    decreases ss.len(),
{
    if ss.len() == 0 {
        Seq::empty()
    } else {
        statements_refs(ss.drop_last()) + statement_refs(ss.last().0.statement.0.statement.0)
    }
}

/// The IRI references of a formula, with their spans, in the order they
/// occur.
pub open spec fn formula_refs(f: FormulaModel) -> Seq<(IriReferenceModel, Span)>
    decreases f,
{
    match f {
        FormulaModel::ForAll { constraints, inner, .. } => patterns_refs(constraints.0) + formula_refs(inner.0),
        FormulaModel::Exists { hypothesis, inner, .. } => patterns_refs(hypothesis.0) + formula_refs(inner.0),
        FormulaModel::Conclusion(c) => statements_refs(c),
    }
}

/// Whether the reference resolves in the context.
pub open spec fn resolves(x: (IriReferenceModel, Span), ctx: Context) -> bool {
    reference_resolution(x.0, ctx.base(), ctx.prefixes()) is Ok
}

pub open spec fn all_resolve(refs: Seq<(IriReferenceModel, Span)>, ctx: Context) -> bool {
    forall|j: int| 0 <= j < refs.len() ==> resolves(#[trigger] refs[j], ctx)
}

/// Whether reference `k` is the first that does not resolve, failing with
/// `e`, at `span`.
pub open spec fn fails_at(refs: Seq<(IriReferenceModel, Span)>, ctx: Context, k: int, e: ErrorModel, span: Span) -> bool {
    &&& 0 <= k < refs.len()
    &&& forall|j: int| 0 <= j < k ==> resolves(#[trigger] refs[j], ctx)
    &&& reference_resolution(refs[k].0, ctx.base(), ctx.prefixes()) == Err::<Seq<char>, ErrorModel>(e)
    &&& refs[k].1 == span
}

/// The error of a result, if any.
pub open spec fn error_of<T, E>(r: Result<T, E>) -> Option<E> {
    match r {
        Ok(_) => None,
        Err(e) => Some(e),
    }
}

/// How building over the references `refs`, in order, may end: with
/// success only when every reference resolves; with a resolution error
/// exactly at the first reference that does not resolve; with an error of
/// the interpretation otherwise.
pub open spec fn outcome<E>(err: Option<Meta<BuildError<E>, Span>>, refs: Seq<(IriReferenceModel, Span)>, ctx: Context) -> bool {
    match err {
        None => all_resolve(refs, ctx),
        Some(m) => match m.0 {
            BuildError::Iri(e) => exists|k: int| fails_at(refs, ctx, k, error_model(e), m.1),
            BuildError::Interpretation(_) => true,
        },
    }
}

/// Whether `after` is `before` followed by `n` more identifiers.
pub open spec fn extends_by(before: Seq<Id>, after: Seq<Id>, n: nat) -> bool {
    &&& after.len() == before.len() + n
    &&& after.subrange(0, before.len() as int) == before
}

/// The number of a variable in the scope `names`.
pub open spec fn var_number(names: Seq<Seq<char>>, x: Seq<char>) -> usize {
    names.index_of(x) as usize
}

/// The built expression: a numbered variable, or the resource `ids[0]`.
pub open spec fn expr_build(e: ExprModel, names: Seq<Seq<char>>, ids: Seq<Id>) -> IdOrVar {
    match e {
        ExprModel::Var(x) => IdOrVar::Var(var_number(names, x)),
        ExprModel::IriRef(_) => IdOrVar::Id(ids[0]),
    }
}

/// The built pattern, `ids` being the resources of its references.
pub open spec fn pattern_build(p: PatternModel, names: Seq<Seq<char>>, ids: Seq<Id>) -> Pattern {
    let a = expr_refs(p.subject).len() as int;
    let b = a + expr_refs(p.predicate).len();
    Pattern(
        expr_build(p.subject.0, names, ids.subrange(0, a)),
        expr_build(p.predicate.0, names, ids.subrange(a, b)),
        expr_build(p.object.0, names, ids.subrange(b, ids.len() as int)),
    )
}

pub open spec fn sign_of(negative: Option<Span>) -> Sign {
    if negative is Some {
        Sign::Negative
    } else {
        Sign::Positive
    }
}

pub open spec fn patterns_build(ps: Seq<(SignedPatternModel, Span)>, names: Seq<Seq<char>>, ids: Seq<Id>) -> Seq<
    Signed<Pattern>,
>
    decreases ps.len(),
{
    if ps.len() == 0 {
        Seq::empty()
    } else {
        let k = patterns_refs(ps.drop_last()).len() as int;
        patterns_build(ps.drop_last(), names, ids.subrange(0, k)).push(
            Signed(sign_of(ps.last().0.negative), pattern_build(ps.last().0.pattern.0, names, ids.subrange(k, ids.len() as int))),
        )
    }
}

pub open spec fn statement_build(s: StatementModel, names: Seq<Seq<char>>, ids: Seq<Id>) -> StatementPattern {
    match s {
        StatementModel::Eq(a, b) => {
            let k = expr_refs(a).len() as int;
            StatementPattern::Eq(
                expr_build(a.0, names, ids.subrange(0, k)),
                expr_build(b.0, names, ids.subrange(k, ids.len() as int)),
            )
        },
        StatementModel::Pattern(p) => StatementPattern::Triple(pattern_build(p, names, ids)),
    }
}

/// `v`, trusted or not as `t` says.
pub open spec fn with_trust<T>(t: Trust, v: T) -> MaybeTrusted<T> {
    match t {
        Trust::Trusted => MaybeTrusted::Trusted(v),
        Trust::Untrusted => MaybeTrusted::Untrusted(v),
    }
}

/// The built statements, each with its sign and its trust.
pub open spec fn statements_build(ss: Seq<(MaybeTrustedStatementModel, Span)>, names: Seq<Seq<char>>, ids: Seq<Id>) -> Seq<
    MaybeTrusted<Signed<StatementPattern>>,
>
    decreases ss.len(),
{
    if ss.len() == 0 {
        Seq::empty()
    } else {
        let k = statements_refs(ss.drop_last()).len() as int;
        let s = ss.last().0.statement.0;
        statements_build(ss.drop_last(), names, ids.subrange(0, k)).push(
            with_trust(
                ss.last().0.trust.0,
                Signed(sign_of(s.negative), statement_build(s.statement.0, names, ids.subrange(k, ids.len() as int))),
            ),
        )
    }
}

/// The variables bound by a quantifier, numbered and named.
pub open spec fn binders_build(vs: Seq<(Seq<char>, Span)>, names: Seq<Seq<char>>) -> Seq<(usize, Option<Seq<char>>)> {
    vs.map_values(|v: (Seq<char>, Span)| (var_number(names, v.0), Some(v.0)))
}

/// The built formula, `ids` being the resources of its references.
pub open spec fn formula_build(f: FormulaModel, names: Seq<Seq<char>>, ids: Seq<Id>) -> FormulaView
    decreases f,
{
    match f {
        FormulaModel::ForAll { variables, constraints, inner } => {
            let k = patterns_refs(constraints.0).len() as int;
            FormulaView::ForAll(
                binders_build(variables, names),
                patterns_build(constraints.0, names, ids.subrange(0, k)),
                Box::new(formula_build(inner.0, names, ids.subrange(k, ids.len() as int))),
            )
        },
        FormulaModel::Exists { variables, hypothesis, inner } => {
            let k = patterns_refs(hypothesis.0).len() as int;
            FormulaView::Exists(
                binders_build(variables, names),
                patterns_build(hypothesis.0, names, ids.subrange(0, k)),
                Box::new(formula_build(inner.0, names, ids.subrange(k, ids.len() as int))),
            )
        },
        FormulaModel::Conclusion(c) => FormulaView::Conclusion(Seq::empty(), statements_build(c, names, ids)),
    }
}

/// Whether every variable bound by a quantifier of the formula is among
/// `names`.
pub open spec fn binders_in(f: FormulaModel, names: Seq<Seq<char>>) -> bool
    decreases f,
{
    match f {
        FormulaModel::ForAll { variables, inner, .. } => {
            &&& forall|j: int| 0 <= j < variables.len() ==> names.contains(#[trigger] variables[j].0)
            &&& binders_in(inner.0, names)
        },
        FormulaModel::Exists { variables, inner, .. } => {
            &&& forall|j: int| 0 <= j < variables.len() ==> names.contains(#[trigger] variables[j].0)
            &&& binders_in(inner.0, names)
        },
        FormulaModel::Conclusion(_) => true,
    }
}

/// Whether every element of `a` is among `names`.
pub open spec fn all_in(a: Seq<Seq<char>>, names: Seq<Seq<char>>) -> bool {
    forall|j: int| 0 <= j < a.len() ==> names.contains(#[trigger] a[j])
}

/// Building over references all of which resolve, then over more, ends as
/// building over the latter.
proof fn lemma_outcome_after<E>(
    a: Seq<(IriReferenceModel, Span)>,
    b: Seq<(IriReferenceModel, Span)>,
    ctx: Context,
    err: Option<Meta<BuildError<E>, Span>>,
)
    requires
        all_resolve(a, ctx),
        outcome(err, b, ctx),
    ensures
        outcome(err, a + b, ctx),
{
    match err {
        None => {
            assert forall|j: int| 0 <= j < (a + b).len() implies resolves(#[trigger] (a + b)[j], ctx) by {
                if j < a.len() {
                    assert((a + b)[j] == a[j]);
                } else {
                    assert((a + b)[j] == b[j - a.len()]);
                }
            }
        },
        Some(m) => match m.0 {
            BuildError::Iri(e) => {
                let k = choose|k: int| fails_at(b, ctx, k, error_model(e), m.1);
                let ab = a + b;
                assert forall|j: int| 0 <= j < a.len() + k implies resolves(#[trigger] ab[j], ctx) by {
                    if j < a.len() {
                        assert(ab[j] == a[j]);
                    } else {
                        assert(ab[j] == b[j - a.len()]);
                    }
                }
                assert(ab[a.len() + k] == b[k]);
                assert(fails_at(ab, ctx, a.len() + k, error_model(e), m.1));
            },
            BuildError::Interpretation(_) => {},
        },
    }
}

/// An error while building over a prefix of the references is an error
/// while building over all of them.
proof fn lemma_outcome_prefix<E>(
    a: Seq<(IriReferenceModel, Span)>,
    full: Seq<(IriReferenceModel, Span)>,
    ctx: Context,
    err: Option<Meta<BuildError<E>, Span>>,
)
    requires
        a.len() <= full.len(),
        full.subrange(0, a.len() as int) == a,
        err is Some,
        outcome(err, a, ctx),
    ensures
        outcome(err, full, ctx),
{
    let m = err.unwrap();
    match m.0 {
        BuildError::Iri(e) => {
            let k = choose|k: int| fails_at(a, ctx, k, error_model(e), m.1);
            assert forall|j: int| 0 <= j < k implies resolves(#[trigger] full[j], ctx) by {
                assert(full[j] == full.subrange(0, a.len() as int)[j]);
            }
            assert(full[k] == full.subrange(0, a.len() as int)[k]);
            assert(fails_at(full, ctx, k, error_model(e), m.1));
        },
        BuildError::Interpretation(_) => {},
    }
}

proof fn lemma_prefix_concat<A>(a: Seq<A>, b: Seq<A>)
    ensures
        (a + b).subrange(0, a.len() as int) == a,
{
    assert((a + b).subrange(0, a.len() as int) =~= a);
}

/// Identifiers added in two steps.
proof fn lemma_extends_trans(o: Seq<Id>, m: Seq<Id>, f: Seq<Id>, n1: nat, n2: nat)
    requires
        extends_by(o, m, n1),
        extends_by(m, f, n2),
    ensures
        extends_by(o, f, n1 + n2),
        f.subrange(o.len() as int, f.len() as int).subrange(0, n1 as int) == m.subrange(o.len() as int, m.len() as int),
        f.subrange(o.len() as int, f.len() as int).subrange(n1 as int, (n1 + n2) as int) == f.subrange(
            m.len() as int,
            f.len() as int,
        ),
{
    assert forall|j: int| 0 <= j < o.len() implies f[j] == o[j] by {
        assert(f.subrange(0, m.len() as int)[j] == f[j]);
        assert(m.subrange(0, o.len() as int)[j] == m[j]);
    }
    assert(f.subrange(0, o.len() as int) =~= o);
    assert(f.subrange(o.len() as int, f.len() as int).subrange(0, n1 as int) =~= m.subrange(o.len() as int, m.len() as int));
    assert(f.subrange(o.len() as int, f.len() as int).subrange(n1 as int, (n1 + n2) as int) =~= f.subrange(
        m.len() as int,
        f.len() as int,
    ));
}

/// The references of the first patterns come first.
proof fn lemma_patterns_refs_take(ps: Seq<(SignedPatternModel, Span)>, j: int)
    requires
        0 <= j <= ps.len(),
    ensures
        patterns_refs(ps.take(j)).len() <= patterns_refs(ps).len(),
        patterns_refs(ps).subrange(0, patterns_refs(ps.take(j)).len() as int) == patterns_refs(ps.take(j)),
    decreases ps.len(),
{
    if j == ps.len() {
        assert(ps.take(j) =~= ps);
        assert(patterns_refs(ps).subrange(0, patterns_refs(ps).len() as int) =~= patterns_refs(ps));
    } else {
        lemma_patterns_refs_take(ps.drop_last(), j);
        assert(ps.drop_last().take(j) =~= ps.take(j));
        let a = patterns_refs(ps.drop_last());
        let t = patterns_refs(ps.take(j));
        assert(patterns_refs(ps).subrange(0, t.len() as int) =~= a.subrange(0, t.len() as int));
    }
}

proof fn lemma_statements_refs_take(ss: Seq<(MaybeTrustedStatementModel, Span)>, j: int)
    requires
        0 <= j <= ss.len(),
    ensures
        statements_refs(ss.take(j)).len() <= statements_refs(ss).len(),
        statements_refs(ss).subrange(0, statements_refs(ss.take(j)).len() as int) == statements_refs(ss.take(j)),
    decreases ss.len(),
{
    if j == ss.len() {
        assert(ss.take(j) =~= ss);
        assert(statements_refs(ss).subrange(0, statements_refs(ss).len() as int) =~= statements_refs(ss));
    } else {
        lemma_statements_refs_take(ss.drop_last(), j);
        assert(ss.drop_last().take(j) =~= ss.take(j));
        let a = statements_refs(ss.drop_last());
        let t = statements_refs(ss.take(j));
        assert(statements_refs(ss).subrange(0, t.len() as int) =~= a.subrange(0, t.len() as int));
    }
}

/// The variables of each pattern are among those of the patterns.
proof fn lemma_patterns_vars_each(ps: Seq<(SignedPatternModel, Span)>, i: int)
    requires
        0 <= i < ps.len(),
    ensures
        forall|x: Seq<char>| pattern_vars(ps[i].0.pattern.0).contains(x) ==> #[trigger] patterns_vars(ps).contains(x),
    decreases ps.len(),
{
    let a = patterns_vars(ps.drop_last());
    let b = pattern_vars(ps.last().0.pattern.0);
    if i == ps.len() - 1 {
        assert forall|x: Seq<char>| b.contains(x) implies #[trigger] (a + b).contains(x) by {
            let t = choose|t: int| 0 <= t < b.len() && b[t] == x;
            assert((a + b)[a.len() + t] == x);
        }
    } else {
        lemma_patterns_vars_each(ps.drop_last(), i);
        assert(ps.drop_last()[i] == ps[i]);
        assert forall|x: Seq<char>| a.contains(x) implies #[trigger] (a + b).contains(x) by {
            let t = choose|t: int| 0 <= t < a.len() && a[t] == x;
            assert((a + b)[t] == x);
        }
    }
}

proof fn lemma_statements_vars_each(ss: Seq<(MaybeTrustedStatementModel, Span)>, i: int)
    requires
        0 <= i < ss.len(),
    ensures
        forall|x: Seq<char>| statement_vars(ss[i].0.statement.0.statement.0).contains(x) ==> #[trigger] statements_vars(
            ss,
        ).contains(x),
    decreases ss.len(),
{
    let a = statements_vars(ss.drop_last());
    let b = statement_vars(ss.last().0.statement.0.statement.0);
    if i == ss.len() - 1 {
        assert forall|x: Seq<char>| b.contains(x) implies #[trigger] (a + b).contains(x) by {
            let t = choose|t: int| 0 <= t < b.len() && b[t] == x;
            assert((a + b)[a.len() + t] == x);
        }
    } else {
        lemma_statements_vars_each(ss.drop_last(), i);
        assert(ss.drop_last()[i] == ss[i]);
        assert forall|x: Seq<char>| a.contains(x) implies #[trigger] (a + b).contains(x) by {
            let t = choose|t: int| 0 <= t < a.len() && a[t] == x;
            assert((a + b)[t] == x);
        }
    }
}

/// Every element of both parts of a concatenation.
proof fn lemma_all_in_concat(a: Seq<Seq<char>>, b: Seq<Seq<char>>, names: Seq<Seq<char>>)
    requires
        all_in(a + b, names),
    ensures
        all_in(a, names),
        all_in(b, names),
{
    assert forall|j: int| 0 <= j < a.len() implies names.contains(#[trigger] a[j]) by {
        assert((a + b)[j] == a[j]);
    }
    assert forall|j: int| 0 <= j < b.len() implies names.contains(#[trigger] b[j]) by {
        assert((a + b)[a.len() + j] == b[j]);
    }
}

/// The number of a declared variable.
fn var_of(scope: &Scope, x: &crate::rdfs::VarIdent) -> (r: usize)
    requires
        scope.wf(),
        scope.names().contains(x.0@),
    ensures
        r == var_number(scope.names(), x.0@),
{
    let i = scope.get(x).unwrap();
    proof {
        let n = scope.names();
        let j = n.index_of(x.0@);
        assert(n[j] == x.0@);
        assert(n.no_duplicates());
    }
    i
}

/// Builds an expression, interpreting its IRI reference.
fn build_expr<I: BuildInterpretation>(
    e: &Meta<Expr, Span>,
    context: &Context,
    scope: &Scope,
    interp: &mut I,
    ids: &mut Vec<Id>,
) -> (r: Result<IdOrVar, Meta<BuildError<I::Error>, Span>>)
    requires
        scope.wf(),
        all_in(crate::rdfs::building::expr_vars(expr_model(e.0)), scope.names()),
    ensures
        outcome(error_of(r), expr_refs((expr_model(e.0), e.1)), *context),
        keeps(*old(interp), *final(interp)),
        match r {
            Ok(v) => {
                &&& extends_by(old(ids)@, final(ids)@, expr_refs((expr_model(e.0), e.1)).len())
                &&& interprets(*final(interp), expr_refs((expr_model(e.0), e.1)), *context, final(ids)@.subrange(old(ids)@.len() as int, final(ids)@.len() as int))
                &&& v == expr_build(
                    expr_model(e.0),
                    scope.names(),
                    final(ids)@.subrange(old(ids)@.len() as int, final(ids)@.len() as int),
                )
            },
            Err(_) => true,
        },
{
    match &e.0 {
        Expr::Var(x) => {
            proof {
                assert(crate::rdfs::building::expr_vars(expr_model(e.0))[0] == x.0@);
                assert(ids@.subrange(0, ids@.len() as int) =~= ids@);
            }
            Ok(IdOrVar::Var(var_of(scope, x)))
        },
        Expr::IriRef(r) => match r.resolve(context, e.1) {
            Ok(iri) => {
                let ghost iv = iri@;
                match interp.interpret_iri(iri) {
                Ok(id) => {
                    ids.push(id);
                    proof {
                        let refs = expr_refs((expr_model(e.0), e.1));
                        assert(resolved(refs[0], *context) == iv);
                        assert(ids@.subrange(old(ids)@.len() as int, ids@.len() as int) =~= seq![id]);
                        assert(refs[0] == (iri_reference_model(*r), e.1));
                        assert(resolves(refs[0], *context));
                        assert(all_resolve(refs, *context));
                        assert(ids@.subrange(0, old(ids)@.len() as int) =~= old(ids)@);
                    }
                    Ok(IdOrVar::Id(id))
                },
                Err(x) => Err(Meta(BuildError::Interpretation(x), e.1)),
                }
            },
            Err(m) => {
                proof {
                    let refs = expr_refs((expr_model(e.0), e.1));
                    assert(fails_at(refs, *context, 0, error_model(m.0), m.1));
                }
                let r = Err(Meta(BuildError::Iri(m.0), m.1));
                proof {
                    let refs = expr_refs((expr_model(e.0), e.1));
                    let er = error_of(r).unwrap();
                    assert(er.1 == m.1);
                    assert(er.0 is Iri);
                    assert(er.0->Iri_0 == m.0);
                    assert(fails_at(refs, *context, 0, error_model(er.0->Iri_0), er.1));
                    assert(outcome(error_of(r), refs, *context));
                }
                r
            },
        },
    }
}

/// Builds three expressions in turn: how it ends, and what it gives.
proof fn lemma_three<E>(
    ctx: Context,
    o: Seq<Id>,
    m1: Seq<Id>,
    m2: Seq<Id>,
    f: Seq<Id>,
    a: Seq<(IriReferenceModel, Span)>,
    b: Seq<(IriReferenceModel, Span)>,
    c: Seq<(IriReferenceModel, Span)>,
)
    requires
        all_resolve(a, ctx),
        all_resolve(b, ctx),
        all_resolve(c, ctx),
        extends_by(o, m1, a.len()),
        extends_by(m1, m2, b.len()),
        extends_by(m2, f, c.len()),
    ensures
        all_resolve(a + b + c, ctx),
        extends_by(o, f, (a + b + c).len()),
        f.subrange(o.len() as int, f.len() as int).subrange(0, a.len() as int) == m1.subrange(o.len() as int, m1.len() as int),
        f.subrange(o.len() as int, f.len() as int).subrange(a.len() as int, (a.len() + b.len()) as int) == m2.subrange(
            m1.len() as int,
            m2.len() as int,
        ),
        f.subrange(o.len() as int, f.len() as int).subrange((a.len() + b.len()) as int, (a + b + c).len() as int)
            == f.subrange(m2.len() as int, f.len() as int),
{
    lemma_outcome_after::<E>(a, b, ctx, None);
    lemma_outcome_after::<E>(a + b, c, ctx, None);
    lemma_extends_trans(o, m1, m2, a.len(), b.len());
    lemma_extends_trans(o, m2, f, (a.len() + b.len()) as nat, c.len());
    lemma_extends_trans(m1, m2, f, b.len(), c.len());
    let g = f.subrange(o.len() as int, f.len() as int);
    assert(g.subrange(0, a.len() as int) =~= g.subrange(0, (a.len() + b.len()) as int).subrange(0, a.len() as int));
    lemma_extends_trans(o, m1, m2, a.len(), b.len());
    assert(g.subrange(a.len() as int, (a.len() + b.len()) as int) =~= g.subrange(0, (a.len() + b.len()) as int).subrange(
        a.len() as int,
        (a.len() + b.len()) as int,
    ));
}

/// An error in the second of three steps.
proof fn lemma_error_second<E>(
    ctx: Context,
    a: Seq<(IriReferenceModel, Span)>,
    b: Seq<(IriReferenceModel, Span)>,
    c: Seq<(IriReferenceModel, Span)>,
    err: Option<Meta<BuildError<E>, Span>>,
)
    requires
        all_resolve(a, ctx),
        err is Some,
        outcome(err, b, ctx),
    ensures
        outcome(err, a + b + c, ctx),
{
    lemma_outcome_after(a, b, ctx, err);
    lemma_prefix_concat(a + b, c);
    lemma_outcome_prefix(a + b, a + b + c, ctx, err);
}

/// An error in the first of three steps.
proof fn lemma_error_first<E>(
    ctx: Context,
    a: Seq<(IriReferenceModel, Span)>,
    b: Seq<(IriReferenceModel, Span)>,
    c: Seq<(IriReferenceModel, Span)>,
    err: Option<Meta<BuildError<E>, Span>>,
)
    requires
        err is Some,
        outcome(err, a, ctx),
    ensures
        outcome(err, a + b + c, ctx),
{
    assert((a + b + c).subrange(0, a.len() as int) =~= a);
    lemma_outcome_prefix(a, a + b + c, ctx, err);
}

/// Resources given in three steps, each kept by the later ones.
proof fn lemma_interprets_three<I: BuildInterpretation>(
    i1: I,
    i2: I,
    i3: I,
    ctx: Context,
    a: Seq<(IriReferenceModel, Span)>,
    b: Seq<(IriReferenceModel, Span)>,
    c: Seq<(IriReferenceModel, Span)>,
    s1: Seq<Id>,
    s2: Seq<Id>,
    s3: Seq<Id>,
)
    requires
        interprets(i1, a, ctx, s1),
        interprets(i2, b, ctx, s2),
        interprets(i3, c, ctx, s3),
        keeps(i1, i2),
        keeps(i2, i3),
    ensures
        interprets(i3, a + b + c, ctx, s1 + s2 + s3),
{
    lemma_keeps_trans(i1, i2, i3);
    lemma_interprets_kept(i1, i3, a, ctx, s1);
    lemma_interprets_kept(i2, i3, b, ctx, s2);
    lemma_interprets_concat(i3, a, b, ctx, s1, s2);
    lemma_interprets_concat(i3, a + b, c, ctx, s1 + s2, s3);
}

/// Resources given in two steps, the first kept by the second.
proof fn lemma_interprets_two<I: BuildInterpretation>(
    i1: I,
    i2: I,
    ctx: Context,
    a: Seq<(IriReferenceModel, Span)>,
    b: Seq<(IriReferenceModel, Span)>,
    o: Seq<Id>,
    m: Seq<Id>,
    f: Seq<Id>,
)
    requires
        interprets(i1, a, ctx, m.subrange(o.len() as int, m.len() as int)),
        keeps(i1, i2),
        interprets(i2, b, ctx, f.subrange(m.len() as int, f.len() as int)),
        extends_by(o, m, a.len()),
        extends_by(m, f, b.len()),
    ensures
        interprets(i2, a + b, ctx, f.subrange(o.len() as int, f.len() as int)),
{
    lemma_extends_trans(o, m, f, a.len(), b.len());
    let g = f.subrange(o.len() as int, f.len() as int);
    let s1 = m.subrange(o.len() as int, m.len() as int);
    let s2 = f.subrange(m.len() as int, f.len() as int);
    lemma_interprets_kept(i1, i2, a, ctx, s1);
    lemma_interprets_concat(i2, a, b, ctx, s1, s2);
    assert(g =~= s1 + s2) by {
        assert(g =~= g.subrange(0, a.len() as int) + g.subrange(a.len() as int, (a.len() + b.len()) as int));
    }
}

/// An error in the last of three steps.
proof fn lemma_error_third<E>(
    ctx: Context,
    a: Seq<(IriReferenceModel, Span)>,
    b: Seq<(IriReferenceModel, Span)>,
    c: Seq<(IriReferenceModel, Span)>,
    err: Option<Meta<BuildError<E>, Span>>,
)
    requires
        all_resolve(a, ctx),
        all_resolve(b, ctx),
        outcome(err, c, ctx),
    ensures
        outcome(err, a + b + c, ctx),
{
    lemma_outcome_after::<E>(a, b, ctx, None);
    lemma_outcome_after(a + b, c, ctx, err);
}

/// Builds a triple pattern.
fn build_pattern<I: BuildInterpretation>(
    p: &RulePattern,
    context: &Context,
    scope: &Scope,
    interp: &mut I,
    ids: &mut Vec<Id>,
) -> (r: Result<Pattern, Meta<BuildError<I::Error>, Span>>)
    requires
        scope.wf(),
        all_in(pattern_vars(crate::rdfs::model::pattern_model(*p)), scope.names()),
    ensures
        outcome(error_of(r), pattern_refs(crate::rdfs::model::pattern_model(*p)), *context),
        keeps(*old(interp), *final(interp)),
        match r {
            Ok(v) => {
                &&& extends_by(old(ids)@, final(ids)@, pattern_refs(crate::rdfs::model::pattern_model(*p)).len())
                &&& interprets(*final(interp), pattern_refs(crate::rdfs::model::pattern_model(*p)), *context, final(ids)@.subrange(old(ids)@.len() as int, final(ids)@.len() as int))
                &&& v == pattern_build(
                    crate::rdfs::model::pattern_model(*p),
                    scope.names(),
                    final(ids)@.subrange(old(ids)@.len() as int, final(ids)@.len() as int),
                )
            },
            Err(_) => true,
        },
{
    let ghost pm = crate::rdfs::model::pattern_model(*p);
    let ghost a = expr_refs(pm.subject);
    let ghost b = expr_refs(pm.predicate);
    let ghost c = expr_refs(pm.object);
    let ghost o = ids@;
    let ghost i0 = *interp;
    proof {
        let vs = crate::rdfs::building::expr_vars(pm.subject.0);
        let vp = crate::rdfs::building::expr_vars(pm.predicate.0);
        let vo = crate::rdfs::building::expr_vars(pm.object.0);
        lemma_all_in_concat(vs + vp, vo, scope.names());
        lemma_all_in_concat(vs, vp, scope.names());
    }
    let s = match build_expr(&p.subject, context, scope, interp, ids) {
        Ok(v) => v,
        Err(e) => {
            proof {
                lemma_error_first(*context, a, b, c, Some(e));
            }
            return Err(e);
        },
    };
    let ghost m1 = ids@;
    let ghost i1 = *interp;
    let pr = match build_expr(&p.predicate, context, scope, interp, ids) {
        Ok(v) => v,
        Err(e) => {
            proof {
                lemma_error_second(*context, a, b, c, Some(e));
                lemma_keeps_trans(i0, i1, *interp);
            }
            return Err(e);
        },
    };
    let ghost m2 = ids@;
    let ghost i2 = *interp;
    proof {
        lemma_keeps_trans(i0, i1, i2);
    }
    let ob = match build_expr(&p.object, context, scope, interp, ids) {
        Ok(v) => v,
        Err(e) => {
            proof {
                lemma_error_third(*context, a, b, c, Some(e));
                lemma_keeps_trans(i0, i2, *interp);
            }
            return Err(e);
        },
    };
    proof {
        lemma_three::<I::Error>(*context, o, m1, m2, ids@, a, b, c);
        lemma_keeps_trans(i0, i2, *interp);
        let g = ids@.subrange(o.len() as int, ids@.len() as int);
        let s1 = m1.subrange(o.len() as int, m1.len() as int);
        let s2 = m2.subrange(m1.len() as int, m2.len() as int);
        let s3 = ids@.subrange(m2.len() as int, ids@.len() as int);
        lemma_interprets_three(i1, i2, *interp, *context, a, b, c, s1, s2, s3);
        assert(g =~= s1 + s2 + s3) by {
            assert(g.subrange(0, a.len() as int) == s1);
            assert(g.subrange(a.len() as int, (a.len() + b.len()) as int) == s2);
            assert(g.subrange((a.len() + b.len()) as int, g.len() as int) == s3);
            assert(g =~= g.subrange(0, a.len() as int) + g.subrange(a.len() as int, (a.len() + b.len()) as int) + g.subrange((a.len() + b.len()) as int, g.len() as int));
        }
    }
    Ok(Pattern(s, pr, ob))
}

/// Builds the patterns of a hypothesis, in order.
fn build_patterns<I: BuildInterpretation>(
    v: &Vec<Meta<SignedPattern, Span>>,
    context: &Context,
    scope: &Scope,
    interp: &mut I,
    ids: &mut Vec<Id>,
) -> (r: Result<Vec<Signed<Pattern>>, Meta<BuildError<I::Error>, Span>>)
    requires
        scope.wf(),
        all_in(patterns_vars(patterns_model(v@)), scope.names()),
    ensures
        outcome(error_of(r), patterns_refs(patterns_model(v@)), *context),
        keeps(*old(interp), *final(interp)),
        match r {
            Ok(out) => {
                &&& extends_by(old(ids)@, final(ids)@, patterns_refs(patterns_model(v@)).len())
                &&& interprets(*final(interp), patterns_refs(patterns_model(v@)), *context, final(ids)@.subrange(old(ids)@.len() as int, final(ids)@.len() as int))
                &&& out@ == patterns_build(
                    patterns_model(v@),
                    scope.names(),
                    final(ids)@.subrange(old(ids)@.len() as int, final(ids)@.len() as int),
                )
            },
            Err(_) => true,
        },
{
    let ghost ps = patterns_model(v@);
    let ghost o = ids@;
    let ghost names = scope.names();
    let mut out: Vec<Signed<Pattern>> = Vec::new();
    let mut i: usize = 0;
    let ghost i0 = *interp;
    proof {
        assert(ps.take(0) =~= Seq::<(SignedPatternModel, Span)>::empty());
        assert(ids@.subrange(0, o.len() as int) =~= o);
        assert(ids@.subrange(o.len() as int, ids@.len() as int) =~= Seq::<Id>::empty());
    }
    while i < v.len()
        invariant
            i <= v@.len(),
            scope.wf(),
            names == scope.names(),
            ps == patterns_model(v@),
            all_in(patterns_vars(ps), names),
            all_resolve(patterns_refs(ps.take(i as int)), *context),
            extends_by(o, ids@, patterns_refs(ps.take(i as int)).len()),
            out@ == patterns_build(ps.take(i as int), names, ids@.subrange(o.len() as int, ids@.len() as int)),
            o == old(ids)@,
            i0 == *old(interp),
            keeps(i0, *interp),
            interprets(*interp, patterns_refs(ps.take(i as int)), *context, ids@.subrange(o.len() as int, ids@.len() as int)),
        decreases v@.len() - i,
    {
        let ghost m = ids@;
        let ghost ip = *interp;
        let ghost pv = pattern_vars(ps[i as int].0.pattern.0);
        proof {
            lemma_patterns_vars_each(ps, i as int);
            assert forall|j: int| 0 <= j < pv.len() implies names.contains(#[trigger] pv[j]) by {
                assert(pv.contains(pv[j]));
                let a = patterns_vars(ps);
                assert(a.contains(pv[j]));
                let t = choose|t: int| 0 <= t < a.len() && a[t] == pv[j];
                assert(names.contains(a[t]));
            }
            assert(ps[i as int].0.pattern.0 == crate::rdfs::model::pattern_model(v@[i as int].0.pattern.0));
            assert(ps.take(i + 1).drop_last() =~= ps.take(i as int));
            assert(ps.take(i + 1).last() == ps[i as int]);
        }
        let negative = v[i].0.negative.is_some();
        match build_pattern(&v[i].0.pattern.0, context, scope, interp, ids) {
            Ok(pat) => {
                let sign = if negative {
                    Sign::Negative
                } else {
                    Sign::Positive
                };
                out.push(Signed(sign, pat));
                proof {
                    let a = patterns_refs(ps.take(i as int));
                    let b = pattern_refs(ps[i as int].0.pattern.0);
                    lemma_outcome_after::<I::Error>(a, b, *context, None);
                    lemma_extends_trans(o, m, ids@, a.len(), b.len());
                    let seg = ids@.subrange(o.len() as int, ids@.len() as int);
                    assert(seg.subrange(a.len() as int, seg.len() as int) =~= seg.subrange(
                        a.len() as int,
                        (a.len() + b.len()) as int,
                    ));
                    assert(out@ =~= patterns_build(ps.take(i + 1), names, seg));
                    lemma_interprets_two(ip, *interp, *context, a, b, o, m, ids@);
                    lemma_keeps_trans(i0, ip, *interp);
                }
            },
            Err(e) => {
                proof {
                    let a = patterns_refs(ps.take(i as int));
                    let b = pattern_refs(ps[i as int].0.pattern.0);
                    lemma_outcome_after(a, b, *context, Some(e));
                    lemma_patterns_refs_take(ps, i + 1);
                    lemma_outcome_prefix(a + b, patterns_refs(ps), *context, Some(e));
                    lemma_keeps_trans(i0, ip, *interp);
                }
                return Err(e);
            },
        }
        i = i + 1;
    }
    proof {
        assert(ps.take(i as int) =~= ps);
    }
    Ok(out)
}

/// Builds a statement.
fn build_statement<I: BuildInterpretation>(
    st: &Statement,
    context: &Context,
    scope: &Scope,
    interp: &mut I,
    ids: &mut Vec<Id>,
) -> (r: Result<StatementPattern, Meta<BuildError<I::Error>, Span>>)
    requires
        scope.wf(),
        all_in(statement_vars(crate::rdfs::model::statement_model(*st)), scope.names()),
    ensures
        outcome(error_of(r), statement_refs(crate::rdfs::model::statement_model(*st)), *context),
        keeps(*old(interp), *final(interp)),
        match r {
            Ok(v) => {
                &&& extends_by(old(ids)@, final(ids)@, statement_refs(crate::rdfs::model::statement_model(*st)).len())
                &&& interprets(*final(interp), statement_refs(crate::rdfs::model::statement_model(*st)), *context, final(ids)@.subrange(old(ids)@.len() as int, final(ids)@.len() as int))
                &&& v == statement_build(
                    crate::rdfs::model::statement_model(*st),
                    scope.names(),
                    final(ids)@.subrange(old(ids)@.len() as int, final(ids)@.len() as int),
                )
            },
            Err(_) => true,
        },
{
    match st {
        Statement::Pattern(p) => match build_pattern(p, context, scope, interp, ids) {
            Ok(v) => Ok(StatementPattern::Triple(v)),
            Err(e) => Err(e),
        },
        Statement::Eq(x, y) => {
            let ghost a = expr_refs(crate::rdfs::model::located_expr(*x));
            let ghost b = expr_refs(crate::rdfs::model::located_expr(*y));
            let ghost c = Seq::<(IriReferenceModel, Span)>::empty();
            let ghost o = ids@;
            let ghost i0 = *interp;
            proof {
                assert(a + b + c =~= a + b);
                lemma_all_in_concat(
                    crate::rdfs::building::expr_vars(expr_model(x.0)),
                    crate::rdfs::building::expr_vars(expr_model(y.0)),
                    scope.names(),
                );
            }
            let u = match build_expr(x, context, scope, interp, ids) {
                Ok(v) => v,
                Err(e) => {
                    proof {
                        lemma_error_first(*context, a, b, c, Some(e));
                    }
                    return Err(e);
                },
            };
            let ghost m1 = ids@;
            let ghost i1 = *interp;
            let w = match build_expr(y, context, scope, interp, ids) {
                Ok(v) => v,
                Err(e) => {
                    proof {
                        lemma_error_second(*context, a, b, c, Some(e));
                        lemma_keeps_trans(i0, i1, *interp);
                    }
                    return Err(e);
                },
            };
            proof {
                assert(ids@.subrange(0, ids@.len() as int) =~= ids@);
                lemma_three::<I::Error>(*context, o, m1, ids@, ids@, a, b, c);
                let seg = ids@.subrange(o.len() as int, ids@.len() as int);
                assert(seg.subrange(a.len() as int, seg.len() as int) =~= seg.subrange(
                    a.len() as int,
                    (a.len() + b.len()) as int,
                ));
                assert(ids@.subrange(m1.len() as int, ids@.len() as int) =~= ids@.subrange(m1.len() as int, ids@.len() as int));
                lemma_interprets_two(i1, *interp, *context, a, b, o, m1, ids@);
                lemma_keeps_trans(i0, i1, *interp);
            }
            Ok(StatementPattern::Eq(u, w))
        },
    }
}

/// Builds the statements of a conclusion, in order.
fn build_statements<I: BuildInterpretation>(
    v: &Vec<Meta<MaybeTrustedStatement, Span>>,
    context: &Context,
    scope: &Scope,
    interp: &mut I,
    ids: &mut Vec<Id>,
) -> (r: Result<Vec<MaybeTrusted<Signed<StatementPattern>>>, Meta<BuildError<I::Error>, Span>>)
    requires
        scope.wf(),
        all_in(statements_vars(statements_model(v@)), scope.names()),
    ensures
        outcome(error_of(r), statements_refs(statements_model(v@)), *context),
        keeps(*old(interp), *final(interp)),
        match r {
            Ok(out) => {
                &&& extends_by(old(ids)@, final(ids)@, statements_refs(statements_model(v@)).len())
                &&& interprets(*final(interp), statements_refs(statements_model(v@)), *context, final(ids)@.subrange(old(ids)@.len() as int, final(ids)@.len() as int))
                &&& out@ == statements_build(
                    statements_model(v@),
                    scope.names(),
                    final(ids)@.subrange(old(ids)@.len() as int, final(ids)@.len() as int),
                )
            },
            Err(_) => true,
        },
{
    let ghost ss = statements_model(v@);
    let ghost o = ids@;
    let ghost names = scope.names();
    let mut out: Vec<MaybeTrusted<Signed<StatementPattern>>> = Vec::new();
    let mut i: usize = 0;
    let ghost i0 = *interp;
    proof {
        assert(ss.take(0) =~= Seq::<(MaybeTrustedStatementModel, Span)>::empty());
        assert(ids@.subrange(0, o.len() as int) =~= o);
        assert(ids@.subrange(o.len() as int, ids@.len() as int) =~= Seq::<Id>::empty());
    }
    while i < v.len()
        invariant
            i <= v@.len(),
            scope.wf(),
            names == scope.names(),
            ss == statements_model(v@),
            all_in(statements_vars(ss), names),
            all_resolve(statements_refs(ss.take(i as int)), *context),
            extends_by(o, ids@, statements_refs(ss.take(i as int)).len()),
            out@ == statements_build(ss.take(i as int), names, ids@.subrange(o.len() as int, ids@.len() as int)),
            o == old(ids)@,
            i0 == *old(interp),
            keeps(i0, *interp),
            interprets(*interp, statements_refs(ss.take(i as int)), *context, ids@.subrange(o.len() as int, ids@.len() as int)),
        decreases v@.len() - i,
    {
        let ghost m = ids@;
        let ghost ip = *interp;
        let ghost sv = statement_vars(ss[i as int].0.statement.0.statement.0);
        proof {
            lemma_statements_vars_each(ss, i as int);
            assert forall|j: int| 0 <= j < sv.len() implies names.contains(#[trigger] sv[j]) by {
                assert(sv.contains(sv[j]));
                let a = statements_vars(ss);
                assert(a.contains(sv[j]));
                let t = choose|t: int| 0 <= t < a.len() && a[t] == sv[j];
                assert(names.contains(a[t]));
            }
            assert(ss[i as int].0.statement.0.statement.0 == crate::rdfs::model::statement_model(
                v@[i as int].0.statement.0.statement.0,
            ));
            assert(ss.take(i + 1).drop_last() =~= ss.take(i as int));
            assert(ss.take(i + 1).last() == ss[i as int]);
        }
        let negative = v[i].0.statement.0.negative.is_some();
        let trust = v[i].0.trust.0;
        match build_statement(&v[i].0.statement.0.statement.0, context, scope, interp, ids) {
            Ok(st) => {
                let sign = if negative {
                    Sign::Negative
                } else {
                    Sign::Positive
                };
                let item = MaybeTrusted::new(Signed(sign, st), trust);
                proof {
                    assert(item == with_trust(trust, Signed(sign, st))) by {
                        match item {
                            MaybeTrusted::Trusted(_) => {},
                            MaybeTrusted::Untrusted(_) => {},
                        }
                    }
                }
                out.push(item);
                proof {
                    let a = statements_refs(ss.take(i as int));
                    let b = statement_refs(ss[i as int].0.statement.0.statement.0);
                    lemma_outcome_after::<I::Error>(a, b, *context, None);
                    lemma_extends_trans(o, m, ids@, a.len(), b.len());
                    let seg = ids@.subrange(o.len() as int, ids@.len() as int);
                    assert(seg.subrange(a.len() as int, seg.len() as int) =~= seg.subrange(
                        a.len() as int,
                        (a.len() + b.len()) as int,
                    ));
                    assert(out@ =~= statements_build(ss.take(i + 1), names, seg));
                    lemma_interprets_two(ip, *interp, *context, a, b, o, m, ids@);
                    lemma_keeps_trans(i0, ip, *interp);
                }
            },
            Err(e) => {
                proof {
                    let a = statements_refs(ss.take(i as int));
                    let b = statement_refs(ss[i as int].0.statement.0.statement.0);
                    lemma_outcome_after(a, b, *context, Some(e));
                    lemma_statements_refs_take(ss, i + 1);
                    lemma_outcome_prefix(a + b, statements_refs(ss), *context, Some(e));
                    lemma_keeps_trans(i0, ip, *interp);
                }
                return Err(e);
            },
        }
        i = i + 1;
    }
    proof {
        assert(ss.take(i as int) =~= ss);
    }
    Ok(out)
}

/// The variables bound by a quantifier, numbered and named.
fn build_binders(vars: &Vec<Meta<crate::rdfs::VarIdent, Span>>, scope: &Scope) -> (r: Vec<Variable>)
    requires
        scope.wf(),
        forall|j: int|
            0 <= j < vars@.len() ==> scope.names().contains(
                #[trigger] crate::rdfs::model::variables_model(vars@)[j].0,
            ),
    ensures
        crate::inference::formula::variables_view(r@) == binders_build(
            crate::rdfs::model::variables_model(vars@),
            scope.names(),
        ),
{
    let ghost vm = crate::rdfs::model::variables_model(vars@);
    let mut out: Vec<Variable> = Vec::new();
    let mut i: usize = 0;
    while i < vars.len()
        invariant
            i <= vars@.len(),
            scope.wf(),
            vm == crate::rdfs::model::variables_model(vars@),
            forall|j: int| 0 <= j < vars@.len() ==> scope.names().contains(#[trigger] vm[j].0),
            out@.len() == i,
            crate::inference::formula::variables_view(out@) =~= binders_build(vm.take(i as int), scope.names()),
        decreases vars@.len() - i,
    {
        proof {
            assert(vm[i as int].0 == vars@[i as int].0.0@);
            assert(scope.names().contains(vm[i as int].0));
        }
        let index = var_of(scope, &vars[i].0);
        let ghost before = out@;
        out.push(Variable { index, name: Some(vars[i].0.0.clone()) });
        proof {
            assert(vm.take(i + 1) =~= vm.take(i as int).push(vm[i as int]));
            assert(crate::inference::formula::variable_view(out@[i as int]) == (
                var_number(scope.names(), vm[i as int].0),
                Some(vm[i as int].0),
            ));
            assert(binders_build(vm.take(i + 1), scope.names())[i as int] == (
                var_number(scope.names(), vm[i as int].0),
                Some(vm[i as int].0),
            ));
            assert forall|j: int| 0 <= j < i implies crate::inference::formula::variables_view(out@)[j] == binders_build(
                vm.take(i + 1),
                scope.names(),
            )[j] by {
                assert(out@[j] == before[j]);
                assert(crate::inference::formula::variables_view(before)[j] == binders_build(vm.take(i as int), scope.names())[j]);
                assert(vm.take(i + 1)[j] == vm.take(i as int)[j]);
            }
            assert(crate::inference::formula::variables_view(out@) =~= binders_build(vm.take(i + 1), scope.names()));
        }
        i = i + 1;
    }
    proof {
        assert(vm.take(i as int) =~= vm);
    }
    out
}

/// Builds a formula.
fn build_formula<I: BuildInterpretation>(
    f: &RuleFormula,
    context: &Context,
    scope: &Scope,
    interp: &mut I,
    ids: &mut Vec<Id>,
) -> (r: Result<Formula, Meta<BuildError<I::Error>, Span>>)
    requires
        scope.wf(),
        all_in(formula_vars(formula_model(*f)), scope.names()),
        binders_in(formula_model(*f), scope.names()),
    ensures
        outcome(error_of(r), formula_refs(formula_model(*f)), *context),
        keeps(*old(interp), *final(interp)),
        match r {
            Ok(v) => {
                &&& extends_by(old(ids)@, final(ids)@, formula_refs(formula_model(*f)).len())
                &&& interprets(*final(interp), formula_refs(formula_model(*f)), *context, final(ids)@.subrange(old(ids)@.len() as int, final(ids)@.len() as int))
                &&& formula_view(v) == formula_build(
                    formula_model(*f),
                    scope.names(),
                    final(ids)@.subrange(old(ids)@.len() as int, final(ids)@.len() as int),
                )
            },
            Err(_) => true,
        },
    decreases f,
{
    let ghost o = ids@;
    let ghost names = scope.names();
    let ghost i0 = *interp;
    match f {
        RuleFormula::ForAll(q) => {
            proof {
                lemma_all_in_concat(
                    patterns_vars(patterns_model(q.constraints.0.patterns@)),
                    formula_vars(formula_model(q.inner.0)),
                    names,
                );
                assert(decreases_to!(*f => q));
                assert(decreases_to!(q => q.inner));
                assert(decreases_to!(*q.inner => q.inner.0));
            }
            let variables = build_binders(&q.variables, scope);
            let ghost a = patterns_refs(patterns_model(q.constraints.0.patterns@));
            let ghost b = formula_refs(formula_model(q.inner.0));
            let constraints = match build_patterns(&q.constraints.0.patterns, context, scope, interp, ids) {
                Ok(v) => v,
                Err(e) => {
                    proof {
                        lemma_prefix_concat(a, b);
                        lemma_outcome_prefix(a, a + b, *context, Some(e));
                    }
                    return Err(e);
                },
            };
            let ghost m = ids@;
            let ghost i1 = *interp;
            let inner = match build_formula(&q.inner.0, context, scope, interp, ids) {
                Ok(v) => v,
                Err(e) => {
                    proof {
                        lemma_outcome_after(a, b, *context, Some(e));
                        lemma_keeps_trans(i0, i1, *interp);
                    }
                    return Err(e);
                },
            };
            proof {
                lemma_outcome_after::<I::Error>(a, b, *context, None);
                lemma_extends_trans(o, m, ids@, a.len(), b.len());
                lemma_interprets_two(i1, *interp, *context, a, b, o, m, ids@);
                lemma_keeps_trans(i0, i1, *interp);
                let seg = ids@.subrange(o.len() as int, ids@.len() as int);
                assert(seg.subrange(a.len() as int, seg.len() as int) =~= seg.subrange(
                    a.len() as int,
                    (a.len() + b.len()) as int,
                ));
            }
            Ok(Formula::ForAll(ForAll { variables, constraints: Hypothesis { patterns: constraints }, inner: Box::new(inner) }))
        },
        RuleFormula::Exists(q) => {
            proof {
                lemma_all_in_concat(
                    patterns_vars(patterns_model(q.hypothesis.0.patterns@)),
                    formula_vars(formula_model(q.inner.0)),
                    names,
                );
                assert(decreases_to!(*f => q));
                assert(decreases_to!(q => q.inner));
                assert(decreases_to!(*q.inner => q.inner.0));
            }
            let variables = build_binders(&q.variables, scope);
            let ghost a = patterns_refs(patterns_model(q.hypothesis.0.patterns@));
            let ghost b = formula_refs(formula_model(q.inner.0));
            let hypothesis = match build_patterns(&q.hypothesis.0.patterns, context, scope, interp, ids) {
                Ok(v) => v,
                Err(e) => {
                    proof {
                        lemma_prefix_concat(a, b);
                        lemma_outcome_prefix(a, a + b, *context, Some(e));
                    }
                    return Err(e);
                },
            };
            let ghost m = ids@;
            let ghost i1 = *interp;
            let inner = match build_formula(&q.inner.0, context, scope, interp, ids) {
                Ok(v) => v,
                Err(e) => {
                    proof {
                        lemma_outcome_after(a, b, *context, Some(e));
                        lemma_keeps_trans(i0, i1, *interp);
                    }
                    return Err(e);
                },
            };
            proof {
                lemma_outcome_after::<I::Error>(a, b, *context, None);
                lemma_extends_trans(o, m, ids@, a.len(), b.len());
                lemma_interprets_two(i1, *interp, *context, a, b, o, m, ids@);
                lemma_keeps_trans(i0, i1, *interp);
                let seg = ids@.subrange(o.len() as int, ids@.len() as int);
                assert(seg.subrange(a.len() as int, seg.len() as int) =~= seg.subrange(
                    a.len() as int,
                    (a.len() + b.len()) as int,
                ));
            }
            Ok(Formula::Exists(Exists { variables, hypothesis: Hypothesis { patterns: hypothesis }, inner: Box::new(inner) }))
        },
        RuleFormula::Conclusion(c) => match build_statements(&c.statements, context, scope, interp, ids) {
            Ok(statements) => {
                let r = Formula::Conclusion(Conclusion { variables: Vec::new(), statements });
                proof {
                    assert(crate::inference::formula::variables_view(Seq::<Variable>::empty()) =~= Seq::empty());
                }
                Ok(r)
            },
            Err(e) => Err(e),
        },
    }
}

/// Whether a quantifier, or the conclusion, of the formula binds `x`.
pub open spec fn declares(f: FormulaView, x: usize) -> bool
    decreases f,
{
    match f {
        FormulaView::Exists(vs, _, inner) => (exists|j: int| 0 <= j < vs.len() && (#[trigger] vs[j]).0 == x) || declares(
            *inner,
            x,
        ),
        FormulaView::ForAll(vs, _, inner) => (exists|j: int| 0 <= j < vs.len() && (#[trigger] vs[j]).0 == x) || declares(
            *inner,
            x,
        ),
        FormulaView::Conclusion(vs, _) => exists|j: int| 0 <= j < vs.len() && (#[trigger] vs[j]).0 == x,
    }
}

pub open spec fn pattern_mentions(p: Pattern, x: usize) -> bool {
    p.0 == IdOrVar::<Id>::Var(x) || p.1 == IdOrVar::<Id>::Var(x) || p.2 == IdOrVar::<Id>::Var(x)
}

/// Whether a hypothesis or a constraint of the formula mentions `x`.
pub open spec fn mentioned_in_hypotheses(f: FormulaView, x: usize) -> bool
    decreases f,
{
    match f {
        FormulaView::Exists(_, h, inner) => (exists|j: int| 0 <= j < h.len() && pattern_mentions((#[trigger] h[j]).1, x))
            || mentioned_in_hypotheses(*inner, x),
        FormulaView::ForAll(_, h, inner) => (exists|j: int| 0 <= j < h.len() && pattern_mentions((#[trigger] h[j]).1, x))
            || mentioned_in_hypotheses(*inner, x),
        FormulaView::Conclusion(_, _) => false,
    }
}

/// The variables numbered below `n` that nothing binds, in order, named by
/// `names`: those a hypothesis mentions when `hypothetical`, the others
/// when not.
pub open spec fn unbound_vars(f: FormulaView, names: Seq<Seq<char>>, n: nat, hypothetical: bool) -> Seq<
    (usize, Option<Seq<char>>),
>
    decreases n,
{
    if n == 0 {
        Seq::empty()
    } else {
        let x = (n - 1) as usize;
        let rest = unbound_vars(f, names, (n - 1) as nat, hypothetical);
        if !declares(f, x) && mentioned_in_hypotheses(f, x) == hypothetical {
            rest.push((x, Some(names[n - 1])))
        } else {
            rest
        }
    }
}

/// The formula with `vs` added to the variables of its conclusion.
pub open spec fn with_conclusion_vars(f: FormulaView, vs: Seq<(usize, Option<Seq<char>>)>) -> FormulaView
    decreases f,
{
    match f {
        FormulaView::Exists(a, h, inner) => FormulaView::Exists(a, h, Box::new(with_conclusion_vars(*inner, vs))),
        FormulaView::ForAll(a, h, inner) => FormulaView::ForAll(a, h, Box::new(with_conclusion_vars(*inner, vs))),
        FormulaView::Conclusion(a, s) => FormulaView::Conclusion(a + vs, s),
    }
}

/// The formula with its unbound variables bound: those its hypotheses
/// mention by an outermost existential quantifier (the formula's own, if it
/// is one), the others by its conclusion, as new resources.
pub open spec fn bind_unbound(f: FormulaView, names: Seq<Seq<char>>) -> FormulaView {
    let outer = unbound_vars(f, names, names.len(), true);
    let inner = unbound_vars(f, names, names.len(), false);
    let g = if outer.len() > 0 {
        match f {
            FormulaView::Exists(vs, h, b) => FormulaView::Exists(vs + outer, h, b),
            _ => FormulaView::Exists(outer, Seq::empty(), Box::new(f)),
        }
    } else {
        f
    };
    with_conclusion_vars(g, inner)
}

fn vars_contain(vs: &Vec<Variable>, x: usize) -> (r: bool)
    ensures
        r == exists|j: int|
            0 <= j < vs@.len() && (#[trigger] crate::inference::formula::variables_view(vs@)[j]).0 == x,
{
    let mut i: usize = 0;
    while i < vs.len()
        invariant
            i <= vs@.len(),
            forall|j: int| 0 <= j < i ==> (#[trigger] crate::inference::formula::variables_view(vs@)[j]).0 != x,
        decreases vs@.len() - i,
    {
        if vs[i].index == x {
            proof {
                assert(crate::inference::formula::variables_view(vs@)[i as int].0 == x);
            }
            return true;
        }
        i = i + 1;
    }
    false
}

fn hypothesis_mentions(h: &Vec<Signed<Pattern>>, x: usize) -> (r: bool)
    ensures
        r == exists|j: int| 0 <= j < h@.len() && pattern_mentions((#[trigger] h@[j]).1, x),
{
    let mut i: usize = 0;
    while i < h.len()
        invariant
            i <= h@.len(),
            forall|j: int| 0 <= j < i ==> !pattern_mentions((#[trigger] h@[j]).1, x),
        decreases h@.len() - i,
    {
        let p = h[i].1;
        let hit = match (p.0, p.1, p.2) {
            (IdOrVar::Var(a), _, _) if a == x => true,
            (_, IdOrVar::Var(b), _) if b == x => true,
            (_, _, IdOrVar::Var(c)) if c == x => true,
            _ => false,
        };
        if hit {
            return true;
        }
        i = i + 1;
    }
    false
}

fn declares_exec(f: &Formula, x: usize) -> (r: bool)
    ensures
        r == declares(formula_view(*f), x),
    decreases f,
{
    match f {
        Formula::Exists(e) => {
            proof {
                assert(decreases_to!(*f => e));
                assert(decreases_to!(e => e.inner));
            }
            let here = vars_contain(&e.variables, x);
            let below = declares_exec(&e.inner, x);
            proof {
                let vs = crate::inference::formula::variables_view(e.variables@);
                assert(formula_view(*f) == FormulaView::Exists(vs, e.hypothesis.patterns@, Box::new(formula_view(*e.inner))));
                assert(below == declares(formula_view(*e.inner), x));
                let fv = formula_view(*f);
                assert(fv->Exists_0 == vs);
                assert(*fv->Exists_2 == formula_view(*e.inner));
                assert(declares(fv, x) == ((exists|j: int| 0 <= j < vs.len() && (#[trigger] vs[j]).0 == x) || declares(*fv->Exists_2, x)));
                assert((here || below) == declares(formula_view(*f), x));
                assert(here == exists|j: int| 0 <= j < vs.len() && (#[trigger] vs[j]).0 == x);
            }
            here || below
        },
        Formula::ForAll(a) => {
            proof {
                assert(decreases_to!(*f => a));
                assert(decreases_to!(a => a.inner));
            }
            let here = vars_contain(&a.variables, x);
            let below = declares_exec(&a.inner, x);
            proof {
                let vs = crate::inference::formula::variables_view(a.variables@);
                assert(formula_view(*f) == FormulaView::ForAll(vs, a.constraints.patterns@, Box::new(formula_view(*a.inner))));
                assert(below == declares(formula_view(*a.inner), x));
                let fv = formula_view(*f);
                assert(fv->ForAll_0 == vs);
                assert(*fv->ForAll_2 == formula_view(*a.inner));
                assert(declares(fv, x) == ((exists|j: int| 0 <= j < vs.len() && (#[trigger] vs[j]).0 == x) || declares(*fv->ForAll_2, x)));
                assert(here == exists|j: int| 0 <= j < vs.len() && (#[trigger] vs[j]).0 == x);
            }
            here || below
        },
        Formula::Conclusion(c) => {
            let here = vars_contain(&c.variables, x);
            proof {
                let vs = crate::inference::formula::variables_view(c.variables@);
                let fv = formula_view(*f);
                assert(fv->Conclusion_0 == vs);
            }
            here
        },
    }
}

fn mentioned_exec(f: &Formula, x: usize) -> (r: bool)
    ensures
        r == mentioned_in_hypotheses(formula_view(*f), x),
    decreases f,
{
    match f {
        Formula::Exists(e) => {
            proof {
                assert(decreases_to!(*f => e));
                assert(decreases_to!(e => e.inner));
            }
            hypothesis_mentions(&e.hypothesis.patterns, x) || mentioned_exec(&e.inner, x)
        },
        Formula::ForAll(a) => {
            proof {
                assert(decreases_to!(*f => a));
                assert(decreases_to!(a => a.inner));
            }
            hypothesis_mentions(&a.constraints.patterns, x) || mentioned_exec(&a.inner, x)
        },
        Formula::Conclusion(_) => false,
    }
}

fn add_conclusion_vars(f: Formula, vs: Vec<Variable>) -> (r: Formula)
    ensures
        formula_view(r) == with_conclusion_vars(formula_view(f), crate::inference::formula::variables_view(vs@)),
    decreases f,
{
    match f {
        Formula::Exists(e) => {
            proof {
                assert(decreases_to!(f => e));
                assert(decreases_to!(e => e.inner));
            }
            let Exists { variables, hypothesis, inner } = e;
            let b = add_conclusion_vars(*inner, vs);
            Formula::Exists(Exists { variables, hypothesis, inner: Box::new(b) })
        },
        Formula::ForAll(a) => {
            proof {
                assert(decreases_to!(f => a));
                assert(decreases_to!(a => a.inner));
            }
            let ForAll { variables, constraints, inner } = a;
            let b = add_conclusion_vars(*inner, vs);
            Formula::ForAll(ForAll { variables, constraints, inner: Box::new(b) })
        },
        Formula::Conclusion(c) => {
            let Conclusion { mut variables, statements } = c;
            let ghost v0 = variables@;
            let mut more = vs;
            variables.append(&mut more);
            proof {
                assert(crate::inference::formula::variables_view(variables@) =~= crate::inference::formula::variables_view(v0)
                    + crate::inference::formula::variables_view(vs@));
            }
            Formula::Conclusion(Conclusion { variables, statements })
        },
    }
}

/// Binds the unbound variables of the built formula (see `bind_unbound`).
fn bind_unbound_exec(f: Formula, scope: &Scope) -> (r: Formula)
    ensures
        formula_view(r) == bind_unbound(formula_view(f), scope.names()),
{
    let ghost fv = formula_view(f);
    let ghost names = scope.names();
    let n = scope.len();
    let mut outer: Vec<Variable> = Vec::new();
    let mut inner: Vec<Variable> = Vec::new();
    let mut i: usize = 0;
    while i < n
        invariant
            i <= n,
            n == names.len(),
            names == scope.names(),
            fv == formula_view(f),
            crate::inference::formula::variables_view(outer@) == unbound_vars(fv, names, i as nat, true),
            crate::inference::formula::variables_view(inner@) == unbound_vars(fv, names, i as nat, false),
        decreases n - i,
    {
        if !declares_exec(&f, i) {
            let name = scope.name(i).clone();
            if mentioned_exec(&f, i) {
                let ghost before = outer@;
                outer.push(Variable { index: i, name: Some(name) });
                proof {
                    assert(crate::inference::formula::variables_view(outer@) =~= crate::inference::formula::variables_view(before).push(
                        (i, Some(names[i as int])),
                    ));
                }
            } else {
                let ghost before = inner@;
                inner.push(Variable { index: i, name: Some(name) });
                proof {
                    assert(crate::inference::formula::variables_view(inner@) =~= crate::inference::formula::variables_view(before).push(
                        (i, Some(names[i as int])),
                    ));
                }
            }
        }
        i = i + 1;
    }
    let g = if outer.len() > 0 {
        match f {
            Formula::Exists(e) => {
                let Exists { mut variables, hypothesis, inner: b } = e;
                let ghost v0 = variables@;
                let ghost o0 = outer@;
                variables.append(&mut outer);
                proof {
                    assert(crate::inference::formula::variables_view(variables@) =~= crate::inference::formula::variables_view(v0)
                        + crate::inference::formula::variables_view(o0));
                }
                Formula::Exists(Exists { variables, hypothesis, inner: b })
            },
            other => {
                let r = Formula::Exists(
                    Exists { variables: outer, hypothesis: Hypothesis { patterns: Vec::new() }, inner: Box::new(other) },
                );
                r
            },
        }
    } else {
        f
    };
    add_conclusion_vars(g, inner)
}

/// The IRI references of a rule, with their spans: its identifier's, then
/// its formula's.
pub open spec fn rule_refs(rule: Rule) -> Seq<(IriReferenceModel, Span)> {
    seq![(iri_reference_model(rule.id.0), rule.id.1)] + formula_refs(formula_model(rule.formula.0))
}

/// The variables of a rule, numbered in the order they occur.
pub open spec fn rule_names(rule: Rule) -> Seq<Seq<char>> {
    crate::rdfs::building::declare_all(Seq::empty(), formula_vars(formula_model(rule.formula.0)))
}

/// The rule built, `ids` being the resources of its references: its
/// identifier, and its formula with the unbound variables bound.
pub open spec fn rule_built(rule: Rule, ids: Seq<Id>) -> (Id, FormulaView) {
    (
        ids[0],
        bind_unbound(
            formula_build(formula_model(rule.formula.0), rule_names(rule), ids.subrange(1, ids.len() as int)),
            rule_names(rule),
        ),
    )
}

impl Rule {
    /// Builds the inference rule: resolves each IRI reference in the
    /// context and has `interpretation` interpret it, in order (the rule's
    /// identifier first), numbers the variables as they occur, and binds
    /// those no quantifier binds.
    pub fn build<I: BuildInterpretation>(&self, interpretation: &mut I, context: &Context) -> (r: Result<
        FormulaRule,
        Meta<BuildError<I::Error>, Span>,
    >)
        requires
            binders_in(formula_model(self.formula.0), rule_names(*self)),
        ensures
            outcome(error_of(r), rule_refs(*self), *context),
            keeps(*old(interpretation), *final(interpretation)),
            match r {
                Ok(rule) => (rule.id, formula_view(rule.formula)) == rule_built(
                    *self,
                    interpreted_ids(*final(interpretation), rule_refs(*self), *context),
                ),
                Err(_) => true,
            },
    {
        let ghost i0 = *interpretation;
        let ghost head = seq![(iri_reference_model(self.id.0), self.id.1)];
        let ghost rest = formula_refs(formula_model(self.formula.0));
        proof {
            assert(rule_refs(*self) == head + rest);
            assert((head + rest)[0] == head[0]);
        }
        let iri = match self.id.0.resolve(context, self.id.1) {
            Ok(iri) => iri,
            Err(m) => {
                let r = Err(Meta(BuildError::Iri(m.0), m.1));
                proof {
                    let er = error_of(r).unwrap();
                    assert(er.0->Iri_0 == m.0);
                    assert(fails_at(rule_refs(*self), *context, 0, error_model(er.0->Iri_0), er.1));
                }
                return r;
            },
        };
        let ghost iv = iri@;
        let id = match interpretation.interpret_iri(iri) {
            Ok(id) => id,
            Err(e) => {
                return Err(Meta(BuildError::Interpretation(e), self.id.1));
            },
        };
        let ghost i1 = *interpretation;
        proof {
            assert(resolves(head[0], *context));
            assert(all_resolve(head, *context));
            assert(resolved(head[0], *context) == iv);
            assert(interprets(i1, head, *context, seq![id]));
        }
        let scope = Scope::new(&self.formula.0);
        proof {
            let fv = formula_vars(formula_model(self.formula.0));
            assert forall|j: int| 0 <= j < fv.len() implies scope.names().contains(#[trigger] fv[j]) by {
                assert(fv.contains(fv[j]));
            }
        }
        let mut ids: Vec<Id> = Vec::new();
        let formula = match build_formula(&self.formula.0, context, &scope, interpretation, &mut ids) {
            Ok(f) => f,
            Err(e) => {
                proof {
                    lemma_outcome_after(head, rest, *context, Some(e));
                    lemma_keeps_trans(i0, i1, *interpretation);
                }
                return Err(e);
            },
        };
        let formula = bind_unbound_exec(formula, &scope);
        proof {
            lemma_outcome_after::<I::Error>(head, rest, *context, None);
            let all = seq![id] + ids@;
            assert(all.subrange(1, all.len() as int) =~= ids@.subrange(0, ids@.len() as int));
            assert(all[0] == id);
            assert(all.len() == rule_refs(*self).len());
            assert((id, formula_view(formula)) == rule_built(*self, all));
            lemma_keeps_trans(i0, i1, *interpretation);
            assert(ids@.subrange(0, ids@.len() as int) =~= ids@);
            lemma_interprets_kept(i1, *interpretation, head, *context, seq![id]);
            lemma_interprets_concat(*interpretation, head, rest, *context, seq![id], ids@);
            lemma_interprets_ids(*interpretation, head + rest, *context, all);
        }
        Ok(FormulaRule { id, formula })
    }
}

/// Adding variables to the conclusion binds them and keeps what was bound.
proof fn lemma_with_conclusion_vars_declares(f: FormulaView, vs: Seq<(usize, Option<Seq<char>>)>, x: usize)
    ensures
        declares(with_conclusion_vars(f, vs), x) <==> declares(f, x) || exists|j: int|
            0 <= j < vs.len() && (#[trigger] vs[j]).0 == x,
    decreases f,
{
    match f {
        FormulaView::Exists(a, h, inner) => {
            lemma_with_conclusion_vars_declares(*inner, vs, x);
            let w = with_conclusion_vars(f, vs);
            assert(w->Exists_0 == a);
            assert(*w->Exists_2 == with_conclusion_vars(*inner, vs));
            assert(declares(w, x) == ((exists|j: int| 0 <= j < a.len() && (#[trigger] a[j]).0 == x) || declares(
                *w->Exists_2,
                x,
            )));
            assert(declares(f, x) == ((exists|j: int| 0 <= j < a.len() && (#[trigger] a[j]).0 == x) || declares(
                *inner,
                x,
            )));
        },
        FormulaView::ForAll(a, h, inner) => {
            lemma_with_conclusion_vars_declares(*inner, vs, x);
            let w = with_conclusion_vars(f, vs);
            assert(w->ForAll_0 == a);
            assert(*w->ForAll_2 == with_conclusion_vars(*inner, vs));
            assert(declares(w, x) == ((exists|j: int| 0 <= j < a.len() && (#[trigger] a[j]).0 == x) || declares(
                *w->ForAll_2,
                x,
            )));
            assert(declares(f, x) == ((exists|j: int| 0 <= j < a.len() && (#[trigger] a[j]).0 == x) || declares(
                *inner,
                x,
            )));
        },
        FormulaView::Conclusion(a, st) => {
            let b = a + vs;
            let w = with_conclusion_vars(f, vs);
            assert(w->Conclusion_0 == b);
            assert(declares(w, x) == exists|j: int| 0 <= j < b.len() && (#[trigger] b[j]).0 == x);
            assert(declares(f, x) == exists|j: int| 0 <= j < a.len() && (#[trigger] a[j]).0 == x);
            if exists|j: int| 0 <= j < vs.len() && (#[trigger] vs[j]).0 == x {
                let j = choose|j: int| 0 <= j < vs.len() && (#[trigger] vs[j]).0 == x;
                assert(b[a.len() + j] == vs[j]);
            }
            if exists|j: int| 0 <= j < a.len() && (#[trigger] a[j]).0 == x {
                let j = choose|j: int| 0 <= j < a.len() && (#[trigger] a[j]).0 == x;
                assert(b[j] == a[j]);
            }
            if exists|j: int| 0 <= j < b.len() && (#[trigger] b[j]).0 == x {
                let j = choose|j: int| 0 <= j < b.len() && (#[trigger] b[j]).0 == x;
                if j < a.len() {
                    assert(a[j] == b[j]);
                } else {
                    assert(vs[j - a.len()] == b[j]);
                }
            }
        },
    }
}

/// The variables below `n` left unbound and mentioned as `hypothetical`
/// says are exactly those listed.
proof fn lemma_unbound_vars_lists(f: FormulaView, names: Seq<Seq<char>>, n: nat, hypothetical: bool, x: usize)
    requires
        n <= names.len(),
    ensures
        (exists|j: int| 0 <= j < unbound_vars(f, names, n, hypothetical).len() && (#[trigger] unbound_vars(
            f,
            names,
            n,
            hypothetical,
        )[j]).0 == x) <==> (x < n && !declares(f, x) && mentioned_in_hypotheses(f, x) == hypothetical),
    decreases n,
{
    if n > 0 {
        lemma_unbound_vars_lists(f, names, (n - 1) as nat, hypothetical, x);
        let rest = unbound_vars(f, names, (n - 1) as nat, hypothetical);
        let all = unbound_vars(f, names, n, hypothetical);
        let y = (n - 1) as usize;
        if !declares(f, y) && mentioned_in_hypotheses(f, y) == hypothetical {
            assert(all == rest.push((y, Some(names[n - 1]))));
            if x == y {
                assert(all[rest.len() as int].0 == x);
            }
            if exists|j: int| 0 <= j < rest.len() && (#[trigger] rest[j]).0 == x {
                let j = choose|j: int| 0 <= j < rest.len() && (#[trigger] rest[j]).0 == x;
                assert(all[j] == rest[j]);
            }
            if exists|j: int| 0 <= j < all.len() && (#[trigger] all[j]).0 == x {
                let j = choose|j: int| 0 <= j < all.len() && (#[trigger] all[j]).0 == x;
                if j < rest.len() {
                    assert(rest[j] == all[j]);
                }
            }
        } else {
            assert(all == rest);
        }
    }
}

/// Once the unbound variables are bound, every variable of the scope is
/// bound, by a quantifier or by the conclusion.
pub proof fn lemma_bind_unbound_binds_all(f: FormulaView, names: Seq<Seq<char>>, x: usize)
    requires
        x < names.len(),
    ensures
        declares(bind_unbound(f, names), x),
{
    let outer = unbound_vars(f, names, names.len(), true);
    let inner = unbound_vars(f, names, names.len(), false);
    let g = if outer.len() > 0 {
        match f {
            FormulaView::Exists(vs, h, b) => FormulaView::Exists(vs + outer, h, b),
            _ => FormulaView::Exists(outer, Seq::empty(), Box::new(f)),
        }
    } else {
        f
    };
    lemma_unbound_vars_lists(f, names, names.len(), true, x);
    lemma_unbound_vars_lists(f, names, names.len(), false, x);
    lemma_with_conclusion_vars_declares(g, inner, x);
    if !declares(f, x) && !mentioned_in_hypotheses(f, x) {
        let j = choose|j: int| 0 <= j < inner.len() && (#[trigger] inner[j]).0 == x;
    } else if !declares(f, x) {
        let j = choose|j: int| 0 <= j < outer.len() && (#[trigger] outer[j]).0 == x;
        match f {
            FormulaView::Exists(vs, h, b) => {
                assert((vs + outer)[vs.len() + j] == outer[j]);
            },
            _ => {},
        }
    } else if outer.len() > 0 {
        match f {
            FormulaView::Exists(vs, h, b) => {
                if exists|k: int| 0 <= k < vs.len() && (#[trigger] vs[k]).0 == x {
                    let k = choose|k: int| 0 <= k < vs.len() && (#[trigger] vs[k]).0 == x;
                    assert((vs + outer)[k] == vs[k]);
                }
            },
            _ => {},
        }
    }
}

} // verus!
