//! From parsed rules to what building them needs: the variables of a rule
//! and the IRIs its references stand for.
use vstd::prelude::*;
use vstd::string::{StrSliceExecFns, StringExecFns};

use crate::rdfs::model::{
    expr_model, formula_model, patterns_model, statements_model, ExprModel, FormulaModel,
    MaybeTrustedStatementModel, PatternModel, SignedPatternModel, StatementModel,
};
use crate::rdfs::model::IriReferenceModel;
use crate::rdfs::parsing::{is_iri, is_iri_reference};
use crate::rdfs::{Expr, Formula, IriBuf, IriRefBuf, IriReference, Pattern, Span, Statement, VarIdent};
use crate::Meta;

verus! {

/// The variable an expression is, if it is one.
pub open spec fn expr_vars(e: ExprModel) -> Seq<Seq<char>> {
    match e {
        ExprModel::Var(x) => seq![x],
        ExprModel::IriRef(_) => Seq::empty(),
    }
}

/// The variables of a pattern, subject first.
pub open spec fn pattern_vars(p: PatternModel) -> Seq<Seq<char>> {
    expr_vars(p.subject.0) + expr_vars(p.predicate.0) + expr_vars(p.object.0)
}

pub open spec fn patterns_vars(ps: Seq<(SignedPatternModel, Span)>) -> Seq<Seq<char>>
    decreases ps.len(),
{
    if ps.len() == 0 {
        Seq::empty()
    } else {
        patterns_vars(ps.drop_last()) + pattern_vars(ps.last().0.pattern.0)
    }
}

pub open spec fn statement_vars(s: StatementModel) -> Seq<Seq<char>> {
    match s {
        StatementModel::Eq(a, b) => expr_vars(a.0) + expr_vars(b.0),
        StatementModel::Pattern(p) => pattern_vars(p),
    }
}

pub open spec fn statements_vars(ss: Seq<(MaybeTrustedStatementModel, Span)>) -> Seq<Seq<char>>
    decreases ss.len(),
{
    if ss.len() == 0 {
        Seq::empty()
    } else {
        statements_vars(ss.drop_last()) + statement_vars(ss.last().0.statement.0.statement.0)
    }
}

/// The variables occurring in the patterns and statements of a formula,
/// in order, with repetitions. The variables listed after `forall` and
/// `exists` are not among them.
pub open spec fn formula_vars(f: FormulaModel) -> Seq<Seq<char>>
    decreases f,
{
    match f {
        FormulaModel::ForAll { constraints, inner, .. } => patterns_vars(constraints.0) + formula_vars(inner.0),
        FormulaModel::Exists { hypothesis, inner, .. } => patterns_vars(hypothesis.0) + formula_vars(inner.0),
        FormulaModel::Conclusion(c) => statements_vars(c),
    }
}

/// `names` with `x` added at the end, unless it is there already.
pub open spec fn declare_one(names: Seq<Seq<char>>, x: Seq<char>) -> Seq<Seq<char>> {
    if names.contains(x) {
        names
    } else {
        names.push(x)
    }
}

/// `names` with each of `occ` declared in turn.
pub open spec fn declare_all(names: Seq<Seq<char>>, occ: Seq<Seq<char>>) -> Seq<Seq<char>>
    decreases occ.len(),
{
    if occ.len() == 0 {
        names
    } else {
        declare_one(declare_all(names, occ.drop_last()), occ.last())
    }
}

pub proof fn lemma_declare_all_push(names: Seq<Seq<char>>, occ: Seq<Seq<char>>, x: Seq<char>)
    ensures
        declare_all(names, occ.push(x)) == declare_one(declare_all(names, occ), x),
{
    assert(occ.push(x).drop_last() =~= occ);
}

pub proof fn lemma_declare_all_concat(names: Seq<Seq<char>>, a: Seq<Seq<char>>, b: Seq<Seq<char>>)
    ensures
        declare_all(names, a + b) == declare_all(declare_all(names, a), b),
    decreases b.len(),
{
    if b.len() == 0 {
        assert(a + b =~= a);
    } else {
        assert((a + b).drop_last() =~= a + b.drop_last());
        lemma_declare_all_concat(names, a, b.drop_last());
    }
}

/// Declaring keeps the names distinct, keeps every name, and adds exactly
/// the declared ones.
pub proof fn lemma_declare_all(names: Seq<Seq<char>>, occ: Seq<Seq<char>>)
    requires
        names.no_duplicates(),
    ensures
        declare_all(names, occ).no_duplicates(),
        forall|x: Seq<char>| #[trigger] declare_all(names, occ).contains(x) <==> names.contains(x) || occ.contains(x),
    decreases occ.len(),
{
    if occ.len() > 0 {
        lemma_declare_all(names, occ.drop_last());
        let d = declare_all(names, occ.drop_last());
        assert forall|x: Seq<char>| #[trigger] declare_all(names, occ).contains(x) <==> names.contains(x) || occ.contains(x) by {
            if occ.contains(x) && !occ.drop_last().contains(x) {
                let i = choose|i: int| 0 <= i < occ.len() && occ[i] == x;
                if i < occ.len() - 1 {
                    assert(occ.drop_last()[i] == x);
                }
                assert(x == occ.last());
            }
            if occ.drop_last().contains(x) {
                let i = choose|i: int| 0 <= i < occ.drop_last().len() && occ.drop_last()[i] == x;
                assert(occ[i] == x);
            }
            if !d.contains(occ.last()) && d.push(occ.last()).contains(x) {
                let i = choose|i: int| 0 <= i < d.len() + 1 && d.push(occ.last())[i] == x;
                if i < d.len() {
                    assert(d[i] == x);
                }
            }
            if !d.contains(occ.last()) && d.contains(x) {
                let i = choose|i: int| 0 <= i < d.len() && d[i] == x;
                assert(d.push(occ.last())[i] == x);
            }
            if !d.contains(occ.last()) && x == occ.last() {
                assert(d.push(occ.last())[d.len() as int] == x);
            }
        }
    }
}

/// Position of the first occurrence of `x` in `occ`.
pub open spec fn first_pos(occ: Seq<Seq<char>>, x: Seq<char>) -> int
    decreases occ.len(),
{
    if occ.len() == 0 {
        0
    } else if occ.drop_last().contains(x) {
        first_pos(occ.drop_last(), x)
    } else {
        occ.len() - 1
    }
}

proof fn lemma_first_pos_bound(occ: Seq<Seq<char>>, x: Seq<char>)
    requires
        occ.contains(x),
    ensures
        0 <= first_pos(occ, x) < occ.len(),
        occ[first_pos(occ, x)] == x,
    decreases occ.len(),
{
    if occ.drop_last().contains(x) {
        lemma_first_pos_bound(occ.drop_last(), x);
    } else {
        let i = choose|i: int| 0 <= i < occ.len() && occ[i] == x;
        if i < occ.len() - 1 {
            assert(occ.drop_last()[i] == x);
        }
    }
}

/// Declaring the names in turn numbers them `0` to `k - 1` (`k` being the
/// number of distinct names) in the order of their first occurrences.
pub proof fn lemma_declare_all_numbers_by_first_occurrence(occ: Seq<Seq<char>>)
    ensures
        ({
            let n = declare_all(Seq::empty(), occ);
            &&& n.no_duplicates()
            &&& forall|x: Seq<char>| #[trigger] n.contains(x) <==> occ.contains(x)
            &&& forall|i: int, j: int| 0 <= i < j < n.len() ==> first_pos(occ, #[trigger] n[i]) < first_pos(occ, #[trigger] n[j])
        }),
    decreases occ.len(),
{
    lemma_declare_all(Seq::empty(), occ);
    if occ.len() > 0 {
        let p = occ.drop_last();
        lemma_declare_all_numbers_by_first_occurrence(p);
        let d = declare_all(Seq::empty(), p);
        let n = declare_all(Seq::empty(), occ);
        let x = occ.last();
        assert(occ.drop_last() == p);
        assert forall|y: Seq<char>| p.contains(y) implies first_pos(occ, y) == first_pos(p, y) by {}
        if d.contains(x) {
            assert(n == d);
            assert forall|i: int, j: int| 0 <= i < j < n.len() implies first_pos(occ, #[trigger] n[i]) < first_pos(occ, #[trigger] n[j]) by {
                assert(d.contains(d[i]));
                assert(d.contains(d[j]));
            }
        } else {
            assert(n == d.push(x));
            assert(!p.contains(x));
            assert(first_pos(occ, x) == occ.len() - 1);
            assert forall|i: int, j: int| 0 <= i < j < n.len() implies first_pos(occ, #[trigger] n[i]) < first_pos(occ, #[trigger] n[j]) by {
                assert(d.contains(n[i])) by {
                    assert(n[i] == d[i]);
                }
                lemma_first_pos_bound(p, n[i]);
                if j < d.len() {
                    assert(n[j] == d[j]);
                    assert(d.contains(d[j]));
                } else {
                    assert(n[j] == x);
                }
            }
        }
    }
}

/// Variables of a rule, numbered in the order they occur.
pub struct Scope {
    names: Vec<String>,
}

impl Scope {
    /// The names of the variables, by number.
    pub closed spec fn names(&self) -> Seq<Seq<char>> {
        self.names@.map_values(|s: String| s@)
    }

    pub open spec fn wf(&self) -> bool {
        self.names().no_duplicates()
    }

    /// The variables of `formula`, numbered in the order they occur in its
    /// patterns and statements.
    pub fn new(formula: &Formula) -> (r: Scope)
        ensures
            r.wf(),
            r.names() == declare_all(Seq::empty(), formula_vars(formula_model(*formula))),
            forall|x: Seq<char>| #[trigger] r.names().contains(x) <==> formula_vars(formula_model(*formula)).contains(x),
    {
        let mut r = Scope { names: Vec::new() };
        assert(r.names() =~= Seq::<Seq<char>>::empty());
        r.declare_formula(formula);
        proof {
            lemma_declare_all(Seq::empty(), formula_vars(formula_model(*formula)));
        }
        r
    }

    /// A formula's scope numbers its variables `0` to `k - 1`, `k` being the
    /// number of distinct variables occurring in its patterns and
    /// statements, in the order of their first occurrences; `get` gives
    /// these numbers.
    pub proof fn lemma_numbers_by_first_occurrence(&self, formula: Formula)
        requires
            self.names() == declare_all(Seq::empty(), formula_vars(formula_model(formula))),
        ensures
            self.names().no_duplicates(),
            forall|x: Seq<char>| #[trigger] self.names().contains(x) <==> formula_vars(formula_model(formula)).contains(x),
            forall|i: int, j: int|
                0 <= i < j < self.names().len() ==> first_pos(formula_vars(formula_model(formula)), #[trigger] self.names()[i])
                    < first_pos(formula_vars(formula_model(formula)), #[trigger] self.names()[j]),
    {
        lemma_declare_all_numbers_by_first_occurrence(formula_vars(formula_model(formula)));
    }

    /// The number of variables.
    pub fn len(&self) -> (r: usize)
        ensures
            r == self.names().len(),
    {
        self.names.len()
    }

    /// The name of variable `i`.
    pub fn name(&self, i: usize) -> (r: &String)
        requires
            i < self.names().len(),
        ensures
            r@ == self.names()[i as int],
    {
        &self.names[i]
    }

    /// The number of the variable, if it is declared.
    pub fn get(&self, name: &VarIdent) -> (r: Option<usize>)
        requires
            self.wf(),
        ensures
            match r {
                Some(i) => i < self.names().len() && self.names()[i as int] == name.0@,
                None => !self.names().contains(name.0@),
            },
    {
        let mut i: usize = 0;
        while i < self.names.len()
            invariant
                i <= self.names@.len(),
                forall|t: int| 0 <= t < i ==> self.names@[t]@ != name.0@,
            decreases self.names@.len() - i,
        {
            if self.names[i] == name.0 {
                return Some(i);
            }
            i = i + 1;
        }
        proof {
            if self.names().contains(name.0@) {
                let t = choose|t: int| 0 <= t < self.names().len() && self.names()[t] == name.0@;
                assert(self.names@[t]@ == name.0@);
            }
        }
        None
    }

    fn declare_var(&mut self, name: &VarIdent)
        requires
            old(self).wf(),
        ensures
            final(self).wf(),
            final(self).names() == declare_one(old(self).names(), name.0@),
    {
        if self.get(name).is_none() {
            self.names.push(name.0.clone());
            proof {
                assert(self.names() =~= old(self).names().push(name.0@));
            }
        }
    }

    fn declare_expr(&mut self, expr: &Meta<Expr, Span>)
        requires
            old(self).wf(),
        ensures
            final(self).wf(),
            final(self).names() == declare_all(old(self).names(), expr_vars(expr_model(expr.0))),
    {
        proof {
            lemma_declare_all_push(old(self).names(), Seq::empty(), expr_vars(expr_model(expr.0)).last());
        }
        match &expr.0 {
            Expr::Var(name) => {
                self.declare_var(name);
                proof {
                    assert(Seq::<Seq<char>>::empty().push(name.0@) =~= seq![name.0@]);
                }
            },
            Expr::IriRef(_) => {},
        }
    }

    fn declare_pattern(&mut self, pattern: &Pattern)
        requires
            old(self).wf(),
        ensures
            final(self).wf(),
            final(self).names() == declare_all(
                old(self).names(),
                pattern_vars(crate::rdfs::model::pattern_model(*pattern)),
            ),
    {
        let ghost n0 = self.names();
        self.declare_expr(&pattern.subject);
        self.declare_expr(&pattern.predicate);
        self.declare_expr(&pattern.object);
        proof {
            let a = expr_vars(expr_model(pattern.subject.0));
            let b = expr_vars(expr_model(pattern.predicate.0));
            let c = expr_vars(expr_model(pattern.object.0));
            lemma_declare_all_concat(n0, a, b);
            lemma_declare_all_concat(n0, a + b, c);
        }
    }

    fn declare_signed_patterns(&mut self, patterns: &Vec<Meta<crate::rdfs::SignedPattern, Span>>)
        requires
            old(self).wf(),
        ensures
            final(self).wf(),
            final(self).names() == declare_all(old(self).names(), patterns_vars(patterns_model(patterns@))),
    {
        let ghost n0 = self.names();
        let mut i: usize = 0;
        while i < patterns.len()
            invariant
                self.wf(),
                i <= patterns@.len(),
                self.names() == declare_all(n0, patterns_vars(patterns_model(patterns@.subrange(0, i as int)))),
            decreases patterns@.len() - i,
        {
            let ghost before = self.names();
            self.declare_pattern(&patterns[i].0.pattern.0);
            proof {
                let prev = patterns_model(patterns@.subrange(0, i as int));
                let next = patterns_model(patterns@.subrange(0, i + 1));
                assert(next.drop_last() =~= prev);
                assert(next.last() == (crate::rdfs::model::signed_pattern_model(patterns@[i as int].0), patterns@[i as int].1));
                lemma_declare_all_concat(n0, patterns_vars(prev), pattern_vars(next.last().0.pattern.0));
            }
            i = i + 1;
        }
        assert(patterns@.subrange(0, patterns@.len() as int) =~= patterns@);
    }

    fn declare_statements(&mut self, statements: &Vec<Meta<crate::rdfs::MaybeTrustedStatement, Span>>)
        requires
            old(self).wf(),
        ensures
            final(self).wf(),
            final(self).names() == declare_all(old(self).names(), statements_vars(statements_model(statements@))),
    {
        let ghost n0 = self.names();
        let mut i: usize = 0;
        while i < statements.len()
            invariant
                self.wf(),
                i <= statements@.len(),
                self.names() == declare_all(n0, statements_vars(statements_model(statements@.subrange(0, i as int)))),
            decreases statements@.len() - i,
        {
            let ghost before = self.names();
            match &statements[i].0.statement.0.statement.0 {
                Statement::Eq(a, b) => {
                    self.declare_expr(a);
                    self.declare_expr(b);
                    proof {
                        lemma_declare_all_concat(before, expr_vars(expr_model(a.0)), expr_vars(expr_model(b.0)));
                    }
                },
                Statement::Pattern(p) => self.declare_pattern(p),
            }
            proof {
                let prev = statements_model(statements@.subrange(0, i as int));
                let next = statements_model(statements@.subrange(0, i + 1));
                assert(next.drop_last() =~= prev);
                assert(next.last() == (
                    crate::rdfs::model::maybe_trusted_statement_model(statements@[i as int].0),
                    statements@[i as int].1,
                ));
                lemma_declare_all_concat(n0, statements_vars(prev), statement_vars(next.last().0.statement.0.statement.0));
            }
            i = i + 1;
        }
        assert(statements@.subrange(0, statements@.len() as int) =~= statements@);
    }

    fn declare_formula(&mut self, formula: &Formula)
        requires
            old(self).wf(),
        ensures
            final(self).wf(),
            final(self).names() == declare_all(old(self).names(), formula_vars(formula_model(*formula))),
        decreases formula,
    {
        let ghost n0 = self.names();
        match formula {
            Formula::ForAll(a) => {
                self.declare_signed_patterns(&a.constraints.0.patterns);
                self.declare_formula(&a.inner.0);
                proof {
                    lemma_declare_all_concat(
                        n0,
                        patterns_vars(patterns_model(a.constraints.0.patterns@)),
                        formula_vars(formula_model(a.inner.0)),
                    );
                }
            },
            Formula::Exists(e) => {
                self.declare_signed_patterns(&e.hypothesis.0.patterns);
                self.declare_formula(&e.inner.0);
                proof {
                    lemma_declare_all_concat(
                        n0,
                        patterns_vars(patterns_model(e.hypothesis.0.patterns@)),
                        formula_vars(formula_model(e.inner.0)),
                    );
                }
            },
            Formula::Conclusion(c) => {
                self.declare_statements(&c.statements);
            },
        }
    }
}


/// The scheme found from position `i` on: what precedes the first `:`,
/// unless a `/`, `?` or `#` comes first.
pub open spec fn scheme_from(r: Seq<char>, i: int) -> Option<Seq<char>>
    decreases r.len() - i,
{
    if i < 0 || i >= r.len() {
        None
    } else if r[i] == '/' || r[i] == '?' || r[i] == '#' {
        None
    } else if r[i] == ':' {
        Some(r.subrange(0, i))
    } else {
        scheme_from(r, i + 1)
    }
}

/// The scheme of an IRI reference, when it has one: what precedes its
/// first `:`, when no `/`, `?` or `#` comes before.
pub open spec fn scheme_of(r: Seq<char>) -> Option<Seq<char>> {
    scheme_from(r, 0)
}

/// The IRI reference `r` resolved against the base IRI `base`.
pub uninterp spec fn resolved_iri(r: Seq<char>, base: Seq<char>) -> Seq<char>;

/// `iref::IriRef::scheme`, on `r` as `iref::IriRef::new` reads it: the
/// scheme of the reference, if it has one. As the source shows, the scheme
/// is the part of `r` before its first `:`, and a reference with a scheme
/// is an IRI (`as_iri` relies on it).
#[verifier::external_body]
fn iri_ref_scheme(r: &str) -> (s: Option<String>)
    requires
        is_iri_reference(r@),
    ensures
        s matches Some(x) ==> scheme_of(r@) == Some(x@),
        s is None ==> scheme_of(r@) is None,
        s matches Some(x) ==> x@.len() < r@.len() && r@.subrange(0, x@.len() as int) == x@ && r@[x@.len() as int] == ':'
            && !x@.contains(':'),
        s is Some ==> is_iri(r@),
{
    iref::IriRef::new(r).unwrap().scheme().map(|x| x.as_str().to_owned())
}

/// `iref::IriRef::resolved`: the reference `r` resolved against the base
/// IRI `base` (RFC 3986, section 5.2), both read by iref's `new`; the result
/// is an IRI.
#[verifier::external_body]
fn resolve_against(r: &str, base: &str) -> (s: String)
    requires
        is_iri_reference(r@),
        is_iri(base@),
    ensures
        s@ == resolved_iri(r@, base@),
        is_iri(s@),
{
    String::from(iref::IriRef::new(r).unwrap().resolved(iref::Iri::new(base).unwrap()))
}

/// Error while resolving IRI references.
#[derive(Debug)]
pub enum Error {
    NoBaseIri,
    InvalidIri(String),
}

/// Base IRI and IRI prefixes in force.
pub struct Context {
    base_iri: Option<IriBuf>,
    iri_prefixes: Vec<(String, IriBuf)>,
}

/// The prefixes bound by the bindings `b`, each binding replacing the
/// earlier ones of its prefix.
pub open spec fn prefix_map(b: Seq<(String, IriBuf)>) -> Map<Seq<char>, Seq<char>>
    decreases b.len(),
{
    if b.len() == 0 {
        Map::empty()
    } else {
        prefix_map(b.drop_last()).insert(b.last().0@, b.last().1@)
    }
}

/// A prefix bound by none of the bindings from `i` on is bound as by the
/// bindings before `i`.
pub proof fn lemma_prefix_map_unbound_after(b: Seq<(String, IriBuf)>, i: int, k: Seq<char>)
    requires
        0 <= i <= b.len(),
        forall|t: int| i <= t < b.len() ==> (#[trigger] b[t]).0@ != k,
    ensures
        prefix_map(b).dom().contains(k) == prefix_map(b.subrange(0, i)).dom().contains(k),
        prefix_map(b).dom().contains(k) ==> prefix_map(b)[k] == prefix_map(b.subrange(0, i))[k],
    decreases b.len() - i,
{
    if i < b.len() {
        let c = b.drop_last();
        assert forall|t: int| i <= t < c.len() implies (#[trigger] c[t]).0@ != k by {
            assert(c[t] == b[t]);
        }
        assert(b.last() == b[b.len() - 1]);
        lemma_prefix_map_unbound_after(c, i, k);
        assert(c.subrange(0, i) =~= b.subrange(0, i));
    } else {
        assert(b.subrange(0, i) =~= b);
    }
}

impl Context {
    /// The base IRI.
    pub closed spec fn base(&self) -> Option<Seq<char>> {
        match self.base_iri {
            Some(b) => Some(b@),
            None => None,
        }
    }

    /// The IRI each prefix stands for.
    pub closed spec fn prefixes(&self) -> Map<Seq<char>, Seq<char>> {
        prefix_map(self.iri_prefixes@)
    }

    /// No base IRI and no prefix.
    pub fn new() -> (r: Context)
        ensures
            r.base() is None,
            r.prefixes() == Map::<Seq<char>, Seq<char>>::empty(),
    {
        Context { base_iri: None, iri_prefixes: Vec::new() }
    }

    /// Sets the base IRI, giving back the one it replaces.
    pub fn replace_base_iri(&mut self, iri: Option<IriBuf>) -> (r: Option<IriBuf>)
        ensures
            final(self).base() == (match iri {
                Some(b) => Some(b@),
                None => None::<Seq<char>>,
            }),
            final(self).prefixes() == old(self).prefixes(),
            (match r {
                Some(b) => Some(b@),
                None => None::<Seq<char>>,
            }) == old(self).base(),
    {
        let old_base = self.base_iri.take();
        self.base_iri = iri;
        old_base
    }

    /// Binds `prefix` to `iri`, in place of what it was bound to.
    pub fn insert_prefix(&mut self, prefix: String, iri: IriBuf)
        ensures
            final(self).prefixes() == old(self).prefixes().insert(prefix@, iri@),
            final(self).base() == old(self).base(),
    {
        let ghost b0 = self.iri_prefixes@;
        self.iri_prefixes.push((prefix, iri));
        proof {
            assert(self.iri_prefixes@.drop_last() =~= b0);
        }
    }

    /// The IRI `prefix` stands for.
    pub fn resolve_iri_prefix(&self, prefix: &str) -> (r: Option<&IriBuf>)
        ensures
            match r {
                Some(iri) => self.prefixes().dom().contains(prefix@) && self.prefixes()[prefix@] == iri@,
                None => !self.prefixes().dom().contains(prefix@),
            },
    {
        let b = &self.iri_prefixes;
        let key = String::from_str(prefix);
        let mut i = b.len();
        while i > 0
            invariant
                i <= b@.len(),
                b == &self.iri_prefixes,
                key@ == prefix@,
                forall|t: int| i <= t < b@.len() ==> (#[trigger] b@[t]).0@ != prefix@,
            decreases i,
        {
            if b[i - 1].0 == key {
                proof {
                    lemma_prefix_map_unbound_after(b@, i as int, prefix@);
                    assert(b@.subrange(0, i as int).drop_last() =~= b@.subrange(0, i - 1));
                }
                return Some(&b[i - 1].1);
            }
            i = i - 1;
        }
        proof {
            lemma_prefix_map_unbound_after(b@, 0, prefix@);
            assert(b@.subrange(0, 0) =~= Seq::<(String, IriBuf)>::empty());
        }
        None
    }

    /// The IRI `iri_ref` stands for: itself when it has a scheme, else
    /// its resolution against the base IRI, which must then be set.
    pub fn resolve(&self, iri_ref: &IriRefBuf, meta: Span) -> (r: Result<IriBuf, Meta<Error, Span>>)
        ensures
            match (r, resolution(iri_ref@, self.base())) {
                (Ok(iri), Ok(v)) => iri@ == v,
                (Err(e), Err(ev)) => error_model(e.0) == ev && e.1 == meta,
                _ => false,
            },
    {
        proof {
            use_type_invariant(iri_ref);
        }
        match iri_ref_scheme(iri_ref.as_str()) {
            Some(_) => Ok(IriBuf::from_checked(iri_ref.as_str().to_owned())),
            None => match &self.base_iri {
                Some(base_iri) => {
                    proof {
                        use_type_invariant(base_iri);
                    }
                    Ok(IriBuf::from_checked(resolve_against(iri_ref.as_str(), base_iri.as_str())))
                },
                None => Err(Meta(Error::NoBaseIri, meta)),
            },
        }
    }
}

/// Error while resolving IRI references, with text as character sequences.
pub enum ErrorModel {
    NoBaseIri,
    InvalidIri(Seq<char>),
}

pub open spec fn error_model(e: Error) -> ErrorModel {
    match e {
        Error::NoBaseIri => ErrorModel::NoBaseIri,
        Error::InvalidIri(s) => ErrorModel::InvalidIri(s@),
    }
}

/// The IRI an IRI reference stands for under the base IRI `base`.
pub open spec fn resolution(r: Seq<char>, base: Option<Seq<char>>) -> Result<Seq<char>, ErrorModel> {
    if scheme_of(r) is Some {
        Ok(r)
    } else {
        match base {
            Some(b) => Ok(resolved_iri(r, b)),
            None => Err(ErrorModel::NoBaseIri),
        }
    }
}

/// The IRI a parsed IRI reference stands for: a compact one whose scheme
/// is a bound prefix is the prefix's IRI followed by what comes after the
/// `:`; any other is resolved against the base IRI.
pub open spec fn reference_resolution(
    x: IriReferenceModel,
    base: Option<Seq<char>>,
    prefixes: Map<Seq<char>, Seq<char>>,
) -> Result<Seq<char>, ErrorModel> {
    match x {
        IriReferenceModel::Expanded(r) => resolution(r, base),
        IriReferenceModel::Compact(r) => match scheme_of(r) {
            Some(p) => if prefixes.dom().contains(p) {
                let c = prefixes[p] + r.subrange(p.len() as int + 1, r.len() as int);
                if is_iri(c) {
                    Ok(c)
                } else {
                    Err(ErrorModel::InvalidIri(c))
                }
            } else {
                resolution(r, base)
            },
            None => resolution(r, base),
        },
    }
}

impl IriReference {
    /// The IRI this reference stands for in `context`.
    pub fn resolve(&self, context: &Context, meta: Span) -> (r: Result<IriBuf, Meta<Error, Span>>)
        ensures
            match (r, reference_resolution(crate::rdfs::model::iri_reference_model(*self), context.base(), context.prefixes())) {
                (Ok(iri), Ok(v)) => iri@ == v,
                (Err(e), Err(ev)) => error_model(e.0) == ev && e.1 == meta,
                _ => false,
            },
    {
        match self {
            IriReference::Expanded(r) => context.resolve(r, meta),
            IriReference::Compact(r) => {
                proof {
                    use_type_invariant(r);
                }
                match iri_ref_scheme(r.as_str()) {
                    Some(scheme) => match context.resolve_iri_prefix(scheme.as_str()) {
                        Some(prefix) => {
                            let n = r.as_str().unicode_len();
                            let suffix = r.as_str().substring_char(scheme.as_str().unicode_len() + 1, n);
                            let candidate = prefix.as_str().to_owned().concat(suffix);
                            match IriBuf::new(candidate) {
                                Ok(iri) => Ok(iri),
                                Err(c) => Err(Meta(Error::InvalidIri(c), meta)),
                            }
                        },
                        None => context.resolve(r, meta),
                    },
                    None => context.resolve(r, meta),
                }
            },
        }
    }
}

} // verus!
