//! Inference rules: a hypothesis made of signed triple patterns, and a
//! conclusion made of signed statement patterns.
use vstd::prelude::*;

use crate::id::Id;
use crate::module::sub_module::ResourceGenerator;
use crate::pattern::{IdOrVar, Pattern, PatternSubstitution};
use crate::semantics::TripleStatement;
use crate::semantics::{spec_value, trusted_like, MaybeTrusted};
use crate::sign::Signed;
use crate::triple::Triple;

verus! {

/// Statement pattern: a triple pattern, or the equality of two resources.
#[derive(Debug, Clone, Copy, PartialEq, Eq, PartialOrd, Ord, Hash)]
pub enum StatementPattern {
    Triple(Pattern),
    Eq(IdOrVar, IdOrVar),
}

/// Rule hypothesis.
#[derive(Debug, Clone, PartialEq, Eq, PartialOrd, Ord, Hash)]
pub struct Hypothesis {
    pub patterns: Vec<Signed<Pattern>>,
}

/// Rule conclusion.
#[derive(Debug, Clone, PartialEq, Eq, PartialOrd, Ord, Hash)]
pub struct Conclusion {
    pub statements: Vec<MaybeTrusted<Signed<StatementPattern>>>,
}

/// Inference rule.
#[derive(Debug, Clone, PartialEq, Eq, PartialOrd, Ord, Hash)]
pub struct Rule {
    /// Identifier of the rule, as a resource.
    pub id: Id,
    pub hypothesis: Hypothesis,
    pub conclusion: Conclusion,
}

/// The variables of an identifier-or-variable.
pub open spec fn id_or_var_vars(v: IdOrVar) -> Set<usize> {
    match v {
        IdOrVar::Id(_) => Set::empty(),
        IdOrVar::Var(x) => set![x],
    }
}

/// The variables of a statement pattern.
pub open spec fn statement_vars(p: StatementPattern) -> Set<usize> {
    match p {
        StatementPattern::Triple(t) => id_or_var_vars(t.0).union(id_or_var_vars(t.1)).union(id_or_var_vars(t.2)),
        StatementPattern::Eq(a, b) => id_or_var_vars(a).union(id_or_var_vars(b)),
    }
}

/// The identifier of an identifier-or-variable under `m`, where `m` binds
/// its variable.
pub open spec fn value_of(v: IdOrVar, m: Map<usize, Id>) -> Id {
    match v {
        IdOrVar::Id(id) => id,
        IdOrVar::Var(x) => m[x],
    }
}

/// A statement pattern with its variables replaced as `m` binds them.
pub open spec fn statement_of(p: StatementPattern, m: Map<usize, Id>) -> TripleStatement {
    match p {
        StatementPattern::Triple(t) => TripleStatement::Triple(Triple(value_of(t.0, m), value_of(t.1, m), value_of(t.2, m))),
        StatementPattern::Eq(a, b) => TripleStatement::Eq(value_of(a, m), value_of(b, m)),
    }
}

/// Whether `after` keeps every binding of `before`, binds every variable of
/// `vars`, and binds nothing else.
pub open spec fn binds_also(before: Map<usize, Id>, after: Map<usize, Id>, vars: Set<usize>) -> bool {
    &&& forall|x: usize| #[trigger] before.contains_key(x) ==> after.contains_key(x) && after[x] == before[x]
    &&& forall|x: usize| #[trigger] vars.contains(x) ==> after.contains_key(x)
    &&& forall|x: usize| #[trigger] after.contains_key(x) ==> before.contains_key(x) || vars.contains(x)
}

/// The identifier of `v` under the substitution; an unbound variable is
/// bound to a new resource of `generator`.
pub fn instantiate_id_or_var<G: ResourceGenerator>(v: IdOrVar, substitution: &mut PatternSubstitution, generator: &mut G) -> (r: Id)
    ensures
        binds_also(old(substitution)@, final(substitution)@, id_or_var_vars(v)),
        r == value_of(v, final(substitution)@),
{
    match v {
        IdOrVar::Id(id) => id,
        IdOrVar::Var(x) => match substitution.get(x) {
            Some(id) => id,
            None => {
                let id = generator.new_resource();
                substitution.bind(x, id);
                id
            },
        },
    }
}

proof fn lemma_binds_also_trans(a: Map<usize, Id>, b: Map<usize, Id>, c: Map<usize, Id>, u: Set<usize>, v: Set<usize>)
    requires
        binds_also(a, b, u),
        binds_also(b, c, v),
    ensures
        binds_also(a, c, u.union(v)),
{
}

impl StatementPattern {
    /// The statement, its variables replaced as the substitution binds
    /// them; each unbound variable is bound to a new resource of
    /// `generator` first.
    pub fn instantiate<G: ResourceGenerator>(&self, substitution: &mut PatternSubstitution, generator: &mut G) -> (r: TripleStatement)
        ensures
            binds_also(old(substitution)@, final(substitution)@, statement_vars(*self)),
            r == statement_of(*self, final(substitution)@),
    {
        match self {
            StatementPattern::Triple(t) => {
                let ghost m0 = substitution@;
                let s = instantiate_id_or_var(t.0, substitution, generator);
                let ghost m1 = substitution@;
                let p = instantiate_id_or_var(t.1, substitution, generator);
                let ghost m2 = substitution@;
                let o = instantiate_id_or_var(t.2, substitution, generator);
                proof {
                    lemma_binds_also_trans(m0, m1, m2, id_or_var_vars(t.0), id_or_var_vars(t.1));
                    lemma_binds_also_trans(m0, m2, substitution@, id_or_var_vars(t.0).union(id_or_var_vars(t.1)), id_or_var_vars(t.2));
                    if let IdOrVar::Var(x) = t.0 {
                        assert(id_or_var_vars(t.0).contains(x));
                        assert(m1.contains_key(x) && m2.contains_key(x));
                    }
                    if let IdOrVar::Var(x) = t.1 {
                        assert(id_or_var_vars(t.1).contains(x));
                        assert(m2.contains_key(x));
                    }
                }
                TripleStatement::Triple(Triple(s, p, o))
            },
            StatementPattern::Eq(a, b) => {
                let ghost m0 = substitution@;
                let x = instantiate_id_or_var(*a, substitution, generator);
                let ghost m1 = substitution@;
                let y = instantiate_id_or_var(*b, substitution, generator);
                proof {
                    lemma_binds_also_trans(m0, m1, substitution@, id_or_var_vars(*a), id_or_var_vars(*b));
                    if let IdOrVar::Var(z) = *a {
                        assert(id_or_var_vars(*a).contains(z));
                        assert(m1.contains_key(z));
                    }
                }
                TripleStatement::Eq(x, y)
            },
        }
    }
}

/// The variables of the statements.
pub open spec fn statements_vars(s: Seq<MaybeTrusted<Signed<StatementPattern>>>) -> Set<usize>
    decreases s.len(),
{
    if s.len() == 0 {
        Set::empty()
    } else {
        statements_vars(s.drop_last()).union(statement_vars(spec_value(s.last()).1))
    }
}

/// A conclusion statement instantiated under `m`, keeping its sign and
/// trust.
pub open spec fn instance_of(st: MaybeTrusted<Signed<StatementPattern>>, m: Map<usize, Id>) -> MaybeTrusted<
    Signed<TripleStatement>,
> {
    trusted_like(st, Signed(spec_value(st).0, statement_of(spec_value(st).1, m)))
}

impl Conclusion {
    /// The statements, their variables replaced as the substitution binds
    /// them; each unbound variable is bound to a new resource of
    /// `generator` first.
    pub fn instantiate<G: ResourceGenerator>(&self, substitution: &mut PatternSubstitution, generator: &mut G) -> (r: Vec<
        MaybeTrusted<Signed<TripleStatement>>,
    >)
        ensures
            binds_also(old(substitution)@, final(substitution)@, statements_vars(self.statements@)),
            r@.len() == self.statements@.len(),
            forall|i: int| 0 <= i < r@.len() ==> #[trigger] r@[i] == instance_of(self.statements@[i], final(substitution)@),
    {
        let mut r: Vec<MaybeTrusted<Signed<TripleStatement>>> = Vec::new();
        let mut j: usize = 0;
        proof {
            assert(self.statements@.take(0) =~= Seq::<MaybeTrusted<Signed<StatementPattern>>>::empty());
        }
        while j < self.statements.len()
            invariant
                j <= self.statements@.len(),
                r@.len() == j,
                binds_also(old(substitution)@, substitution@, statements_vars(self.statements@.take(j as int))),
                forall|i: int| 0 <= i < j ==> #[trigger] r@[i] == instance_of(self.statements@[i], substitution@),
                forall|i: int| 0 <= i < j ==> statement_vars(spec_value(self.statements@[i]).1).subset_of(substitution@.dom()),
            decreases self.statements@.len() - j,
        {
            let (Signed(sign, p), trust) = self.statements[j].into_parts();
            let ghost before = substitution@;
            let st = p.instantiate(substitution, generator);
            proof {
                assert(self.statements@.take(j + 1).drop_last() =~= self.statements@.take(j as int));
                lemma_binds_also_trans(
                    old(substitution)@,
                    before,
                    substitution@,
                    statements_vars(self.statements@.take(j as int)),
                    statement_vars(p),
                );
                assert forall|i: int| 0 <= i < j implies #[trigger] r@[i] == instance_of(self.statements@[i], substitution@) by {
                    lemma_statement_of_stable(spec_value(self.statements@[i]).1, before, substitution@);
                }
            }
            let item = MaybeTrusted::new(Signed(sign, st), trust);
            proof {
                assert(item == instance_of(self.statements@[j as int], substitution@)) by {
                    match self.statements@[j as int] {
                        MaybeTrusted::Trusted(_) => {},
                        MaybeTrusted::Untrusted(_) => {},
                    }
                    match item {
                        MaybeTrusted::Trusted(_) => {},
                        MaybeTrusted::Untrusted(_) => {},
                    }
                }
            }
            r.push(item);
            j = j + 1;
        }
        proof {
            assert(self.statements@.take(j as int) =~= self.statements@);
        }
        r
    }
}

/// A statement whose variables are bound keeps its value when more
/// variables are bound.
proof fn lemma_statement_of_stable(p: StatementPattern, a: Map<usize, Id>, b: Map<usize, Id>)
    requires
        statement_vars(p).subset_of(a.dom()),
        forall|x: usize| #[trigger] a.contains_key(x) ==> b.contains_key(x) && b[x] == a[x],
    ensures
        statement_of(p, b) == statement_of(p, a),
{
    match p {
        StatementPattern::Triple(t) => {
            if let IdOrVar::Var(x) = t.0 {
                assert(statement_vars(p).contains(x));
            }
            if let IdOrVar::Var(x) = t.1 {
                assert(statement_vars(p).contains(x));
            }
            if let IdOrVar::Var(x) = t.2 {
                assert(statement_vars(p).contains(x));
            }
        },
        StatementPattern::Eq(u, v) => {
            if let IdOrVar::Var(x) = u {
                assert(statement_vars(p).contains(x));
            }
            if let IdOrVar::Var(x) = v {
                assert(statement_vars(p).contains(x));
            }
        },
    }
}

} // verus!

verus! {

/// The variable of an identifier-or-variable, if any, as a sequence.
pub open spec fn id_or_var_seq(v: IdOrVar) -> Seq<usize> {
    match v {
        IdOrVar::Id(_) => Seq::empty(),
        IdOrVar::Var(x) => seq![x],
    }
}

/// The variables of a statement pattern, position by position (subject,
/// predicate, object; or left, right).
pub open spec fn statement_var_seq(p: StatementPattern) -> Seq<usize> {
    match p {
        StatementPattern::Triple(t) => id_or_var_seq(t.0) + id_or_var_seq(t.1) + id_or_var_seq(t.2),
        StatementPattern::Eq(a, b) => id_or_var_seq(a) + id_or_var_seq(b),
    }
}

/// The variables of the statements, statement by statement.
pub open spec fn statements_var_seq(s: Seq<MaybeTrusted<Signed<StatementPattern>>>) -> Seq<usize>
    decreases s.len(),
{
    if s.len() == 0 {
        Seq::empty()
    } else {
        statements_var_seq(s.drop_last()) + statement_var_seq(spec_value(s.last()).1)
    }
}

/// The variables of `xs` that `s` does not bind, each once, in order of
/// first occurrence.
pub open spec fn fresh_order(xs: Seq<usize>, s: Map<usize, Id>) -> Seq<usize>
    decreases xs.len(),
{
    if xs.len() == 0 {
        Seq::empty()
    } else {
        let prev = fresh_order(xs.drop_last(), s);
        if s.contains_key(xs.last()) || prev.contains(xs.last()) {
            prev
        } else {
            prev.push(xs.last())
        }
    }
}

/// `s` with each variable of `xs` that is still unbound bound, in turn,
/// to the resource of `fresh` at the same position.
pub open spec fn bound_fresh(s: Map<usize, Id>, xs: Seq<usize>, fresh: Seq<Id>) -> Map<usize, Id>
    decreases xs.len(),
{
    if xs.len() == 0 {
        s
    } else {
        let m = bound_fresh(s, xs.drop_last(), fresh.drop_last());
        if m.contains_key(xs.last()) {
            m
        } else {
            m.insert(xs.last(), fresh.last())
        }
    }
}

/// The variables for which a conclusion needs new resources under `s`.
pub open spec fn conclusion_fresh_vars(c: Conclusion, s: Map<usize, Id>) -> Seq<usize> {
    fresh_order(statements_var_seq(c.statements@), s)
}

/// Every variable of `xs` is bound by `s` or is one of those it leaves
/// unbound.
proof fn lemma_fresh_order_covers(xs: Seq<usize>, s: Map<usize, Id>)
    ensures
        forall|x: usize| xs.contains(x) ==> s.contains_key(x) || #[trigger] fresh_order(xs, s).contains(x),
    decreases xs.len(),
{
    if xs.len() > 0 {
        lemma_fresh_order_covers(xs.drop_last(), s);
        assert forall|x: usize| xs.contains(x) implies s.contains_key(x) || #[trigger] fresh_order(xs, s).contains(x) by {
            let k = choose|k: int| 0 <= k < xs.len() && xs[k] == x;
            if k < xs.len() - 1 {
                assert(xs.drop_last()[k] == x);
                assert(xs.drop_last().contains(x));
                let prev = fresh_order(xs.drop_last(), s);
                if !s.contains_key(x) {
                    assert(prev.contains(x));
                    let j = choose|j: int| 0 <= j < prev.len() && prev[j] == x;
                    if !(s.contains_key(xs.last()) || prev.contains(xs.last())) {
                        assert(prev.push(xs.last())[j] == x);
                    }
                }
            } else {
                let prev = fresh_order(xs.drop_last(), s);
                if !(s.contains_key(xs.last()) || prev.contains(xs.last())) {
                    assert(prev.push(xs.last())[prev.len() as int] == x);
                }
            }
        }
    }
}

/// Binding fresh resources keeps every binding and binds every variable
/// of `xs`.
proof fn lemma_bound_fresh_binds(s: Map<usize, Id>, xs: Seq<usize>, fresh: Seq<Id>)
    ensures
        forall|x: usize| #[trigger] s.contains_key(x) ==> bound_fresh(s, xs, fresh).contains_key(x) && bound_fresh(s, xs, fresh)[x]
            == s[x],
        forall|x: usize| xs.contains(x) ==> #[trigger] bound_fresh(s, xs, fresh).contains_key(x),
    decreases xs.len(),
{
    if xs.len() > 0 {
        lemma_bound_fresh_binds(s, xs.drop_last(), fresh.drop_last());
        assert forall|x: usize| xs.contains(x) implies #[trigger] bound_fresh(s, xs, fresh).contains_key(x) by {
            let k = choose|k: int| 0 <= k < xs.len() && xs[k] == x;
            let m = bound_fresh(s, xs.drop_last(), fresh.drop_last());
            assert(bound_fresh(s, xs, fresh) == if m.contains_key(xs.last()) {
                m
            } else {
                m.insert(xs.last(), fresh.last())
            });
            if k < xs.len() - 1 {
                assert(xs.drop_last()[k] == x);
                assert(xs.drop_last().contains(x));
            }
        }
    }
}

/// The variables of each statement occur in the variables of the
/// statements.
proof fn lemma_statement_vars_in_seq(stmts: Seq<MaybeTrusted<Signed<StatementPattern>>>, i: int)
    requires
        0 <= i < stmts.len(),
    ensures
        forall|x: usize| #[trigger] statement_vars(spec_value(stmts[i]).1).contains(x) ==> statements_var_seq(stmts).contains(x),
    decreases stmts.len(),
{
    let whole = statements_var_seq(stmts);
    let prev = statements_var_seq(stmts.drop_last());
    assert(whole == prev + statement_var_seq(spec_value(stmts.last()).1));
    if i < stmts.len() - 1 {
        lemma_statement_vars_in_seq(stmts.drop_last(), i);
        assert(stmts.drop_last()[i] == stmts[i]);
        assert forall|x: usize| #[trigger] statement_vars(spec_value(stmts[i]).1).contains(x) implies whole.contains(x) by {
            assert(prev.contains(x));
            let k = choose|k: int| 0 <= k < prev.len() && prev[k] == x;
            assert(whole[k] == x);
        }
    } else {
        let p = spec_value(stmts[i]).1;
        let q = statement_var_seq(p);
        assert forall|x: usize| #[trigger] statement_vars(p).contains(x) implies whole.contains(x) by {
            let k: int = match p {
                StatementPattern::Triple(t) => if t.0 == IdOrVar::<Id>::Var(x) {
                    0
                } else if t.1 == IdOrVar::<Id>::Var(x) {
                    id_or_var_seq(t.0).len() as int
                } else {
                    (id_or_var_seq(t.0).len() + id_or_var_seq(t.1).len()) as int
                },
                StatementPattern::Eq(a, b) => if a == IdOrVar::<Id>::Var(x) {
                    0
                } else {
                    id_or_var_seq(a).len() as int
                },
            };
            assert(q[k] == x);
            assert(whole[prev.len() + k] == x);
        }
    }
}

/// Adds the variable of `v` to the fresh variables found so far, if it is
/// unbound and new.
fn add_fresh_var(v: IdOrVar, s: &PatternSubstitution, out: &mut Vec<usize>, Ghost(seen): Ghost<Seq<usize>>)
    requires
        old(out)@ == fresh_order(seen, s@),
    ensures
        final(out)@ == fresh_order(seen + id_or_var_seq(v), s@),
{
    match v {
        IdOrVar::Id(_) => {
            assert(seen + id_or_var_seq(v) =~= seen);
        },
        IdOrVar::Var(x) => {
            let ghost xs = seen + id_or_var_seq(v);
            assert(xs.drop_last() =~= seen);
            assert(xs.last() == x);
            if s.get(x).is_some() {
                return;
            }
            let mut j: usize = 0;
            while j < out.len()
                invariant
                    j <= out@.len(),
                    out@ == fresh_order(seen, s@),
                    forall|k: int| 0 <= k < j ==> out@[k] != x,
                    xs == seen + id_or_var_seq(v),
                    v == IdOrVar::<Id>::Var(x),
                    !s@.contains_key(x),
                decreases out@.len() - j,
            {
                if out[j] == x {
                    proof {
                        assert(out@.contains(x));
                        assert(xs.drop_last() =~= seen);
                        assert(xs.last() == x);
                    }
                    return;
                }
                j = j + 1;
            }
            out.push(x);
        },
    }
}

impl Conclusion {
    /// The variables of the statements that `substitution` leaves unbound,
    /// each once, in order of first occurrence: those that get a new
    /// resource, in the order the resources are drawn.
    pub fn fresh_variables(&self, substitution: &PatternSubstitution) -> (r: Vec<usize>)
        ensures
            r@ == conclusion_fresh_vars(*self, substitution@),
    {
        let mut out: Vec<usize> = Vec::new();
        let mut j: usize = 0;
        proof {
            assert(self.statements@.take(0) =~= Seq::<MaybeTrusted<Signed<StatementPattern>>>::empty());
        }
        while j < self.statements.len()
            invariant
                j <= self.statements@.len(),
                out@ == fresh_order(statements_var_seq(self.statements@.take(j as int)), substitution@),
            decreases self.statements@.len() - j,
        {
            let ghost seen = statements_var_seq(self.statements@.take(j as int));
            let (Signed(_, p), _) = self.statements[j].into_parts();
            proof {
                assert(self.statements@.take(j + 1).drop_last() =~= self.statements@.take(j as int));
                assert(spec_value(self.statements@.take(j + 1).last()).1 == p);
            }
            match p {
                StatementPattern::Triple(t) => {
                    add_fresh_var(t.0, substitution, &mut out, Ghost(seen));
                    add_fresh_var(t.1, substitution, &mut out, Ghost(seen + id_or_var_seq(t.0)));
                    add_fresh_var(t.2, substitution, &mut out, Ghost(seen + id_or_var_seq(t.0) + id_or_var_seq(t.1)));
                    proof {
                        assert(seen + id_or_var_seq(t.0) + id_or_var_seq(t.1) + id_or_var_seq(t.2) =~= seen + statement_var_seq(p));
                    }
                },
                StatementPattern::Eq(a, b) => {
                    add_fresh_var(a, substitution, &mut out, Ghost(seen));
                    add_fresh_var(b, substitution, &mut out, Ghost(seen + id_or_var_seq(a)));
                    proof {
                        assert(seen + id_or_var_seq(a) + id_or_var_seq(b) =~= seen + statement_var_seq(p));
                    }
                },
            }
            j = j + 1;
        }
        proof {
            assert(self.statements@.take(j as int) =~= self.statements@);
        }
        out
    }

    /// The statements, instantiated once the variables that `substitution`
    /// leaves unbound (see `fresh_variables`) are bound, in order, to the
    /// resources `fresh`.
    pub fn instantiate_with(&self, substitution: &mut PatternSubstitution, fresh: &Vec<Id>) -> (r: Vec<
        MaybeTrusted<Signed<TripleStatement>>,
    >)
        requires
            fresh@.len() == conclusion_fresh_vars(*self, old(substitution)@).len(),
        ensures
            final(substitution)@ == bound_fresh(old(substitution)@, conclusion_fresh_vars(*self, old(substitution)@), fresh@),
            r@.len() == self.statements@.len(),
            forall|i: int| 0 <= i < r@.len() ==> #[trigger] r@[i] == instance_of(self.statements@[i], final(substitution)@),
    {
        let ghost s0 = substitution@;
        let xs = self.fresh_variables(substitution);
        let mut i: usize = 0;
        proof {
            assert(xs@.take(0) =~= Seq::<usize>::empty());
        }
        while i < xs.len()
            invariant
                i <= xs@.len(),
                fresh@.len() == xs@.len(),
                substitution@ == bound_fresh(s0, xs@.take(i as int), fresh@.take(i as int)),
            decreases xs@.len() - i,
        {
            substitution.bind(xs[i], fresh[i]);
            proof {
                assert(xs@.take(i + 1).drop_last() =~= xs@.take(i as int));
                assert(fresh@.take(i + 1).drop_last() =~= fresh@.take(i as int));
                assert(xs@.take(i + 1).last() == xs@[i as int]);
                assert(fresh@.take(i + 1).last() == fresh@[i as int]);
            }
            i = i + 1;
        }
        proof {
            assert(xs@.take(i as int) =~= xs@);
            assert(fresh@.take(i as int) =~= fresh@);
            lemma_fresh_order_covers(statements_var_seq(self.statements@), s0);
            lemma_bound_fresh_binds(s0, xs@, fresh@);
        }
        let mut r: Vec<MaybeTrusted<Signed<TripleStatement>>> = Vec::new();
        let mut j: usize = 0;
        while j < self.statements.len()
            invariant
                j <= self.statements@.len(),
                r@.len() == j,
                forall|x: usize| statements_var_seq(self.statements@).contains(x) ==> substitution@.contains_key(x),
                forall|i: int| 0 <= i < j ==> #[trigger] r@[i] == instance_of(self.statements@[i], substitution@),
            decreases self.statements@.len() - j,
        {
            let (Signed(sign, p), trust) = self.statements[j].into_parts();
            proof {
                lemma_statement_vars_in_seq(self.statements@, j as int);
            }
            let st = p.instantiate_bound(substitution);
            let item = MaybeTrusted::new(Signed(sign, st), trust);
            proof {
                assert(item == instance_of(self.statements@[j as int], substitution@)) by {
                    match self.statements@[j as int] {
                        MaybeTrusted::Trusted(_) => {},
                        MaybeTrusted::Untrusted(_) => {},
                    }
                    match item {
                        MaybeTrusted::Trusted(_) => {},
                        MaybeTrusted::Untrusted(_) => {},
                    }
                }
            }
            r.push(item);
            j = j + 1;
        }
        r
    }
}

/// The identifier of a bound identifier-or-variable.
fn value_of_bound(v: IdOrVar, s: &PatternSubstitution) -> (r: Id)
    requires
        id_or_var_vars(v).subset_of(s@.dom()),
    ensures
        r == value_of(v, s@),
{
    match v {
        IdOrVar::Id(id) => id,
        IdOrVar::Var(x) => {
            assert(id_or_var_vars(v).contains(x));
            s.get(x).unwrap()
        },
    }
}

impl StatementPattern {
    /// The statement, its variables (all bound) replaced as the
    /// substitution binds them.
    pub fn instantiate_bound(&self, s: &PatternSubstitution) -> (r: TripleStatement)
        requires
            statement_vars(*self).subset_of(s@.dom()),
        ensures
            r == statement_of(*self, s@),
    {
        match self {
            StatementPattern::Triple(t) => TripleStatement::Triple(
                Triple(value_of_bound(t.0, s), value_of_bound(t.1, s), value_of_bound(t.2, s)),
            ),
            StatementPattern::Eq(a, b) => TripleStatement::Eq(value_of_bound(*a, s), value_of_bound(*b, s)),
        }
    }
}

} // verus!
