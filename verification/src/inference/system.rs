//! The deduction system: rules, the patterns they are triggered by, and
//! the deduction of new statements from a triple.
use vstd::prelude::*;

use crate::cause::Entailment;
use crate::dataset::graph::{self, fact_triple};
use crate::dataset::standard::Standard;
use crate::id::Id;
use crate::inference::rule::{bound_fresh, conclusion_fresh_vars, instance_of, statement_of, Rule, StatementPattern};
use crate::inference::Path;
use crate::module::sub_module::ResourceGenerator;
use crate::pattern::{canonical_matches, canonical_of_pattern, id_or_var_bind, pattern_bind, Canonical, IdOrVar, Pattern, PatternSubstitution};
use crate::semantics::{lemma_parts_round_trip, MaybeTrusted, TripleStatement};
use crate::sign::{Sign, Signed};
use crate::triple::Triple;

verus! {

/// Every substitution extending `s` by matching, in order, each pattern of
/// `ps` against one of its candidate triples `cs`: depth first, candidates
/// in order.
pub open spec fn search_spec(s: Map<usize, Id>, ps: Seq<Pattern>, cs: Seq<Seq<Triple>>) -> Seq<Map<usize, Id>>
    decreases ps.len(), 1int, 0int,
{
    if ps.len() == 0 {
        seq![s]
    } else {
        branch_spec(s, ps, cs, cs[0].len() as int)
    }
}

/// The substitutions found through the first `n` candidates of the first
/// pattern.
pub open spec fn branch_spec(s: Map<usize, Id>, ps: Seq<Pattern>, cs: Seq<Seq<Triple>>, n: int) -> Seq<Map<usize, Id>>
    decreases ps.len(), 0int, n,
{
    if ps.len() == 0 || n <= 0 {
        Seq::empty()
    } else {
        let (ok, s2) = pattern_bind(ps[0], s, cs[0][n - 1]);
        branch_spec(s, ps, cs, n - 1) + if ok {
            search_spec(s2, ps.drop_first(), cs.drop_first())
        } else {
            Seq::empty()
        }
    }
}

/// The views of substitutions.
pub open spec fn substitution_views(v: Seq<PatternSubstitution>) -> Seq<Map<usize, Id>> {
    v.map_values(|s: PatternSubstitution| s@)
}

/// The views of candidate lists.
pub open spec fn candidate_views(v: Seq<Vec<Triple>>) -> Seq<Seq<Triple>> {
    v.map_values(|c: Vec<Triple>| c@)
}

/// Every substitution extending `s` by matching, in order, the patterns
/// from position `k` against their candidate triples.
pub fn search(s: &PatternSubstitution, ps: &Vec<Pattern>, cs: &Vec<Vec<Triple>>, k: usize) -> (r: Vec<PatternSubstitution>)
    requires
        k <= ps@.len(),
        cs@.len() == ps@.len(),
    ensures
        substitution_views(r@) == search_spec(s@, ps@.skip(k as int), candidate_views(cs@).skip(k as int)),
    decreases ps@.len() - k,
{
    let ghost pk = ps@.skip(k as int);
    let ghost ck = candidate_views(cs@).skip(k as int);
    if k == ps.len() {
        let r = vec![s.duplicate()];
        proof {
            assert(pk.len() == 0);
            assert(substitution_views(r@) =~= seq![s@]);
        }
        return r;
    }
    let n = ps.len();
    let mut r: Vec<PatternSubstitution> = Vec::new();
    let mut j: usize = 0;
    proof {
        assert(ck[0] == cs@[k as int]@);
        assert(substitution_views(r@) =~= Seq::<Map<usize, Id>>::empty());
    }
    while j < cs[k].len()
        invariant
            k < ps@.len(),
            n == ps@.len(),
            cs@.len() == ps@.len(),
            pk == ps@.skip(k as int),
            ck == candidate_views(cs@).skip(k as int),
            ck[0] == cs@[k as int]@,
            j <= cs@[k as int]@.len(),
            substitution_views(r@) == branch_spec(s@, pk, ck, j as int),
        decreases cs@[k as int]@.len() - j,
    {
        let mut s2 = s.duplicate();
        let ok = ps[k].matching(&mut s2, cs[k][j]);
        proof {
            assert(pk[0] == ps@[k as int]);
            assert(pk.drop_first() =~= ps@.skip(k + 1));
            assert(ck.drop_first() =~= candidate_views(cs@).skip(k + 1));
            assert((ok, s2@) == pattern_bind(pk[0], s@, ck[0][j as int]));
        }
        if ok {
            let mut sub = search(&s2, ps, cs, k + 1);
            let ghost r0 = r@;
            let ghost sub0 = sub@;
            r.append(&mut sub);
            proof {
                assert(substitution_views(r@) =~= substitution_views(r0) + substitution_views(sub0));
            }
        } else {
            proof {
                assert(branch_spec(s@, pk, ck, j + 1) =~= branch_spec(s@, pk, ck, j as int));
            }
        }
        j = j + 1;
    }
    proof {
        assert(search_spec(s@, pk, ck) == branch_spec(s@, pk, ck, ck[0].len() as int));
    }
    r
}

/// Whether `t` is the triple of a fact of the dataset matching the signed
/// pattern.
pub open spec fn candidate(d: Standard, p: Signed<Pattern>, t: Triple) -> bool {
    exists|g: Option<Id>, i: u32, f: graph::Fact| #[trigger] d.matches_in(g, i, f, canonical_of_pattern(p.1), Some(p.0)) && fact_triple(f) == t
}

/// The triples of the facts of the dataset matching the signed pattern.
pub(crate) fn candidates(d: &Standard, p: Signed<Pattern>) -> (r: Vec<Triple>)
    requires
        d.wf(),
    ensures
        forall|t: Triple| #[trigger] r@.contains(t) <==> candidate(*d, p, t),
{
    let c = Canonical::from_pattern(p.1);
    let matches = d.signed_matching(Signed(p.0, c));
    let mut r: Vec<Triple> = Vec::new();
    let mut j: usize = 0;
    while j < matches.len()
        invariant
            j <= matches@.len(),
            r@.len() == j,
            forall|a: int| 0 <= a < j ==> #[trigger] r@[a] == fact_triple(*matches@[a].2),
        decreases matches@.len() - j,
    {
        let (_, _, f) = matches[j];
        r.push(f.0.1);
        j = j + 1;
    }
    proof {
        assert forall|t: Triple| #[trigger] r@.contains(t) <==> candidate(*d, p, t) by {
            if r@.contains(t) {
                let a = choose|a: int| 0 <= a < r@.len() && r@[a] == t;
                assert(matches@.contains(matches@[a]));
                let x = matches@[a];
                assert(d.matches_in(x.0, x.1, *x.2, canonical_of_pattern(p.1), Some(p.0)));
            }
            if candidate(*d, p, t) {
                let (g, i, f) = choose|g: Option<Id>, i: u32, f: graph::Fact| #[trigger] d.matches_in(g, i, f, canonical_of_pattern(p.1), Some(p.0)) && fact_triple(f) == t;
                let x: (Option<Id>, u32, &graph::Fact) = (g, i, &f);
                assert(matches@.contains(x));
                let a = choose|a: int| 0 <= a < matches@.len() && matches@[a] == x;
                assert(r@[a] == t);
            }
        }
    }
    r
}

/// The identifiers bound to the variables below `n`, by variable.
pub open spec fn bound_ids(m: Map<usize, Id>, n: nat) -> Seq<Id>
    decreases n,
{
    if n == 0 {
        Seq::empty()
    } else {
        let rest = bound_ids(m, (n - 1) as nat);
        if m.contains_key((n - 1) as usize) {
            rest.push(m[(n - 1) as usize])
        } else {
            rest
        }
    }
}

/// The identifiers bound to the variables, by variable, as far as the
/// number of bindings goes.
pub(crate) fn substitution_ids(s: &PatternSubstitution) -> (r: Vec<Id>)
    ensures
        r@ == bound_ids(s@, s@.len()),
{
    let v = s.to_vec();
    let mut r: Vec<Id> = Vec::new();
    let mut j: usize = 0;
    while j < v.len()
        invariant
            j <= v@.len(),
            v@.len() == s@.len(),
            forall|i: int| 0 <= i < v@.len() ==> v@[i] == (if s@.contains_key(i as usize) {
                Some(s@[i as usize])
            } else {
                None
            }),
            r@ == bound_ids(s@, j as nat),
        decreases v@.len() - j,
    {
        match v[j] {
            Some(id) => r.push(id),
            None => {},
        }
        j = j + 1;
    }
    r
}

/// What a rule deduces from one substitution: the entailment and the
/// statements of the conclusion.
pub type SubDeduction = (Entailment, Vec<MaybeTrusted<Signed<TripleStatement>>>);

/// Whether `d` is what the rule deduces from the substitution `s` once the
/// variables of its conclusion that `s` leaves unbound are bound, in order
/// of first occurrence, to the resources `fresh`: the entailment of the
/// rule under the completed substitution, and each conclusion statement
/// instantiated under it.
pub open spec fn deduced_with(rule: Rule, s: Map<usize, Id>, d: SubDeduction, fresh: Seq<Id>) -> bool {
    let xs = conclusion_fresh_vars(rule.conclusion, s);
    let m = bound_fresh(s, xs, fresh);
    &&& fresh.len() == xs.len()
    &&& d.0.rule == rule.id
    &&& d.0.substitution@ == bound_ids(m, m.len())
    &&& d.1@.len() == rule.conclusion.statements@.len()
    &&& forall|i: int| 0 <= i < d.1@.len() ==> #[trigger] d.1@[i] == instance_of(rule.conclusion.statements@[i], m)
}

/// Whether `d` is what the rule deduces from the substitution `s`, its
/// conclusion's unbound variables bound to new resources.
pub open spec fn deduced_from(rule: Rule, s: Map<usize, Id>, d: SubDeduction) -> bool {
    exists|fresh: Seq<Id>| #[trigger] deduced_with(rule, s, d, fresh)
}

impl Rule {
    /// What the rule deduces from `substitution` once the variables of its
    /// conclusion that it leaves unbound (see `Conclusion::fresh_variables`)
    /// are bound, in order, to the resources `fresh`.
    pub fn deduce_with(&self, substitution: PatternSubstitution, fresh: &Vec<Id>) -> (r: SubDeduction)
        requires
            fresh@.len() == conclusion_fresh_vars(self.conclusion, substitution@).len(),
        ensures
            deduced_with(*self, substitution@, r, fresh@),
    {
        let mut s = substitution;
        let statements = self.conclusion.instantiate_with(&mut s, fresh);
        let e = Entailment::new(self.id, substitution_ids(&s));
        (e, statements)
    }
}

/// Draws `n` new resources from `generator`, in order.
fn draw_resources<G: ResourceGenerator>(generator: &mut G, n: usize) -> (r: Vec<Id>)
    ensures
        r@.len() == n,
{
    let mut r: Vec<Id> = Vec::new();
    let mut i: usize = 0;
    while i < n
        invariant
            i <= n,
            r@.len() == i,
        decreases n - i,
    {
        r.push(generator.new_resource());
        i = i + 1;
    }
    r
}

/// The hypothesis patterns of a rule but the one at `k`.
pub open spec fn other_patterns(ps: Seq<Signed<Pattern>>, k: int) -> Seq<Signed<Pattern>> {
    ps.take(k) + ps.skip(k + 1)
}

/// Whether a signed pattern matches a signed triple.
pub open spec fn signed_pattern_matches(p: Signed<Canonical>, t: Signed<Triple>) -> bool {
    p.0 == t.0 && canonical_matches(p.1, t.1)
}

/// Induction rules, with the patterns that trigger them.
pub struct System {
    /// The rules, by index.
    rules: Vec<Rule>,
    /// Each hypothesis pattern of each rule, with its path.
    paths: Vec<(Signed<Canonical>, Path)>,
}

/// A triple that the canonical form of a pattern matches is matched by the
/// pattern itself, from no binding.
pub proof fn lemma_canonical_binds(p: Pattern, t: Triple)
    requires
        canonical_matches(canonical_of_pattern(p), t),
    ensures
        pattern_bind(p, Map::empty(), t).0,
{
    match (p.0, p.1, p.2) {
        (IdOrVar::Var(x), IdOrVar::Var(y), IdOrVar::Var(z)) => {
            if x == y {
                assert(t.1 == t.0);
            }
            if z == x {
                assert(t.2 == t.0);
            } else if z == y {
                assert(t.2 == t.1);
            }
        },
        (IdOrVar::Var(x), IdOrVar::Var(y), IdOrVar::Id(_)) => {
            if x == y {
                assert(t.1 == t.0);
            }
        },
        (IdOrVar::Var(x), IdOrVar::Id(_), IdOrVar::Var(z)) => {
            if z == x {
                assert(t.2 == t.0);
            }
        },
        (IdOrVar::Id(_), IdOrVar::Var(y), IdOrVar::Var(z)) => {
            if z == y {
                assert(t.2 == t.1);
            }
        },
        _ => {},
    }
}

/// A rule as a value: its identifier, hypothesis and conclusion.
pub open spec fn rule_view(r: Rule) -> (Id, Seq<Signed<Pattern>>, Seq<MaybeTrusted<Signed<StatementPattern>>>) {
    (r.id, r.hypothesis.patterns@, r.conclusion.statements@)
}

/// The signed canonical form of a signed pattern.
pub open spec fn signed_canonical(p: Signed<Pattern>) -> Signed<Canonical> {
    Signed(p.0, canonical_of_pattern(p.1))
}

fn id_or_var_equal(a: &IdOrVar, b: &IdOrVar) -> (r: bool)
    ensures
        r <==> *a == *b,
{
    match (a, b) {
        (IdOrVar::Id(x), IdOrVar::Id(y)) => *x == *y,
        (IdOrVar::Var(x), IdOrVar::Var(y)) => *x == *y,
        _ => false,
    }
}

fn pattern_equal(a: &Pattern, b: &Pattern) -> (r: bool)
    ensures
        r <==> *a == *b,
{
    id_or_var_equal(&a.0, &b.0) && id_or_var_equal(&a.1, &b.1) && id_or_var_equal(&a.2, &b.2)
}

fn statement_pattern_equal(a: &StatementPattern, b: &StatementPattern) -> (r: bool)
    ensures
        r <==> *a == *b,
{
    match (a, b) {
        (StatementPattern::Triple(x), StatementPattern::Triple(y)) => pattern_equal(x, y),
        (StatementPattern::Eq(x1, x2), StatementPattern::Eq(y1, y2)) => id_or_var_equal(x1, y1) && id_or_var_equal(x2, y2),
        _ => false,
    }
}

/// Equality of rules as values.
pub fn rule_equal(a: &Rule, b: &Rule) -> (r: bool)
    ensures
        r <==> rule_view(*a) == rule_view(*b),
{
    if a.id != b.id || a.hypothesis.patterns.len() != b.hypothesis.patterns.len()
        || a.conclusion.statements.len() != b.conclusion.statements.len() {
        proof {
            if a.hypothesis.patterns.len() != b.hypothesis.patterns.len() {
                assert(a.hypothesis.patterns@.len() != b.hypothesis.patterns@.len());
            }
            if a.conclusion.statements.len() != b.conclusion.statements.len() {
                assert(a.conclusion.statements@.len() != b.conclusion.statements@.len());
            }
        }
        return false;
    }
    let mut i: usize = 0;
    while i < a.hypothesis.patterns.len()
        invariant
            a.hypothesis.patterns@.len() == b.hypothesis.patterns@.len(),
            i <= a.hypothesis.patterns@.len(),
            forall|j: int| 0 <= j < i ==> a.hypothesis.patterns@[j] == b.hypothesis.patterns@[j],
        decreases a.hypothesis.patterns@.len() - i,
    {
        let x = a.hypothesis.patterns[i];
        let y = b.hypothesis.patterns[i];
        if !(x.0.same_as(&y.0) && pattern_equal(&x.1, &y.1)) {
            return false;
        }
        i = i + 1;
    }
    let mut k: usize = 0;
    while k < a.conclusion.statements.len()
        invariant
            a.conclusion.statements@.len() == b.conclusion.statements@.len(),
            k <= a.conclusion.statements@.len(),
            forall|j: int| 0 <= j < k ==> a.conclusion.statements@[j] == b.conclusion.statements@[j],
        decreases a.conclusion.statements@.len() - k,
    {
        let (x, tx) = a.conclusion.statements[k].into_parts();
        let (y, ty) = b.conclusion.statements[k].into_parts();
        if !(tx.same_as(&ty) && x.0.same_as(&y.0) && statement_pattern_equal(&x.1, &y.1)) {
            return false;
        }
        proof {
            lemma_parts_round_trip(a.conclusion.statements@[k as int]);
            lemma_parts_round_trip(b.conclusion.statements@[k as int]);
        }
        k = k + 1;
    }
    proof {
        assert(a.hypothesis.patterns@ =~= b.hypothesis.patterns@);
        assert(a.conclusion.statements@ =~= b.conclusion.statements@);
    }
    true
}

/// The hypothesis patterns of a rule before position `i`, but the one at
/// `k`.
pub open spec fn prefix_others(ps: Seq<Signed<Pattern>>, k: int, i: int) -> Seq<Signed<Pattern>> {
    if i <= k {
        ps.take(i)
    } else {
        ps.take(k) + ps.subrange(k + 1, i)
    }
}

impl System {
    /// The rules, by index.
    pub closed spec fn rule_seq(&self) -> Seq<Rule> {
        self.rules@
    }

    /// Each hypothesis pattern of each rule, with its path.
    pub closed spec fn path_seq(&self) -> Seq<(Signed<Canonical>, Path)> {
        self.paths@
    }

    /// Whether `path` designates a hypothesis pattern of a rule.
    pub open spec fn valid_path(&self, path: Path) -> bool {
        &&& path.rule < self.rule_seq().len()
        &&& path.pattern < self.rule_seq()[path.rule as int].hypothesis.patterns@.len()
    }

    /// The hypothesis pattern a path designates.
    pub open spec fn path_pattern(&self, path: Path) -> Signed<Pattern> {
        self.rule_seq()[path.rule as int].hypothesis.patterns@[path.pattern as int]
    }

    /// No rule is there twice, and the paths are those of the hypothesis
    /// patterns of the rules.
    pub closed spec fn wf(&self) -> bool {
        &&& forall|i: int, j: int| 0 <= i < j < self.rules@.len() ==> rule_view(self.rules@[i]) != rule_view(self.rules@[j])
        &&& forall|j: int| 0 <= j < self.paths@.len() ==> self.valid_path(#[trigger] self.paths@[j].1)
            && self.paths@[j].0 == signed_canonical(self.path_pattern(self.paths@[j].1))
        &&& forall|path: Path| #[trigger] self.valid_path(path) ==> exists|j: int| 0 <= j < self.paths@.len() && self.paths@[j].1 == path
        &&& forall|a: int, b: int| 0 <= a < b < self.paths@.len() ==> self.paths@[a].1 != self.paths@[b].1
    }

    /// No rule is there twice.
    pub proof fn lemma_rules_distinct(&self)
        requires
            self.wf(),
        ensures
            forall|i: int, j: int| 0 <= i < j < self.rule_seq().len() ==> rule_view(#[trigger] self.rule_seq()[i])
                != rule_view(#[trigger] self.rule_seq()[j]),
    {
    }

    pub fn new() -> (r: System)
        ensures
            r.wf(),
            r.rule_seq() == Seq::<Rule>::empty(),
    {
        System { rules: Vec::new(), paths: Vec::new() }
    }

    /// The number of rules.
    pub fn len(&self) -> (r: usize)
        ensures
            r == self.rule_seq().len(),
    {
        self.rules.len()
    }

    pub fn is_empty(&self) -> (r: bool)
        ensures
            r <==> self.rule_seq().len() == 0,
    {
        self.rules.len() == 0
    }

    /// The rule at the given index, if any.
    pub fn get(&self, i: usize) -> (r: Option<&Rule>)
        ensures
            match r {
                Some(rule) => i < self.rule_seq().len() && *rule == self.rule_seq()[i as int],
                None => i >= self.rule_seq().len(),
            },
    {
        if i < self.rules.len() {
            Some(&self.rules[i])
        } else {
            None
        }
    }

    /// The index of the rule: that of an equal rule already there, or the
    /// next index, the rule being added with the paths of its hypothesis
    /// patterns.
    pub fn insert(&mut self, rule: Rule) -> (r: usize)
        requires
            old(self).wf(),
        ensures
            final(self).wf(),
            r < final(self).rule_seq().len(),
            rule_view(final(self).rule_seq()[r as int]) == rule_view(rule),
            final(self).rule_seq() == if exists|i: int| 0 <= i < old(self).rule_seq().len() && rule_view(
                #[trigger] old(self).rule_seq()[i],
            ) == rule_view(rule) {
                old(self).rule_seq()
            } else {
                old(self).rule_seq().push(rule)
            },
            r < old(self).rule_seq().len() ==> rule_view(old(self).rule_seq()[r as int]) == rule_view(rule),
            r == old(self).rule_seq().len() <==> !exists|i: int| 0 <= i < old(self).rule_seq().len() && rule_view(
                #[trigger] old(self).rule_seq()[i],
            ) == rule_view(rule),
            r <= old(self).rule_seq().len(),
    {
        let mut i: usize = 0;
        while i < self.rules.len()
            invariant
                self.wf(),
                self.rules@ == old(self).rules@,
                self.paths@ == old(self).paths@,
                i <= self.rules@.len(),
                forall|j: int| 0 <= j < i ==> rule_view(#[trigger] self.rules@[j]) != rule_view(rule),
            decreases self.rules@.len() - i,
        {
            if rule_equal(&self.rules[i], &rule) {
                return i;
            }
            i = i + 1;
        }
        let n = self.rules.len();
        let ghost paths0 = self.paths@;
        let mut p: usize = 0;
        while p < rule.hypothesis.patterns.len()
            invariant
                n == self.rules@.len(),
                self.rules@ == old(self).rules@,
                p <= rule.hypothesis.patterns@.len(),
                self.paths@.len() == paths0.len() + p,
                forall|j: int| 0 <= j < paths0.len() ==> self.paths@[j] == paths0[j],
                forall|j: int| 0 <= j < p ==> #[trigger] self.paths@[paths0.len() + j] == (
                    signed_canonical(rule.hypothesis.patterns@[j]),
                    Path { rule: n, pattern: j as usize },
                ),
            decreases rule.hypothesis.patterns@.len() - p,
        {
            let sp = rule.hypothesis.patterns[p];
            let c = Canonical::from_pattern(sp.1);
            self.paths.push((Signed(sp.0, c), Path::new(n, p)));
            p = p + 1;
        }
        let ghost rule0 = rule;
        self.rules.push(rule);
        proof {
            assert(self.rules@ == old(self).rules@.push(rule0));
            assert forall|j: int| 0 <= j < self.paths@.len() implies self.valid_path(#[trigger] self.paths@[j].1)
                && self.paths@[j].0 == signed_canonical(self.path_pattern(self.paths@[j].1)) by {
                if j < paths0.len() {
                    assert(old(self).valid_path(paths0[j].1));
                } else {
                    assert(self.paths@[paths0.len() + (j - paths0.len())] == self.paths@[j]);
                }
            }
            assert forall|path: Path| #[trigger] self.valid_path(path) implies exists|j: int| 0 <= j < self.paths@.len() && self.paths@[j].1 == path by {
                if path.rule < n {
                    assert(old(self).valid_path(path));
                    let j = choose|j: int| 0 <= j < paths0.len() && paths0[j].1 == path;
                    assert(self.paths@[j] == paths0[j]);
                } else {
                    let j = paths0.len() + path.pattern;
                    assert(self.paths@[paths0.len() + path.pattern as int].1 == path);
                }
            }
            assert forall|a: int, b: int| 0 <= a < b < self.paths@.len() implies self.paths@[a].1 != self.paths@[b].1 by {
                if b >= paths0.len() {
                    let jb = b - paths0.len();
                    assert(self.paths@[paths0.len() + jb] == self.paths@[b]);
                    assert(self.paths@[b].1 == Path { rule: n, pattern: jb as usize });
                    if a >= paths0.len() {
                        let ja = a - paths0.len();
                        assert(self.paths@[paths0.len() + ja] == self.paths@[a]);
                        assert(self.paths@[a].1 == Path { rule: n, pattern: ja as usize });
                    } else {
                        assert(0 <= a < old(self).paths@.len());
                        assert(old(self).valid_path(old(self).paths@[a].1));
                        assert(self.paths@[a] == paths0[a]);
                        assert(self.paths@[a].1.rule < n);
                    }
                } else {
                    assert(self.paths@[a] == paths0[a] && self.paths@[b] == paths0[b]);
                    assert(old(self).paths@[a].1 != old(self).paths@[b].1);
                }
            }
            if exists|j: int| 0 <= j < old(self).rule_seq().len() && rule_view(#[trigger] old(self).rule_seq()[j]) == rule_view(rule0) {
                let j = choose|j: int| 0 <= j < old(self).rule_seq().len() && rule_view(#[trigger] old(self).rule_seq()[j]) == rule_view(rule0);
                assert(rule_view(self.rules@[j]) != rule_view(rule0));
            }
        }
        n
    }

    /// The paths of the hypothesis patterns that the signed triple
    /// matches.
    pub fn paths_of(&self, triple: Signed<Triple>) -> (r: Vec<Path>)
        requires
            self.wf(),
        ensures
            r@.no_duplicates(),
            forall|path: Path| #[trigger] r@.contains(path) <==> self.valid_path(path) && signed_pattern_matches(
                signed_canonical(self.path_pattern(path)),
                triple,
            ),
    {
        let mut r: Vec<Path> = Vec::new();
        let mut j: usize = 0;
        while j < self.paths.len()
            invariant
                self.wf(),
                j <= self.paths@.len(),
                forall|a: int| 0 <= a < r@.len() ==> exists|b: int| 0 <= b < j && self.paths@[b].1 == #[trigger] r@[a],
                r@.no_duplicates(),
                forall|path: Path| #[trigger] r@.contains(path) <==> exists|b: int|
                    0 <= b < j && self.paths@[b].1 == path && signed_pattern_matches(self.paths@[b].0, triple),
            decreases self.paths@.len() - j,
        {
            let (sc, path) = self.paths[j];
            if sc.0.same_as(&triple.0) && sc.1.matches_triple(triple.1) {
                let ghost r0 = r@;
                proof {
                    assert(!r0.contains(path)) by {
                        if r0.contains(path) {
                            let b = choose|b: int| 0 <= b < j && self.paths@[b].1 == path && signed_pattern_matches(self.paths@[b].0, triple);
                        }
                    }
                }
                r.push(path);
                proof {
                    assert forall|x: Path| #[trigger] r@.contains(x) <==> exists|b: int|
                        0 <= b < j + 1 && self.paths@[b].1 == x && signed_pattern_matches(self.paths@[b].0, triple) by {
                        if r@.contains(x) {
                            let y = choose|y: int| 0 <= y < r@.len() && r@[y] == x;
                            if y < r0.len() {
                                assert(r0.contains(x));
                            } else {
                                assert(self.paths@[j as int].1 == x);
                            }
                        }
                        if exists|b: int| 0 <= b < j + 1 && self.paths@[b].1 == x && signed_pattern_matches(self.paths@[b].0, triple) {
                            let b = choose|b: int| 0 <= b < j + 1 && self.paths@[b].1 == x && signed_pattern_matches(self.paths@[b].0, triple);
                            if b < j {
                                assert(r0.contains(x));
                                let y = choose|y: int| 0 <= y < r0.len() && r0[y] == x;
                                assert(r@[y] == x);
                            } else {
                                assert(r@[r0.len() as int] == x);
                            }
                        }
                    }
                    assert forall|a: int| 0 <= a < r@.len() implies exists|b: int| 0 <= b < j + 1 && self.paths@[b].1 == #[trigger] r@[a] by {
                        if a < r0.len() {
                            assert(r@[a] == r0[a]);
                        } else {
                            assert(self.paths@[j as int].1 == r@[a]);
                        }
                    }
                }
            } else {
                proof {
                    assert forall|x: Path| #[trigger] r@.contains(x) <==> exists|b: int|
                        0 <= b < j + 1 && self.paths@[b].1 == x && signed_pattern_matches(self.paths@[b].0, triple) by {
                        if exists|b: int| 0 <= b < j + 1 && self.paths@[b].1 == x && signed_pattern_matches(self.paths@[b].0, triple) {
                            let b = choose|b: int| 0 <= b < j + 1 && self.paths@[b].1 == x && signed_pattern_matches(self.paths@[b].0, triple);
                            if b == j {
                                assert(false);
                            }
                        }
                    }
                }
            }
            j = j + 1;
        }
        proof {
            assert forall|path: Path| #[trigger] r@.contains(path) <==> self.valid_path(path) && signed_pattern_matches(
                signed_canonical(self.path_pattern(path)),
                triple,
            ) by {
                if r@.contains(path) {
                    let b = choose|b: int| 0 <= b < j && self.paths@[b].1 == path && signed_pattern_matches(self.paths@[b].0, triple);
                    assert(self.valid_path(self.paths@[b].1));
                }
                if self.valid_path(path) && signed_pattern_matches(signed_canonical(self.path_pattern(path)), triple) {
                    let b = choose|b: int| 0 <= b < self.paths@.len() && self.paths@[b].1 == path;
                    assert(self.valid_path(self.paths@[b].1));
                }
            }
        }
        r
    }
}

impl System {
    /// Whether `r` is what the rule of `path` deduces from the triple
    /// matching its pattern there: one deduction per substitution found by
    /// matching the other hypothesis patterns, in order, against the triples
    /// of the dataset facts matching them.
    pub open spec fn deduction_of(&self, dataset: Standard, triple: Signed<Triple>, path: Path, r: Seq<SubDeduction>) -> bool {
        let rule = self.rule_seq()[path.rule as int];
        let ps = other_patterns(rule.hypothesis.patterns@, path.pattern as int);
        let s0 = pattern_bind(self.path_pattern(path).1, Map::empty(), triple.1).1;
        exists|cands: Seq<Seq<Triple>>| {
            &&& cands.len() == ps.len()
            &&& forall|i: int, t: Triple| 0 <= i < ps.len() ==> (#[trigger] cands[i].contains(t) <==> candidate(dataset, ps[i], t))
            &&& {
                let subs = search_spec(s0, ps.map_values(|sp: Signed<Pattern>| sp.1), cands);
                &&& r.len() == subs.len()
                &&& forall|i: int| 0 <= i < r.len() ==> #[trigger] deduced_from(rule, subs[i], r[i])
            }
        }
    }

    /// Deduces from a triple matching the hypothesis pattern of `path`:
    /// for each way of matching the other hypothesis patterns against the
    /// dataset, the statements of the conclusion, its free variables bound
    /// to new resources of `generator`.
    pub fn deduce_from<G: ResourceGenerator>(&self, dataset: &Standard, triple: Signed<Triple>, path: Path, generator: &mut G) -> (r: Vec<SubDeduction>)
        requires
            self.wf(),
            dataset.wf(),
            self.valid_path(path),
            pattern_bind(self.path_pattern(path).1, Map::empty(), triple.1).0,
        ensures
            self.deduction_of(*dataset, triple, path, r@),
    {
        let rule = &self.rules[path.rule];
        let hyp = &rule.hypothesis.patterns;
        let k = path.pattern;
        let mut s0 = PatternSubstitution::new();
        hyp[k].1.matching(&mut s0, triple.1);
        let mut ps: Vec<Pattern> = Vec::new();
        let mut cs: Vec<Vec<Triple>> = Vec::new();
        let mut i: usize = 0;
        while i < hyp.len()
            invariant
                dataset.wf(),
                k < hyp@.len(),
                i <= hyp@.len(),
                ps@.len() == cs@.len(),
                ps@ == prefix_others(hyp@, k as int, i as int).map_values(|sp: Signed<Pattern>| sp.1),
                forall|j: int, t: Triple| 0 <= j < cs@.len() ==> (#[trigger] cs@[j]@.contains(t) <==> candidate(
                    *dataset,
                    prefix_others(hyp@, k as int, i as int)[j],
                    t,
                )),
                prefix_others(hyp@, k as int, i as int).len() == ps@.len(),
            decreases hyp@.len() - i,
        {
            let ghost before = prefix_others(hyp@, k as int, i as int);
            if i != k {
                let sp = hyp[i];
                let c = candidates(dataset, sp);
                ps.push(sp.1);
                cs.push(c);
                proof {
                    assert(prefix_others(hyp@, k as int, i + 1) =~= before.push(sp));
                }
            } else {
                proof {
                    assert(prefix_others(hyp@, k as int, i + 1) =~= before);
                }
            }
            proof {
                assert(ps@ =~= prefix_others(hyp@, k as int, i + 1).map_values(|sp: Signed<Pattern>| sp.1));
            }
            i = i + 1;
        }
        let ghost others = other_patterns(hyp@, k as int);
        proof {
            assert(prefix_others(hyp@, k as int, i as int) =~= others);
            assert(ps@.skip(0) =~= ps@);
            assert(candidate_views(cs@).skip(0) =~= candidate_views(cs@));
        }
        let subs = search(&s0, &ps, &cs, 0);
        let ghost sviews = substitution_views(subs@);
        let mut r: Vec<SubDeduction> = Vec::new();
        let mut j: usize = 0;
        while j < subs.len()
            invariant
                j <= subs@.len(),
                r@.len() == j,
                sviews == substitution_views(subs@),
                forall|a: int| 0 <= a < j ==> #[trigger] deduced_from(*rule, sviews[a], r@[a]),
            decreases subs@.len() - j,
        {
            let s = subs[j].duplicate();
            let xs = rule.conclusion.fresh_variables(&s);
            let fresh = draw_resources(generator, xs.len());
            let d = rule.deduce_with(s, &fresh);
            proof {
                assert(deduced_with(*rule, sviews[j as int], d, fresh@));
            }
            r.push(d);
            j = j + 1;
        }
        proof {
            let cands = candidate_views(cs@);
            assert(cands.len() == others.len());
            assert forall|x: int, t: Triple| 0 <= x < others.len() implies (#[trigger] cands[x].contains(t) <==> candidate(*dataset, others[x], t)) by {
                assert(cands[x] == cs@[x]@);
            }
        }
        r
    }
}

impl System {
    /// Whether `r` is what the rules deduce from the triple: the paths whose
    /// pattern it matches, each once, and for each path, in turn, what its
    /// rule deduces from the triple there.
    pub open spec fn deduces(&self, dataset: Standard, triple: Signed<Triple>, r: Seq<SubDeduction>) -> bool {
        exists|paths: Seq<Path>, parts: Seq<Seq<SubDeduction>>| {
            &&& paths.no_duplicates()
            &&& forall|path: Path| #[trigger] paths.contains(path) <==> self.valid_path(path) && signed_pattern_matches(
                signed_canonical(self.path_pattern(path)),
                triple,
            )
            &&& parts.len() == paths.len()
            &&& r == parts.flatten()
            &&& forall|i: int| 0 <= i < paths.len() ==> self.deduction_of(dataset, triple, #[trigger] paths[i], parts[i])
        }
    }

    /// Deduces new statements from the triple: what each rule deduces from
    /// it at each hypothesis pattern it matches, path by path.
    pub fn deduce<G: ResourceGenerator>(&self, dataset: &Standard, triple: Signed<Triple>, generator: &mut G) -> (r: Vec<SubDeduction>)
        requires
            self.wf(),
            dataset.wf(),
        ensures
            self.deduces(*dataset, triple, r@),
    {
        let paths = self.paths_of(triple);
        let mut r: Vec<SubDeduction> = Vec::new();
        let ghost mut parts: Seq<Seq<SubDeduction>> = Seq::empty();
        let mut j: usize = 0;
        while j < paths.len()
            invariant
                self.wf(),
                dataset.wf(),
                j <= paths@.len(),
                parts.len() == j,
                r@ == parts.flatten(),
                forall|path: Path| #[trigger] paths@.contains(path) <==> self.valid_path(path) && signed_pattern_matches(
                    signed_canonical(self.path_pattern(path)),
                    triple,
                ),
                forall|i: int| 0 <= i < j ==> self.deduction_of(*dataset, triple, #[trigger] paths@[i], parts[i]),
            decreases paths@.len() - j,
        {
            let path = paths[j];
            proof {
                assert(paths@.contains(path));
                lemma_canonical_binds(self.path_pattern(path).1, triple.1);
            }
            let mut sub = self.deduce_from(dataset, triple, path, generator);
            let ghost part = sub@;
            r.append(&mut sub);
            proof {
                parts.lemma_flatten_push(part);
                parts = parts.push(part);
            }
            j = j + 1;
        }
        proof {
            assert(parts.len() == paths@.len());
        }
        r
    }
}

/// Whether `m` makes pattern `p` match one of the triples `c`, binding no
/// more than `m` binds.
pub open spec fn satisfied_by(p: Pattern, c: Seq<Triple>, m: Map<usize, Id>) -> bool {
    exists|t: Triple| c.contains(t) && #[trigger] pattern_bind(p, m, t) == (true, m)
}

proof fn lemma_submap_trans(a: Map<usize, Id>, b: Map<usize, Id>, c: Map<usize, Id>)
    requires
        a.submap_of(b),
        b.submap_of(c),
    ensures
        a.submap_of(c),
{
    vstd::map_lib::lemma_submap_of_trans(a, b, c);
}

proof fn lemma_id_or_var_bind_monotone(v: IdOrVar, s: Map<usize, Id>, m: Map<usize, Id>, id: Id)
    requires
        id_or_var_bind(v, s, id).0,
        id_or_var_bind(v, s, id).1.submap_of(m),
    ensures
        s.submap_of(id_or_var_bind(v, s, id).1),
        id_or_var_bind(v, m, id) == (true, m),
{
    if let IdOrVar::Var(x) = v {
        if !s.contains_key(x) {
            assert(s.insert(x, id).contains_key(x));
        }
        assert(m.contains_key(x));
    }
}

proof fn lemma_pattern_bind_monotone(p: Pattern, s: Map<usize, Id>, m: Map<usize, Id>, t: Triple)
    requires
        pattern_bind(p, s, t).0,
        pattern_bind(p, s, t).1.submap_of(m),
    ensures
        s.submap_of(pattern_bind(p, s, t).1),
        pattern_bind(p, m, t) == (true, m),
{
    let (b0, s0) = id_or_var_bind(p.0, s, t.0);
    let (b1, s1) = id_or_var_bind(p.1, s0, t.1);
    let (b2, s2) = id_or_var_bind(p.2, s1, t.2);
    lemma_id_or_var_bind_monotone(p.2, s1, m, t.2);
    lemma_submap_trans(s1, s2, m);
    lemma_id_or_var_bind_monotone(p.1, s0, m, t.1);
    lemma_submap_trans(s0, s1, m);
    lemma_id_or_var_bind_monotone(p.0, s, m, t.0);
    lemma_submap_trans(s, s0, s1);
    lemma_submap_trans(s, s1, s2);
}

/// Every substitution the search finds extends the initial one and makes
/// each pattern match one of its candidates.
pub proof fn lemma_search_sound(s: Map<usize, Id>, ps: Seq<Pattern>, cs: Seq<Seq<Triple>>, k: int)
    requires
        cs.len() == ps.len(),
        0 <= k < search_spec(s, ps, cs).len(),
    ensures
        s.submap_of(search_spec(s, ps, cs)[k]),
        forall|i: int| 0 <= i < ps.len() ==> #[trigger] satisfied_by(ps[i], cs[i], search_spec(s, ps, cs)[k]),
    decreases ps.len(), 1int, 0int,
{
    if ps.len() > 0 {
        lemma_branch_sound(s, ps, cs, cs[0].len() as int, k);
    }
}

proof fn lemma_branch_sound(s: Map<usize, Id>, ps: Seq<Pattern>, cs: Seq<Seq<Triple>>, n: int, k: int)
    requires
        cs.len() == ps.len(),
        ps.len() > 0,
        n <= cs[0].len(),
        0 <= k < branch_spec(s, ps, cs, n).len(),
    ensures
        s.submap_of(branch_spec(s, ps, cs, n)[k]),
        forall|i: int| 0 <= i < ps.len() ==> #[trigger] satisfied_by(ps[i], cs[i], branch_spec(s, ps, cs, n)[k]),
    decreases ps.len(), 0int, n,
{
    let prev = branch_spec(s, ps, cs, n - 1);
    let t = cs[0][n - 1];
    let (ok, s2) = pattern_bind(ps[0], s, t);
    let rest = if ok {
        search_spec(s2, ps.drop_first(), cs.drop_first())
    } else {
        Seq::empty()
    };
    assert(branch_spec(s, ps, cs, n) == prev + rest);
    if k < prev.len() {
        lemma_branch_sound(s, ps, cs, n - 1, k);
        assert(branch_spec(s, ps, cs, n)[k] == prev[k]);
    } else {
        let m = rest[k - prev.len()];
        assert(branch_spec(s, ps, cs, n)[k] == m);
        assert(ok);
        lemma_search_sound(s2, ps.drop_first(), cs.drop_first(), k - prev.len());
        lemma_pattern_bind_monotone(ps[0], s, m, t);
        lemma_submap_trans(s, s2, m);
        assert(cs[0].contains(t));
        assert(satisfied_by(ps[0], cs[0], m));
        assert forall|i: int| 0 <= i < ps.len() implies #[trigger] satisfied_by(ps[i], cs[i], m) by {
            if i > 0 {
                assert(ps.drop_first()[i - 1] == ps[i]);
                assert(cs.drop_first()[i - 1] == cs[i]);
                assert(satisfied_by(ps.drop_first()[i - 1], cs.drop_first()[i - 1], m));
            }
        }
    }
}

/// Whether some matching fact of the dataset has a triple that the signed
/// pattern matches under `m`, binding nothing more.
pub open spec fn supported(dataset: Standard, sp: Signed<Pattern>, m: Map<usize, Id>) -> bool {
    exists|t: Triple| #[trigger] candidate(dataset, sp, t) && pattern_bind(sp.1, m, t) == (true, m)
}

/// Whether `m` satisfies the hypothesis of a deduction: the triple
/// matches the pattern of the path, and each other hypothesis pattern the
/// triple of some matching fact of the dataset, all under `m`.
pub open spec fn hypothesis_holds(system: System, dataset: Standard, triple: Signed<Triple>, path: Path, m: Map<usize, Id>) -> bool {
    let ps = other_patterns(system.rule_seq()[path.rule as int].hypothesis.patterns@, path.pattern as int);
    &&& pattern_bind(system.path_pattern(path).1, m, triple.1) == (true, m)
    &&& forall|i: int| 0 <= i < ps.len() ==> #[trigger] supported(dataset, ps[i], m)
}

/// Every deduction comes from a substitution under which the rule's
/// hypothesis holds: the triple matches its pattern, and every other
/// hypothesis pattern matches a fact of the dataset.
pub proof fn lemma_deduction_sound(
    system: System,
    dataset: Standard,
    triple: Signed<Triple>,
    path: Path,
    r: Seq<SubDeduction>,
    k: int,
)
    requires
        system.valid_path(path),
        pattern_bind(system.path_pattern(path).1, Map::empty(), triple.1).0,
        system.deduction_of(dataset, triple, path, r),
        0 <= k < r.len(),
    ensures
        exists|m: Map<usize, Id>| #[trigger] hypothesis_holds(system, dataset, triple, path, m)
            && deduced_from(system.rule_seq()[path.rule as int], m, r[k]),
{
    let rule = system.rule_seq()[path.rule as int];
    let ps = other_patterns(rule.hypothesis.patterns@, path.pattern as int);
    let p0 = system.path_pattern(path).1;
    let s0 = pattern_bind(p0, Map::empty(), triple.1).1;
    let cands = choose|cands: Seq<Seq<Triple>>| {
        &&& cands.len() == ps.len()
        &&& forall|i: int, t: Triple| 0 <= i < ps.len() ==> (#[trigger] cands[i].contains(t) <==> candidate(dataset, ps[i], t))
        &&& {
            let subs = search_spec(s0, ps.map_values(|sp: Signed<Pattern>| sp.1), cands);
            &&& r.len() == subs.len()
            &&& forall|i: int| 0 <= i < r.len() ==> #[trigger] deduced_from(rule, subs[i], r[i])
        }
    };
    let qs = ps.map_values(|sp: Signed<Pattern>| sp.1);
    let subs = search_spec(s0, qs, cands);
    let m = subs[k];
    assert(deduced_from(rule, subs[k], r[k]));
    lemma_search_sound(s0, qs, cands, k);
    lemma_pattern_bind_monotone(p0, Map::empty(), m, triple.1);
    assert forall|i: int| 0 <= i < ps.len() implies #[trigger] supported(dataset, ps[i], m) by {
        assert(satisfied_by(qs[i], cands[i], m));
        let t = choose|t: Triple| cands[i].contains(t) && #[trigger] pattern_bind(qs[i], m, t) == (true, m);
        assert(candidate(dataset, ps[i], t));
    }
    assert(hypothesis_holds(system, dataset, triple, path, m));
}

} // verus!
