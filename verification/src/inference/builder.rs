//! Saturation of a dataset: each statement inserted is handed to the
//! deduction system, whose trusted conclusions are inserted in turn and
//! whose untrusted ones are kept to be checked.
use vstd::prelude::*;

use crate::cause::{entailment_view, Cause, Entailment};
use crate::containers::{entailment_set_entries, entailment_set_get_index, entailment_set_insert_full, entailment_set_new};
use crate::dataset::{self, spec_into_graph_fact, Fact};
use crate::dataset::graph::{self, contradicted, fact_triple, has_triple_at, holds, inserted, lemma_insert_idempotent, lemma_inserted_holds, mentions, replaced_fact};
use crate::dataset::standard::{free_of, holds_signed, Standard};
use crate::id::Id;
use crate::inference::formula::{universal_deduced, FormulaRule};
use crate::inference::system::{SubDeduction, System};
use crate::interpretation;
use crate::interpretation::local::{denotes, lemma_split_then_merge_contradicts, merge_interrupted, merged, split_view, Interpretation};
use crate::module::sub_module::ResourceGenerator;
use crate::semantics::{replaced_statement, MaybeTrusted, QuadStatement, TripleStatement};
use crate::sign::{Sign, Signed};
use crate::triple::{Meta, Quad, Triple};
use crate::uninterpreted::Term;

verus! {

/// A statement waiting to be inserted, with its cause.
pub type PendingStatement = Meta<Signed<QuadStatement>, Cause>;

/// Contradiction met while building.
#[derive(Debug)]
pub enum Contradiction {
    Data(dataset::Contradiction),
    Interpretation(interpretation::Contradiction),
}

/// The statement, in the given graph.
pub open spec fn statement_in_graph(s: TripleStatement, g: Option<Id>) -> QuadStatement {
    match s {
        TripleStatement::Triple(t) => QuadStatement::Quad(Quad(t.0, t.1, t.2, g)),
        TripleStatement::Eq(a, b) => QuadStatement::Eq(a, b, g),
    }
}

/// The trusted statements of `ss`, in order, in graph `g`, entailed by
/// entailment `i`.
pub open spec fn trusted_pushed(ss: Seq<MaybeTrusted<Signed<TripleStatement>>>, g: Option<Id>, i: u32) -> Seq<PendingStatement>
    decreases ss.len(),
{
    if ss.len() == 0 {
        Seq::empty()
    } else {
        let rest = trusted_pushed(ss.drop_last(), g, i);
        match ss.last() {
            MaybeTrusted::Trusted(Signed(sign, st)) => rest.push(Meta(Signed(sign, statement_in_graph(st, g)), Cause::Entailed(i))),
            MaybeTrusted::Untrusted(_) => rest,
        }
    }
}

/// The untrusted statements of `ss`, in order, with entailment `i`.
pub open spec fn untrusted_queued(ss: Seq<MaybeTrusted<Signed<TripleStatement>>>, i: u32) -> Seq<(Signed<TripleStatement>, u32)>
    decreases ss.len(),
{
    if ss.len() == 0 {
        Seq::empty()
    } else {
        let rest = untrusted_queued(ss.drop_last(), i);
        match ss.last() {
            MaybeTrusted::Trusted(_) => rest,
            MaybeTrusted::Untrusted(st) => rest.push((st, i)),
        }
    }
}

/// The entailments `es`, with `e` appended unless it is already there.
pub open spec fn registered(es: Seq<(Id, Seq<Id>)>, e: (Id, Seq<Id>)) -> Seq<(Id, Seq<Id>)> {
    if es.contains(e) {
        es
    } else {
        es.push(e)
    }
}

/// What the deductions `ds` of a statement of graph `g` leave, deduction
/// by deduction: the entailments, each registered once and numbered by its
/// position (as a 32-bit number); the trusted statements to insert next;
/// the untrusted ones to check, each with its entailment's number.
pub open spec fn collected(es: Seq<(Id, Seq<Id>)>, ds: Seq<SubDeduction>, g: Option<Id>) -> (
    Seq<(Id, Seq<Id>)>,
    Seq<PendingStatement>,
    Seq<(Signed<TripleStatement>, u32)>,
)
    decreases ds.len(),
{
    if ds.len() == 0 {
        (es, Seq::empty(), Seq::empty())
    } else {
        let prev = collected(es, ds.drop_last(), g);
        let e = entailment_view(ds.last().0);
        let es2 = registered(prev.0, e);
        let i = es2.index_of(e) as u32;
        (es2, prev.1 + trusted_pushed(ds.last().1@, g, i), prev.2 + untrusted_queued(ds.last().1@, i))
    }
}

/// In a sequence without duplicates, an element's position is the one
/// it is found at.
proof fn lemma_index_of_unique(s: Seq<(Id, Seq<Id>)>, k: int)
    requires
        s.no_duplicates(),
        0 <= k < s.len(),
    ensures
        s.index_of(s[k]) == k,
{
    assert(s.contains(s[k]));
}

/// The dataset being saturated, with its interpretation, its deduction
/// system, the entailments met so far and the untrusted statements left
/// to check.
pub struct Builder {
    pub dataset: Standard,
    pub interpretation: Interpretation,
    pub system: System,
    pub entailments: indexmap::IndexSet<Entailment>,
    pub to_check: Vec<(Signed<TripleStatement>, u32)>,
}

impl Builder {
    /// The entailments met so far, in the order they were met.
    pub open spec fn entailment_seq(&self) -> Seq<(Id, Seq<Id>)> {
        entailment_set_entries(self.entailments)
    }

    pub open spec fn wf(&self) -> bool {
        &&& self.dataset.wf()
        &&& self.interpretation.wf()
        &&& self.system.wf()
        &&& self.entailment_seq().no_duplicates()
    }

    /// A builder with an empty dataset and the given interpretation and
    /// deduction system.
    pub fn new(interpretation: Interpretation, system: System) -> (r: Builder)
        requires
            interpretation.wf(),
            system.wf(),
        ensures
            r.wf(),
            forall|g: Option<Id>| #[trigger] r.dataset.graph_or_empty(g) == Map::<usize, crate::dataset::graph::Fact>::empty(),
            r.interpretation == interpretation,
            r.system == system,
            r.entailment_seq() == Seq::<(Id, Seq<Id>)>::empty(),
            r.to_check@ == Seq::<(Signed<TripleStatement>, u32)>::empty(),
    {
        Builder {
            dataset: Standard::new(),
            interpretation,
            system,
            entailments: entailment_set_new(),
            to_check: Vec::new(),
        }
    }

    /// The entailment of the given number, if any.
    pub fn entailment(&self, i: u32) -> (r: Option<&Entailment>)
        ensures
            match r {
                Some(e) => i < self.entailment_seq().len() && entailment_view(*e) == self.entailment_seq()[i as int],
                None => i >= self.entailment_seq().len(),
            },
    {
        entailment_set_get_index(&self.entailments, i as usize)
    }

    /// Registers each deduction's entailment and hands its statements on:
    /// the trusted ones, in graph `g`, to `stack`; the untrusted ones to
    /// the statements to check.
    fn collect(&mut self, stack: &mut Vec<PendingStatement>, ds: Vec<SubDeduction>, g: Option<Id>)
        requires
            old(self).entailment_seq().no_duplicates(),
        ensures
            final(self).dataset == old(self).dataset,
            final(self).interpretation == old(self).interpretation,
            final(self).system == old(self).system,
            final(self).entailment_seq().no_duplicates(),
            ({
                let c = collected(old(self).entailment_seq(), ds@, g);
                &&& final(self).entailment_seq() == c.0
                &&& final(stack)@ == old(stack)@ + c.1
                &&& final(self).to_check@ == old(self).to_check@ + c.2
            }),
    {
        let ghost es0 = self.entailment_seq();
        let ghost stack0 = stack@;
        let ghost tc0 = self.to_check@;
        let ghost all = ds@;
        let mut ds = ds;
        let n: usize = ds.len();
        let mut k: usize = 0;
        while ds.len() > 0
            invariant
                self.dataset == old(self).dataset,
                self.interpretation == old(self).interpretation,
                self.system == old(self).system,
                self.entailment_seq().no_duplicates(),
                k <= all.len(),
                ds@ == all.skip(k as int),
                ds@.len() == all.len() - k,
                all.len() == n,
                ({
                    let c = collected(es0, all.take(k as int), g);
                    &&& self.entailment_seq() == c.0
                    &&& stack@ == stack0 + c.1
                    &&& self.to_check@ == tc0 + c.2
                }),
            decreases ds@.len(),
        {
            let ghost prev = collected(es0, all.take(k as int), g);
            let d = ds.remove(0);
            proof {
                assert(d == all[k as int]);
                assert(all.take(k as int + 1).drop_last() =~= all.take(k as int));
                assert(ds@ =~= all.skip(k as int + 1));
            }
            let (e, stmts) = d;
            let ghost ev = entailment_view(e);
            let (idx, _) = entailment_set_insert_full(&mut self.entailments, e);
            proof {
                let es2 = registered(prev.0, ev);
                assert(self.entailment_seq() == es2);
                if !prev.0.contains(ev) {
                    assert forall|a: int, b: int| 0 <= a < b < es2.len() implies es2[a] != es2[b] by {
                        if b == es2.len() - 1 && es2[a] == es2[b] {
                            assert(prev.0.contains(ev));
                        }
                    }
                }
                lemma_index_of_unique(es2, idx as int);
            }
            let i: u32 = #[verifier::truncate] (idx as u32);
            let ghost p1 = stack@;
            let ghost c1 = self.to_check@;
            let mut m: usize = 0;
            while m < stmts.len()
                invariant
                    self.dataset == old(self).dataset,
                    self.interpretation == old(self).interpretation,
                    self.system == old(self).system,
                    m <= stmts@.len(),
                    stack@ == p1 + trusted_pushed(stmts@.take(m as int), g, i),
                    self.to_check@ == c1 + untrusted_queued(stmts@.take(m as int), i),
                    self.entailment_seq() == registered(prev.0, ev),
                    self.entailment_seq().no_duplicates(),
                decreases stmts@.len() - m,
            {
                let s = stmts[m];
                proof {
                    assert(stmts@.take(m as int + 1).drop_last() =~= stmts@.take(m as int));
                    assert(stmts@.take(m as int + 1).last() == s);
                }
                match s {
                    MaybeTrusted::Trusted(Signed(sign, st)) => {
                        stack.push(Meta(Signed(sign, st.with_graph(g)), Cause::Entailed(i)));
                    },
                    MaybeTrusted::Untrusted(st) => {
                        self.to_check.push((st, i));
                    },
                }
                proof {
                    assert(stack@ =~= p1 + trusted_pushed(stmts@.take(m as int + 1), g, i));
                    assert(self.to_check@ =~= c1 + untrusted_queued(stmts@.take(m as int + 1), i));
                }
                m = m + 1;
            }
            proof {
                assert(stmts@.take(m as int) =~= stmts@);
                let c = collected(es0, all.take(k as int + 1), g);
                assert(all.take(k as int + 1).last() == (e, stmts));
                assert(stack@ =~= stack0 + c.1);
                assert(self.to_check@ =~= tc0 + c.2);
            }
            k = k + 1;
        }
        proof {
            assert(all.take(k as int) =~= all);
        }
    }
}

/// The pending statement with `b` replaced by `a`.
pub open spec fn replaced_pending(m: PendingStatement, a: Id, b: Id) -> PendingStatement {
    Meta(Signed(m.0.0, replaced_statement(m.0.1, a, b)), m.1)
}

/// The fact, as a statement to insert.
pub open spec fn pending_of_fact(f: Fact) -> PendingStatement {
    Meta(Signed(f.0.0, QuadStatement::Quad(f.0.1)), f.1)
}

/// Replaces `b` with `a` in every pending statement.
fn replace_in_stack(stack: &mut Vec<PendingStatement>, a: Id, b: Id)
    ensures
        final(stack)@ == old(stack)@.map_values(|m: PendingStatement| replaced_pending(m, a, b)),
{
    let mut j: usize = 0;
    while j < stack.len()
        invariant
            j <= stack@.len(),
            stack@.len() == old(stack)@.len(),
            forall|i: int| 0 <= i < j ==> #[trigger] stack@[i] == replaced_pending(old(stack)@[i], a, b),
            forall|i: int| j <= i < stack@.len() ==> #[trigger] stack@[i] == old(stack)@[i],
        decreases stack@.len() - j,
    {
        let Meta(Signed(sign, st), cause) = stack[j];
        let mut st = st;
        st.replace_id(a, b);
        stack.set(j, Meta(Signed(sign, st), cause));
        j = j + 1;
    }
    proof {
        assert(stack@ =~= old(stack)@.map_values(|m: PendingStatement| replaced_pending(m, a, b)));
    }
}

/// Pushes each fact, in order, as a statement to insert.
fn push_facts(stack: &mut Vec<PendingStatement>, facts: Vec<Fact>)
    ensures
        final(stack)@ == old(stack)@ + facts@.map_values(|f: Fact| pending_of_fact(f)),
{
    let mut j: usize = 0;
    while j < facts.len()
        invariant
            j <= facts@.len(),
            stack@ == old(stack)@ + facts@.take(j as int).map_values(|f: Fact| pending_of_fact(f)),
        decreases facts@.len() - j,
    {
        let Meta(Signed(sign, q), cause) = facts[j];
        stack.push(Meta(Signed(sign, QuadStatement::Quad(q)), cause));
        proof {
            assert(facts@.take(j as int + 1).map_values(|f: Fact| pending_of_fact(f)) =~= facts@.take(j as int).map_values(
                |f: Fact| pending_of_fact(f),
            ).push(pending_of_fact(facts@[j as int])));
        }
        j = j + 1;
    }
    proof {
        assert(facts@.take(j as int) =~= facts@);
    }
}

/// The lesser of two resources, kept by a merge.
pub open spec fn kept(a: Id, b: Id) -> Id {
    if a.0 < b.0 {
        a
    } else {
        b
    }
}

/// The greater of two resources, removed by a merge.
pub open spec fn removed(a: Id, b: Id) -> Id {
    if a.0 < b.0 {
        b
    } else {
        a
    }
}

/// Whether `f` is `o` after merging resource `hi` into `lo`.
pub open spec fn merged_into(o: Interpretation, f: Interpretation, lo: Id, hi: Id) -> bool {
    &&& f.resources() == merged(o.resources(), lo.0, hi.0)
    &&& forall|t: Term| #[trigger] f.interpretation_of(t) == if denotes(o.resources()[hi.0 as usize], t) {
        Some(lo)
    } else {
        o.interpretation_of(t)
    }
}

/// Outcome of inserting the fact: on success, the fact is in its graph;
/// if it was new, the system's deductions from its triple, made against
/// the dataset it is now in, are collected.
pub open spec fn quad_step(
    o: Builder,
    f: Builder,
    os: Seq<PendingStatement>,
    fs: Seq<PendingStatement>,
    fact: Fact,
    r: Result<(), Contradiction>,
) -> bool {
    let (gf, g) = spec_into_graph_fact(fact);
    &&& f.interpretation == o.interpretation
    &&& forall|h: Option<Id>| h != g ==> #[trigger] f.dataset.graph_view(h) == o.dataset.graph_view(h)
    &&& match r {
        Err(Contradiction::Data(c)) => {
            &&& contradicted(o.dataset.graph_or_empty(g), f.dataset.graph_or_empty(g), gf, c.0)
            &&& fs == os
            &&& f.entailment_seq() == o.entailment_seq()
            &&& f.to_check@ == o.to_check@
        },
        Err(Contradiction::Interpretation(_)) => false,
        Ok(()) => exists|i: u32, added: bool| {
            &&& f.dataset.graph_view(g) is Some
            &&& #[trigger] inserted(o.dataset.graph_or_empty(g), f.dataset.graph_or_empty(g), gf, i, added)
            &&& if added {
                deduced_and_collected(o, f, os, fs, gf.0, g)
            } else {
                &&& fs == os
                &&& f.entailment_seq() == o.entailment_seq()
                &&& f.to_check@ == o.to_check@
            }
        },
    }
}

/// Whether `ds` is what was collected, from the state `o` to the state `f`.
pub open spec fn collected_from(o: Builder, f: Builder, os: Seq<PendingStatement>, fs: Seq<PendingStatement>, ds: Seq<SubDeduction>, g: Option<Id>) -> bool {
    let c = collected(o.entailment_seq(), ds, g);
    &&& f.entailment_seq() == c.0
    &&& fs == os + c.1
    &&& f.to_check@ == o.to_check@ + c.2
}

/// Whether the system deduces, from `triple` in the new dataset, what was
/// collected from the state `o` to the state `f`.
pub open spec fn deduced_and_collected(
    o: Builder,
    f: Builder,
    os: Seq<PendingStatement>,
    fs: Seq<PendingStatement>,
    triple: Signed<Triple>,
    g: Option<Id>,
) -> bool {
    exists|ds: Seq<SubDeduction>| o.system.deduces(f.dataset, triple, ds) && #[trigger] collected_from(o, f, os, fs, ds, g)
}

/// Outcome of stating that `a` and `b` are equal: the interpretation
/// merges them, unless the greater differs from the lesser; then, in the
/// dataset and in the pending statements, the lesser is replaced with the
/// greater, and the facts the lesser is still mentioned in are pushed.
pub open spec fn merge_step(
    o: Builder,
    f: Builder,
    os: Seq<PendingStatement>,
    fs: Seq<PendingStatement>,
    a: Id,
    b: Id,
    r: Result<(), Contradiction>,
) -> bool {
    let lo = kept(a, b);
    let hi = removed(a, b);
    &&& f.entailment_seq() == o.entailment_seq()
    &&& f.to_check@ == o.to_check@
    &&& if a != b && o.interpretation.resources()[hi.0 as usize].3.contains(lo.0) {
        &&& merge_interrupted(o.interpretation.resources(), f.interpretation.resources(), lo.0, hi.0)
        &&& forall|t: Term| f.interpretation.interpretation_of(t) == o.interpretation.interpretation_of(t)
        &&& f.dataset == o.dataset
        &&& fs == os
        &&& match r {
            Err(Contradiction::Interpretation(c)) => c.0 == lo && c.1 == hi,
            _ => false,
        }
    } else {
        &&& if a == b {
            &&& f.interpretation.resources() == o.interpretation.resources()
            &&& forall|t: Term| f.interpretation.interpretation_of(t) == o.interpretation.interpretation_of(t)
        } else {
            merged_into(o.interpretation, f.interpretation, lo, hi)
        }
        &&& f.dataset.replacing(o.dataset, hi, lo)
        &&& match r {
            Ok(()) => {
                &&& replaced_all(o.dataset, f.dataset, hi, lo)
                &&& exists|facts: Seq<Fact>| {
                    &&& #[trigger] pushed_after_replacing(os, fs, facts, hi, lo)
                    &&& forall|x: Fact| #[trigger] facts.contains(x) <==> f.dataset.mentioning_fact(x, lo)
                }
            },
            Err(Contradiction::Data(c)) => {
                &&& fs == os
                &&& exists|g: Option<Id>, k: usize| #[trigger] o.dataset.graph_or_empty(g).contains_key(k) && c.0 == fact_triple(
                    replaced_fact(o.dataset.graph_or_empty(g)[k], hi, lo),
                )
            },
            Err(Contradiction::Interpretation(_)) => false,
        }
    }
}

/// Whether `fs` is `os` with `b` replaced by `a`, then the facts pushed.
pub open spec fn pushed_after_replacing(os: Seq<PendingStatement>, fs: Seq<PendingStatement>, facts: Seq<Fact>, a: Id, b: Id) -> bool {
    fs == os.map_values(|m: PendingStatement| replaced_pending(m, a, b)) + facts.map_values(|x: Fact| pending_of_fact(x))
}

/// Whether every fact of `o` mentioning `b` holds, with `b` replaced by
/// `a`, in `f`: in its graph, or in graph `a` for the facts of graph `b`;
/// and `b` is gone from `f` when it differs from `a`.
pub open spec fn replaced_all(o: Standard, f: Standard, a: Id, b: Id) -> bool {
    &&& forall|g: Option<Id>, k: usize| g != Some(b) && #[trigger] mentions(o.graph_or_empty(g), k, b) ==> holds(
        f.graph_or_empty(g),
        replaced_fact(o.graph_or_empty(g)[k], a, b),
    )
    &&& forall|k: usize| #[trigger] o.graph_or_empty(Some(b)).contains_key(k) ==> holds(
        f.graph_or_empty(Some(a)),
        replaced_fact(o.graph_or_empty(Some(b))[k], a, b),
    )
    &&& a != b ==> f.graph_view(Some(b)) is None
    &&& a != b ==> forall|g: Option<Id>| #[trigger] free_of(f.graph_or_empty(g), b)
}

/// Outcome of stating that `a` and `b` differ: the interpretation records
/// it, a resource differing from itself being a contradiction.
pub open spec fn split_step(
    o: Builder,
    f: Builder,
    os: Seq<PendingStatement>,
    fs: Seq<PendingStatement>,
    a: Id,
    b: Id,
    r: Result<(), Contradiction>,
) -> bool {
    &&& f.dataset == o.dataset
    &&& fs == os
    &&& f.entailment_seq() == o.entailment_seq()
    &&& f.to_check@ == o.to_check@
    &&& forall|t: Term| f.interpretation.interpretation_of(t) == o.interpretation.interpretation_of(t)
    &&& match r {
        Err(Contradiction::Interpretation(c)) => a == b && c.0 == a && c.1 == b && f.interpretation.resources()
            == o.interpretation.resources(),
        Err(Contradiction::Data(_)) => false,
        Ok(()) => a != b && f.interpretation.resources() == split_view(o.interpretation.resources(), a.0, b.0),
    }
}

impl Builder {
    /// Whether the statement can be inserted: a quad's graph has room for
    /// one more fact; the resources of an equality exist, with those the
    /// greater one differs from, and the dataset has room to replace one
    /// with the other; the resources of a difference exist.
    pub open spec fn ready(&self, s: Signed<QuadStatement>) -> bool {
        match s {
            Signed(_, QuadStatement::Quad(q)) => self.dataset.graph_or_empty(q.3).len() < u32::MAX,
            Signed(Sign::Positive, QuadStatement::Eq(a, b, _)) => self.interpretation.mergeable(a, b)
                && self.dataset.replace_fits(b, a),
            Signed(Sign::Negative, QuadStatement::Eq(a, b, _)) => {
                &&& self.interpretation.resources().contains_key(a.0 as usize)
                &&& self.interpretation.resources().contains_key(b.0 as usize)
            },
        }
    }

    /// Whether the statement can be inserted.
    pub fn can_insert(&self, s: Signed<QuadStatement>) -> (r: bool)
        requires
            self.wf(),
        ensures
            r == self.ready(s),
    {
        match s {
            Signed(_, QuadStatement::Quad(q)) => match self.dataset.graph(q.3) {
                Some(graph) => graph.len() < 4294967295,
                None => true,
            },
            Signed(Sign::Positive, QuadStatement::Eq(a, b, _)) => self.interpretation.can_merge(a, b)
                && self.dataset.replace_room(b, a),
            Signed(Sign::Negative, QuadStatement::Eq(a, b, _)) => self.interpretation.get(a).is_some()
                && self.interpretation.get(b).is_some(),
        }
    }

    /// Inserts a statement, with its cause: a fact goes into the dataset
    /// and, if it is new, the system deduces from it, its trusted
    /// conclusions being pushed on `stack` and its untrusted ones kept to
    /// be checked; an equality merges its resources; a difference is
    /// recorded in the interpretation.
    pub fn insert_deduced_statement<G: ResourceGenerator>(
        &mut self,
        stack: &mut Vec<PendingStatement>,
        statement: PendingStatement,
        generator: &mut G,
    ) -> (r: Result<(), Contradiction>)
        requires
            old(self).wf(),
            old(self).ready(statement.0),
        ensures
            r is Ok ==> final(self).wf(),
            final(self).system == old(self).system,
            match statement.0 {
                Signed(sign, QuadStatement::Quad(q)) => quad_step(
                    *old(self),
                    *final(self),
                    old(stack)@,
                    final(stack)@,
                    Meta(Signed(sign, q), statement.1),
                    r,
                ),
                Signed(Sign::Positive, QuadStatement::Eq(a, b, _)) => merge_step(
                    *old(self),
                    *final(self),
                    old(stack)@,
                    final(stack)@,
                    a,
                    b,
                    r,
                ),
                Signed(Sign::Negative, QuadStatement::Eq(a, b, _)) => split_step(
                    *old(self),
                    *final(self),
                    old(stack)@,
                    final(stack)@,
                    a,
                    b,
                    r,
                ),
            },
    {
        let Meta(Signed(sign, st), cause) = statement;
        match st {
            QuadStatement::Quad(q) => {
                let fact: Fact = Meta(Signed(sign, q), cause);
                let (gf, g) = dataset::into_graph_fact(fact);
                match self.dataset.insert(fact) {
                    Err(c) => Err(Contradiction::Data(c)),
                    Ok((_, i, added)) => {
                        if added {
                            let ds = self.system.deduce(&self.dataset, gf.0, generator);
                            self.collect(stack, ds, g);
                            proof {
                                assert(collected_from(*old(self), *self, old(stack)@, stack@, ds@, g));
                                assert(old(self).system.deduces(self.dataset, gf.0, ds@));
                                assert(deduced_and_collected(*old(self), *self, old(stack)@, stack@, gf.0, g));
                            }
                        }
                        proof {
                            assert(inserted(old(self).dataset.graph_or_empty(g), self.dataset.graph_or_empty(g), gf, i, added));
                            assert(self.dataset.graph_view(g) is Some);
                        }
                        Ok(())
                    },
                }
            },
            QuadStatement::Eq(a, b, _) => match sign {
                Sign::Positive => {
                    let merge = self.interpretation.merge(a, b);
                    match merge {
                        Err(c) => Err(Contradiction::Interpretation(c)),
                        Ok((a, b)) => {
                            let filter = |_f: &graph::Fact| -> (r: Result<bool, dataset::Contradiction>)
                                ensures
                                    r == Ok::<bool, dataset::Contradiction>(true),
                                { Ok(true) };
                            match self.dataset.replace_id(b, a, filter) {
                                Err(c) => Err(Contradiction::Data(c)),
                                Ok(()) => {
                                    replace_in_stack(stack, b, a);
                                    let facts = self.dataset.resource_facts(a);
                                    let ghost fs = facts@;
                                    push_facts(stack, facts);
                                    proof {
                                        assert(pushed_after_replacing(old(stack)@, stack@, fs, b, a));
                                    }
                                    Ok(())
                                },
                            }
                        },
                    }
                },
                Sign::Negative => match self.interpretation.split(a, b) {
                    Err(c) => Err(Contradiction::Interpretation(c)),
                    Ok(_) => Ok(()),
                },
            },
        }
    }
}

impl Builder {
    /// Hands on what the rules that are not existential deduce from the
    /// dataset (see `universal_deduced`): their entailments are registered,
    /// their trusted statements pushed on `stack` in the default graph and
    /// their untrusted ones kept to be checked.
    pub fn close_further<G: ResourceGenerator>(
        &mut self,
        stack: &mut Vec<PendingStatement>,
        rules: &Vec<FormulaRule>,
        resources: &Vec<Id>,
        generator: &mut G,
    )
        requires
            old(self).wf(),
        ensures
            final(self).wf(),
            final(self).dataset == old(self).dataset,
            final(self).interpretation == old(self).interpretation,
            final(self).system == old(self).system,
            exists|ds: Seq<SubDeduction>| universal_deduced(old(self).dataset, resources@, rules@, ds)
                && #[trigger] collected_from(*old(self), *final(self), old(stack)@, final(stack)@, ds, None),
    {
        let ds = self.system.deduce_from_universal_rules(rules, &self.dataset, resources, generator);
        let ghost dv = ds@;
        self.collect(stack, ds, None);
        proof {
            assert(collected_from(*old(self), *self, old(stack)@, stack@, dv, None));
        }
    }
}

/// An untrusted statement that the dataset does not hold, with the number
/// of the entailment it comes from.
#[derive(Debug)]
pub struct MissingStatement(pub Signed<TripleStatement>, pub u32);

/// Whether some graph of the dataset holds the triple with the sign.
pub open spec fn dataset_holds(d: Standard, t: Triple, sign: Sign) -> bool {
    exists|g: Option<Id>| #[trigger] d.graph_view(g) matches Some(v) && holds_signed(v, t, sign)
}

/// Whether the statement to check is a triple the dataset does not hold.
pub open spec fn is_missing(d: Standard, x: (Signed<TripleStatement>, u32)) -> bool {
    match x.0.1 {
        TripleStatement::Triple(t) => !dataset_holds(d, t, x.0.0),
        TripleStatement::Eq(_, _) => false,
    }
}

impl Builder {
    /// Whether checking reaches no equality: each one comes after a
    /// missing statement.
    pub open spec fn checkable(&self) -> bool {
        forall|i: int|
            0 <= i < self.to_check@.len() && (#[trigger] self.to_check@[i]).0.1 is Eq ==> exists|j: int|
                0 <= j < i && is_missing(self.dataset, #[trigger] self.to_check@[j])
    }

    /// Checks the untrusted statements, in the order they were deduced,
    /// against the dataset, and forgets them: the first one missing from
    /// the dataset is returned.
    pub fn check(&mut self) -> (r: Result<(), MissingStatement>)
        requires
            old(self).wf(),
            old(self).checkable(),
        ensures
            final(self).wf(),
            final(self).dataset == old(self).dataset,
            final(self).interpretation == old(self).interpretation,
            final(self).system == old(self).system,
            final(self).entailment_seq() == old(self).entailment_seq(),
            final(self).to_check@ == Seq::<(Signed<TripleStatement>, u32)>::empty(),
            match r {
                Ok(()) => forall|i: int| 0 <= i < old(self).to_check@.len() ==> !is_missing(old(self).dataset, #[trigger] old(self).to_check@[i]),
                Err(m) => exists|i: int| {
                    &&& 0 <= i < old(self).to_check@.len()
                    &&& #[trigger] old(self).to_check@[i] == (m.0, m.1)
                    &&& is_missing(old(self).dataset, old(self).to_check@[i])
                    &&& forall|j: int| 0 <= j < i ==> !is_missing(old(self).dataset, #[trigger] old(self).to_check@[j])
                },
            },
    {
        let mut pending: Vec<(Signed<TripleStatement>, u32)> = Vec::new();
        std::mem::swap(&mut pending, &mut self.to_check);
        let mut j: usize = 0;
        while j < pending.len()
            invariant
                self.wf(),
                self.dataset == old(self).dataset,
                self.interpretation == old(self).interpretation,
                self.system == old(self).system,
                self.entailment_seq() == old(self).entailment_seq(),
                self.to_check@ == Seq::<(Signed<TripleStatement>, u32)>::empty(),
                pending@ == old(self).to_check@,
                old(self).checkable(),
                j <= pending@.len(),
                forall|i: int| 0 <= i < j ==> !is_missing(old(self).dataset, #[trigger] pending@[i]),
            decreases pending@.len() - j,
        {
            let (Signed(sign, statement), cause) = pending[j];
            match statement {
                TripleStatement::Triple(t) => {
                    if !self.dataset.contains_triple(t, sign) {
                        return Err(MissingStatement(Signed(sign, statement), cause));
                    }
                },
                TripleStatement::Eq(_, _) => {
                    proof {
                        assert(old(self).to_check@[j as int].0.1 is Eq);
                        let k = choose|k: int| 0 <= k < j && is_missing(self.dataset, #[trigger] old(self).to_check@[k]);
                        assert(!is_missing(old(self).dataset, pending@[k]));
                    }
                },
            }
            j = j + 1;
        }
        Ok(())
    }
}

/// Inserting a fact a second time succeeds and changes nothing: the
/// dataset, the interpretation, the pending statements, the entailments
/// and the statements to check stay as they are.
pub proof fn lemma_insert_fact_twice(
    b0: Builder,
    b1: Builder,
    b2: Builder,
    s0: Seq<PendingStatement>,
    s1: Seq<PendingStatement>,
    t1: Seq<PendingStatement>,
    s2: Seq<PendingStatement>,
    fact: Fact,
    r2: Result<(), Contradiction>,
)
    requires
        b1.wf(),
        quad_step(b0, b1, s0, s1, fact, Ok(())),
        quad_step(b1, b2, t1, s2, fact, r2),
    ensures
        r2 is Ok,
        forall|h: Option<Id>| #[trigger] b2.dataset.graph_view(h) == b1.dataset.graph_view(h),
        b2.interpretation == b1.interpretation,
        s2 == t1,
        b2.entailment_seq() == b1.entailment_seq(),
        b2.to_check@ == b1.to_check@,
{
    let (gf, g) = spec_into_graph_fact(fact);
    let v0 = b0.dataset.graph_or_empty(g);
    let v1 = b1.dataset.graph_or_empty(g);
    let v2 = b2.dataset.graph_or_empty(g);
    let (i, added) = choose|i: u32, added: bool| {
        &&& b1.dataset.graph_view(g) is Some
        &&& #[trigger] inserted(v0, v1, gf, i, added)
        &&& if added {
            deduced_and_collected(b0, b1, s0, s1, gf.0, g)
        } else {
            &&& s1 == s0
            &&& b1.entailment_seq() == b0.entailment_seq()
            &&& b1.to_check@ == b0.to_check@
        }
    };
    lemma_inserted_holds(v0, v1, gf, i, added);
    b1.dataset.lemma_graph_unique_triples(g);
    match r2 {
        Err(Contradiction::Data(c)) => {
            let k = choose|k: usize| has_triple_at(v1, k, fact_triple(gf)) && graph::fact_sign(v1[k]) != graph::fact_sign(gf);
            assert(v1.contains_key(k) && v1.contains_key(i as usize));
        },
        Err(Contradiction::Interpretation(_)) => {},
        Ok(()) => {
            let (j, again) = choose|j: u32, again: bool| {
                &&& b2.dataset.graph_view(g) is Some
                &&& #[trigger] inserted(v1, v2, gf, j, again)
                &&& if again {
                    deduced_and_collected(b1, b2, t1, s2, gf.0, g)
                } else {
                    &&& s2 == t1
                    &&& b2.entailment_seq() == b1.entailment_seq()
                    &&& b2.to_check@ == b1.to_check@
                }
            };
            lemma_insert_idempotent(v0, v1, v2, gf, i, added, j, again);
            assert forall|h: Option<Id>| #[trigger] b2.dataset.graph_view(h) == b1.dataset.graph_view(h) by {
                if h == g {
                    assert(b2.dataset.graph_view(g) == Some(v2));
                }
            }
        },
    }
}

/// Stating that two resources are equal, after stating that they differ,
/// is a contradiction: the interpretation answers with the two resources,
/// the lesser first, and the dataset is left as it was.
pub proof fn lemma_differ_then_equal_contradicts(
    b0: Builder,
    b1: Builder,
    b2: Builder,
    s0: Seq<PendingStatement>,
    s1: Seq<PendingStatement>,
    t1: Seq<PendingStatement>,
    s2: Seq<PendingStatement>,
    a: Id,
    b: Id,
    r2: Result<(), Contradiction>,
)
    requires
        b0.interpretation.resources().contains_key(a.0 as usize),
        b0.interpretation.resources().contains_key(b.0 as usize),
        split_step(b0, b1, s0, s1, a, b, Ok(())),
        merge_step(b1, b2, t1, s2, a, b, r2),
    ensures
        r2 matches Err(Contradiction::Interpretation(c)) && c.0 == kept(a, b) && c.1 == removed(a, b),
        b2.dataset == b1.dataset,
        s2 == t1,
{
    lemma_split_then_merge_contradicts(b0.interpretation.resources(), a.0, b.0);
    if a.0 == b.0 {
        assert(a == b);
    }
}

/// After a fact is inserted without contradiction, its graph holds its
/// triple with its sign.
pub proof fn lemma_inserted_fact_holds(
    o: Builder,
    f: Builder,
    os: Seq<PendingStatement>,
    fs: Seq<PendingStatement>,
    fact: Fact,
)
    requires
        quad_step(o, f, os, fs, fact, Ok(())),
    ensures
        holds(f.dataset.graph_or_empty(spec_into_graph_fact(fact).1), spec_into_graph_fact(fact).0),
{
    let (gf, g) = spec_into_graph_fact(fact);
    let (i, added) = choose|i: u32, added: bool| {
        &&& f.dataset.graph_view(g) is Some
        &&& #[trigger] inserted(o.dataset.graph_or_empty(g), f.dataset.graph_or_empty(g), gf, i, added)
        &&& if added {
            deduced_and_collected(o, f, os, fs, gf.0, g)
        } else {
            &&& fs == os
            &&& f.entailment_seq() == o.entailment_seq()
            &&& f.to_check@ == o.to_check@
        }
    };
    lemma_inserted_holds(o.dataset.graph_or_empty(g), f.dataset.graph_or_empty(g), gf, i, added);
    assert(has_triple_at(f.dataset.graph_or_empty(g), i as usize, fact_triple(gf)));
}

} // verus!
