//! RDF graph: facts stored by index, with per-resource triple indexes.
use vstd::prelude::*;

use std::collections::BTreeSet;
use vstd::std_specs::iter::IteratorSpec;

use crate::cause::Cause;
use crate::containers::{
    fact_slab_entries, fact_slab_get, fact_slab_insert, fact_slab_keys, fact_slab_len,
    fact_slab_new, fact_slab_slots, fact_slab_try_remove, resource_map_entries, resource_map_get,
    resource_map_insert, resource_map_keys, resource_map_new, resource_map_remove, ResourceMap,
};
use crate::dataset::Contradiction;
use crate::id::Id;
use crate::pattern::{self, canonical_matches, Canonical};
use crate::sign::{Sign, Signed};
use crate::triple::{replaced_triple, Meta, Triple};

verus! {

broadcast use vstd::std_specs::btree::group_btree_axioms;

/// Graph fact: a signed triple and its cause.
pub type Fact = Meta<Signed<Triple>, Cause>;

/// The triple of a fact.
pub open spec fn fact_triple(f: Fact) -> Triple {
    f.0.1
}

/// The sign of a fact.
pub open spec fn fact_sign(f: Fact) -> Sign {
    f.0.0
}

/// Component `pos` (0: subject, 1: predicate, 2: object) of a triple.
pub open spec fn component(t: Triple, pos: int) -> Id {
    if pos == 0 {
        t.0
    } else if pos == 1 {
        t.1
    } else {
        t.2
    }
}

/// Whether the sequence is strictly increasing.
pub open spec fn strictly_increasing(s: Seq<u32>) -> bool {
    forall|i: int, j: int| 0 <= i < j < s.len() ==> s[i] < s[j]
}

/// Triple indexes of a resource: the indexes of the triples in which it
/// appears as subject, predicate and object.
#[derive(Debug, Clone)]
pub struct Resource {
    as_subject: BTreeSet<u32>,
    as_predicate: BTreeSet<u32>,
    as_object: BTreeSet<u32>,
}

/// The index set of a resource at position `pos`.
pub closed spec fn index_of(r: Resource, pos: int) -> Set<u32> {
    if pos == 0 {
        r.as_subject@
    } else if pos == 1 {
        r.as_predicate@
    } else {
        r.as_object@
    }
}

/// Elements of a `BTreeSet<u32>`, in increasing order.
fn sorted_elements(set: &BTreeSet<u32>) -> (r: Vec<u32>)
    ensures
        strictly_increasing(r@),
        r@.to_set() == set@,
{
    proof {
        crate::order::lemma_u32_ordered();
        crate::order::lemma_btree_keys_sorted(set);
    }
    let ghost keys = vstd::std_specs::btree::spec_btree_keys_iter(set).remaining();
    let mut result: Vec<u32> = Vec::new();
    for x in it: set.iter()
        invariant
            it.seq() == keys,
            result@ == keys.unref().take(it.index()),
    {
        result.push(*x);
        assert(result@ =~= keys.unref().take(it.index() + 1));
    }
    assert(result@ =~= keys.unref());
    result
}

fn set_insert(set: &mut BTreeSet<u32>, x: u32)
    ensures
        final(set)@ == old(set)@.insert(x),
{
    proof {
        crate::order::lemma_u32_ordered();
    }
    set.insert(x);
}

fn set_remove(set: &mut BTreeSet<u32>, x: u32)
    ensures
        final(set)@ == old(set)@.remove(x),
{
    proof {
        crate::order::lemma_u32_ordered();
    }
    set.remove(&x);
}

impl Resource {
    pub fn new() -> (r: Resource)
        ensures
            forall|pos: int| 0 <= pos < 3 ==> index_of(r, pos) =~= Set::<u32>::empty(),
    {
        Resource { as_subject: BTreeSet::new(), as_predicate: BTreeSet::new(), as_object: BTreeSet::new() }
    }

    /// Indexes of the triples with this resource as subject, increasing.
    pub fn iter_as_subject(&self) -> (r: Vec<u32>)
        ensures
            strictly_increasing(r@),
            r@.to_set() == index_of(*self, 0),
    {
        sorted_elements(&self.as_subject)
    }

    /// Indexes of the triples with this resource as predicate, increasing.
    pub fn iter_as_predicate(&self) -> (r: Vec<u32>)
        ensures
            strictly_increasing(r@),
            r@.to_set() == index_of(*self, 1),
    {
        sorted_elements(&self.as_predicate)
    }

    /// Indexes of the triples with this resource as object, increasing.
    pub fn iter_as_object(&self) -> (r: Vec<u32>)
        ensures
            strictly_increasing(r@),
            r@.to_set() == index_of(*self, 2),
    {
        sorted_elements(&self.as_object)
    }

    /// Indexes at the given position, increasing.
    fn iter_at(&self, pos: usize) -> (r: Vec<u32>)
        requires
            pos < 3,
        ensures
            strictly_increasing(r@),
            r@.to_set() == index_of(*self, pos as int),
    {
        if pos == 0 {
            self.iter_as_subject()
        } else if pos == 1 {
            self.iter_as_predicate()
        } else {
            self.iter_as_object()
        }
    }

    fn insert_at(&mut self, pos: usize, i: u32)
        requires
            pos < 3,
        ensures
            forall|q: int| 0 <= q < 3 ==> index_of(*final(self), q) == if q == pos {
                index_of(*old(self), q).insert(i)
            } else {
                index_of(*old(self), q)
            },
    {
        if pos == 0 {
            set_insert(&mut self.as_subject, i)
        } else if pos == 1 {
            set_insert(&mut self.as_predicate, i)
        } else {
            set_insert(&mut self.as_object, i)
        }
    }

    fn remove_at(&mut self, pos: usize, i: u32)
        requires
            pos < 3,
        ensures
            forall|q: int| 0 <= q < 3 ==> index_of(*final(self), q) == if q == pos {
                index_of(*old(self), q).remove(i)
            } else {
                index_of(*old(self), q)
            },
    {
        if pos == 0 {
            set_remove(&mut self.as_subject, i)
        } else if pos == 1 {
            set_remove(&mut self.as_predicate, i)
        } else {
            set_remove(&mut self.as_object, i)
        }
    }
}

/// RDF graph.
pub struct Graph {
    /// All the facts in the graph.
    facts: slab::Slab<Fact>,
    resources: ResourceMap,
}

impl View for Graph {
    type V = Map<usize, Fact>;

    closed spec fn view(&self) -> Map<usize, Fact> {
        fact_slab_entries(self.facts)
    }
}

/// Indexes of the facts of `v` with resource `id` at position `pos`.
pub open spec fn indexes_at(v: Map<usize, Fact>, id: Id, pos: int) -> Set<u32> {
    Set::new(|k: u32| v.contains_key(k as usize) && component(fact_triple(v[k as usize]), pos) == id)
}

/// Whether the fact at index `k` is recorded in the index of its
/// component at position `pos`.
pub closed spec fn fact_indexed(r: Map<u32, Resource>, v: Map<usize, Fact>, k: usize, pos: int) -> bool {
    resource_index(r, component(fact_triple(v[k]), pos).0, pos).contains(k as u32)
}

/// The index set at position `pos` of resource `id` (empty when it has no
/// entry).
pub closed spec fn resource_index(r: Map<u32, Resource>, id: u32, pos: int) -> Set<u32> {
    if r.contains_key(id) {
        index_of(r[id], pos)
    } else {
        Set::empty()
    }
}

/// Whether a fact of `v` has the given triple at index `k`.
pub open spec fn has_triple_at(v: Map<usize, Fact>, k: usize, t: Triple) -> bool {
    v.contains_key(k) && fact_triple(v[k]) == t
}

/// Whether some fact of `v` has the given triple.
pub open spec fn has_triple(v: Map<usize, Fact>, t: Triple) -> bool {
    exists|k: usize| has_triple_at(v, k, t)
}

/// Whether the fact at index `k` mentions resource `id`.
pub open spec fn mentions(v: Map<usize, Fact>, k: usize, id: Id) -> bool {
    v.contains_key(k) && (fact_triple(v[k]).0 == id || fact_triple(v[k]).1 == id || fact_triple(
        v[k],
    ).2 == id)
}

impl Graph {
    /// Every index fits in 32 bits.
    pub proof fn lemma_indexes_fit(&self)
        requires
            self.wf(),
        ensures
            forall|k: usize| #[trigger] self@.contains_key(k) ==> k < u32::MAX,
    {
    }

    /// Internal consistency of the graph and of its indexes.
    pub closed spec fn wf(&self) -> bool {
        let v = self@;
        let r = resource_map_entries(self.resources);
        &&& fact_slab_slots(self.facts) <= u32::MAX
        &&& v.dom().finite()
        &&& forall|k: usize| #[trigger] v.contains_key(k) ==> k < fact_slab_slots(self.facts)
        &&& forall|k: usize| #[trigger]
            v.contains_key(k) ==> fact_indexed(r, v, k, 0) && fact_indexed(r, v, k, 1)
                && fact_indexed(r, v, k, 2)
        &&& forall|id: u32, pos: int, k: u32|
            0 <= pos < 3 && #[trigger] resource_index(r, id, pos).contains(k)
                ==> v.contains_key(k as usize) && component(fact_triple(v[k as usize]), pos).0
                == id
        &&& forall|k1: usize, k2: usize|
            #[trigger] v.contains_key(k1) && #[trigger] v.contains_key(k2) && fact_triple(v[k1])
                == fact_triple(v[k2]) ==> k1 == k2
    }

    /// Number of slots of the fact store, free or not: the index the
    /// next new fact gets when no slot is free.
    pub closed spec fn slots(&self) -> nat {
        fact_slab_slots(self.facts)
    }

    /// The facts are finitely many, each at an index below the number of
    /// slots.
    pub proof fn lemma_finite(&self)
        requires
            self.wf(),
        ensures
            self@.dom().finite(),
            forall|k: usize| #[trigger] self@.contains_key(k) ==> k < self.slots(),
    {
    }

    pub fn new() -> (g: Graph)
        ensures
            g.wf(),
            g@ == Map::<usize, Fact>::empty(),
            g.slots() == 0,
    {
        let g = Graph { facts: fact_slab_new(), resources: resource_map_new() };
        assert(g@ =~= Map::<usize, Fact>::empty());
        g
    }

    proof fn lemma_indexes(&self, id: u32, pos: int)
        requires
            self.wf(),
            0 <= pos < 3,
        ensures
            resource_index(resource_map_entries(self.resources), id, pos) == indexes_at(self@, Id(id), pos),
            resource_map_entries(self.resources).contains_key(id) ==> index_of(
                resource_map_entries(self.resources)[id],
                pos,
            ) == indexes_at(self@, Id(id), pos),
            !resource_map_entries(self.resources).contains_key(id) ==> indexes_at(
                self@,
                Id(id),
                pos,
            ) =~= Set::<u32>::empty(),
    {
        let r = resource_map_entries(self.resources);
        assert forall|k: u32| indexes_at(self@, Id(id), pos).contains(k) implies resource_index(r, id, pos).contains(k) by {
            assert(self@.contains_key(k as usize));
            assert(fact_indexed(r, self@, k as usize, pos)) by {
                if pos == 0 {
                } else if pos == 1 {
                } else {
                }
            }
        }
        assert forall|k: u32| resource_index(r, id, pos).contains(k) implies indexes_at(self@, Id(id), pos).contains(k) by {
        }
        assert(resource_index(r, id, pos) =~= indexes_at(self@, Id(id), pos));
    }

    pub fn len(&self) -> (r: usize)
        requires
            self.wf(),
        ensures
            r == self@.len(),
    {
        fact_slab_len(&self.facts)
    }

    pub fn is_empty(&self) -> (r: bool)
        requires
            self.wf(),
        ensures
            r <==> self@.len() == 0,
    {
        fact_slab_len(&self.facts) == 0
    }

    /// The fact at index `i`, if any.
    pub fn get(&self, i: usize) -> (r: Option<&Fact>)
        ensures
            match r {
                Some(f) => self@.contains_key(i) && *f == self@[i],
                None => !self@.contains_key(i),
            },
    {
        fact_slab_get(&self.facts, i)
    }

    /// Number of resources with an index entry.
    pub fn resource_count(&self) -> (r: usize)
        ensures
            r == self.indexed_resources().len(),
    {
        let keys = resource_map_keys(&self.resources);
        proof {
            keys@.unique_seq_to_set();
            assert(keys@.to_set() =~= resource_map_entries(self.resources).dom());
        }
        keys.len()
    }

    /// Triple indexes of the given resource, if it appears in the graph.
    pub fn get_resource(&self, id: Id) -> (r: Option<&Resource>)
        requires
            self.wf(),
        ensures
            match r {
                Some(res) => forall|pos: int|
                    0 <= pos < 3 ==> index_of(*res, pos) == indexes_at(self@, id, pos),
                None => forall|pos: int|
                    0 <= pos < 3 ==> indexes_at(self@, id, pos) =~= Set::<u32>::empty(),
            },
    {
        proof {
            self.lemma_indexes(id.0, 0);
            self.lemma_indexes(id.0, 1);
            self.lemma_indexes(id.0, 2);
        }
        resource_map_get(&self.resources, id.0)
    }

    /// Resources with an index entry in the graph: every resource some
    /// fact mentions, and possibly resources no fact mentions any more.
    pub closed spec fn indexed_resources(&self) -> Set<u32> {
        resource_map_entries(self.resources).dom()
    }

    /// Identifiers of the resources indexed in the graph, each once.
    pub fn iter_resources(&self) -> (r: Vec<Id>)
        requires
            self.wf(),
        ensures
            r@.no_duplicates(),
            forall|id: Id| r@.contains(id) <==> self.indexed_resources().contains(id.0),
            forall|k: usize, id: Id| #[trigger] mentions(self@, k, id) ==> r@.contains(id),
    {
        let keys = resource_map_keys(&self.resources);
        let mut result: Vec<Id> = Vec::new();
        let mut i: usize = 0;
        while i < keys.len()
            invariant
                i <= keys@.len(),
                keys@.no_duplicates(),
                result@.len() == i,
                forall|j: int| 0 <= j < i ==> #[trigger] result@[j] == Id(keys@[j]),
            decreases keys@.len() - i,
        {
            result.push(Id(keys[i]));
            i = i + 1;
        }
        proof {
            assert forall|a: int, b: int|
                0 <= a < result@.len() && 0 <= b < result@.len() && a != b implies result@[a]
                != result@[b] by {
                assert(keys@[a] != keys@[b]);
            }
            assert forall|id: Id| result@.contains(id) <==> self.indexed_resources().contains(id.0) by {
                if result@.contains(id) {
                    let j = choose|j: int| 0 <= j < result@.len() && result@[j] == id;
                    assert(keys@.contains(keys@[j]));
                }
                if self.indexed_resources().contains(id.0) {
                    assert(keys@.contains(id.0));
                    let j = choose|j: int| 0 <= j < keys@.len() && keys@[j] == id.0;
                    assert(result@[j] == id);
                }
            }
            assert forall|k: usize, id: Id| #[trigger] mentions(self@, k, id) implies result@.contains(
                id,
            ) by {
                let t = fact_triple(self@[k]);
                let pos: int = if t.0 == id {
                    0
                } else if t.1 == id {
                    1
                } else {
                    2
                };
                assert(component(t, pos) == id);
                assert(resource_map_entries(self.resources).contains_key(component(t, pos).0));
            }
        }
        result
    }
}


/// A strictly increasing list of triple indexes and a reading position.
struct Cursor {
    items: Vec<u32>,
    pos: usize,
}

spec fn cursor_wf(c: Cursor) -> bool {
    c.pos <= c.items@.len() && strictly_increasing(c.items@)
}

/// Indexes not read yet.
spec fn cursor_rest(c: Cursor) -> Set<u32> {
    Set::new(|x: u32| exists|t: int| c.pos <= t < c.items@.len() && c.items@[t] == x)
}

/// Number of indexes not read yet.
spec fn cursor_left(c: Cursor) -> nat {
    (c.items@.len() - c.pos) as nat
}

/// Whether `x` lies below the candidate (never, without a candidate).
spec fn below(candidate: Option<u32>, x: u32) -> bool {
    match candidate {
        Some(j) => x < j,
        None => false,
    }
}

/// Outcome of advancing a cursor towards a candidate index.
enum Seek {
    /// The cursor holds no index at or above the candidate.
    Exhausted,
    /// The cursor holds the candidate itself.
    Agree,
    /// The cursor holds no candidate, but a greater index (or any first
    /// index when there was no candidate).
    New(u32),
}

/// Reads the cursor up to the first index not below `candidate`.
fn seek(c: &mut Cursor, candidate: Option<u32>) -> (r: Seek)
    requires
        cursor_wf(*old(c)),
    ensures
        cursor_wf(*final(c)),
        final(c).items@ == old(c).items@,
        old(c).pos <= final(c).pos,
        match r {
            Seek::Exhausted => final(c).pos == final(c).items@.len() && forall|t: int|
                old(c).pos <= t < final(c).pos ==> below(candidate, #[trigger] final(c).items@[t]),
            Seek::Agree => candidate matches Some(j) && final(c).pos > old(c).pos && final(c).items@[final(c).pos - 1]
                == j && forall|t: int|
                old(c).pos <= t < final(c).pos - 1 ==> #[trigger] final(c).items@[t] < j,
            Seek::New(i) => final(c).pos > old(c).pos && final(c).items@[final(c).pos - 1] == i
                && match candidate {
                None => final(c).pos == old(c).pos + 1,
                Some(j) => i > j && forall|t: int|
                    old(c).pos <= t < final(c).pos - 1 ==> #[trigger] final(c).items@[t] < j,
            },
        },
{
    loop
        invariant
            cursor_wf(*c),
            c.items@ == old(c).items@,
            old(c).pos <= c.pos,
            candidate is None ==> c.pos == old(c).pos,
            forall|t: int| old(c).pos <= t < c.pos ==> below(candidate, #[trigger] c.items@[t]),
        decreases c.items@.len() - c.pos,
    {
        if c.pos >= c.items.len() {
            return Seek::Exhausted;
        }
        let i = c.items[c.pos];
        c.pos = c.pos + 1;
        match candidate {
            Some(j) => {
                if i >= j {
                    if i > j {
                        return Seek::New(i);
                    } else {
                        return Seek::Agree;
                    }
                }
            },
            None => {
                return Seek::New(i);
            },
        }
    }
}

/// The index lists of the given components of a pattern (subject,
/// predicate, object); `None` where the component is not constrained.
struct Lists {
    s: Option<Cursor>,
    p: Option<Cursor>,
    o: Option<Cursor>,
}

spec fn opt_cursor_wf(c: Option<Cursor>) -> bool {
    match c {
        Some(c) => cursor_wf(c),
        None => true,
    }
}

spec fn opt_cursor_has(c: Option<Cursor>, x: u32) -> bool {
    match c {
        Some(c) => cursor_rest(c).contains(x),
        None => true,
    }
}

spec fn opt_cursor_left(c: Option<Cursor>) -> nat {
    match c {
        Some(c) => cursor_left(c),
        None => 0,
    }
}

spec fn lists_wf(l: Lists) -> bool {
    &&& opt_cursor_wf(l.s)
    &&& opt_cursor_wf(l.p)
    &&& opt_cursor_wf(l.o)
    &&& (l.s is Some || l.p is Some || l.o is Some)
}

/// Whether `x` is left in every list.
spec fn in_all(l: Lists, x: u32) -> bool {
    opt_cursor_has(l.s, x) && opt_cursor_has(l.p, x) && opt_cursor_has(l.o, x)
}

spec fn lists_left(l: Lists) -> nat {
    opt_cursor_left(l.s) + opt_cursor_left(l.p) + opt_cursor_left(l.o)
}

/// How many steps back from state `s` the list `k` was last visited
/// (both in 0..3).
spec fn back(s: int, k: int) -> int {
    if k < s {
        s - 1 - k
    } else {
        s + 2 - k
    }
}

/// What reading a list in an intersection step did, from the cursor `o` at
/// the start of the step to the cursor `n`: everything read is at most the
/// candidate; a list that agreed last read the candidate itself, and any
/// other list only read indexes below it.
spec fn progress(o: Option<Cursor>, n: Option<Cursor>, agreed: bool, candidate: Option<u32>) -> bool {
    match (o, n) {
        (None, None) => true,
        (Some(o), Some(n)) => {
            &&& n.items@ == o.items@
            &&& o.pos <= n.pos
            &&& cursor_wf(n)
            &&& match candidate {
                None => n.pos == o.pos && !agreed,
                Some(c) => {
                    &&& forall|t: int| o.pos <= t < n.pos ==> #[trigger] n.items@[t] <= c
                    &&& agreed ==> n.pos > o.pos && n.items@[n.pos - 1] == c
                    &&& !agreed ==> forall|t: int| o.pos <= t < n.pos ==> #[trigger] n.items@[t] < c
                },
            }
        },
        _ => false,
    }
}

spec fn all_progress(o: Lists, n: Lists, s: int, count: int, candidate: Option<u32>) -> bool {
    &&& progress(o.s, n.s, back(s, 0) < count, candidate)
    &&& progress(o.p, n.p, back(s, 1) < count, candidate)
    &&& progress(o.o, n.o, back(s, 2) < count, candidate)
}

/// A list that agreed on `c` at the end of the step: `c` was left in it at
/// the start, and what is left now is what was left above `c`.
proof fn lemma_agreed(o: Option<Cursor>, n: Option<Cursor>, c: u32)
    requires
        progress(o, n, true, Some(c)),
    ensures
        opt_cursor_has(o, c),
        forall|x: u32| opt_cursor_has(n, x) <==> opt_cursor_has(o, x) && (o is None || x > c),
        opt_cursor_left(n) < opt_cursor_left(o) || o is None,
{
    if let (Some(o), Some(n)) = (o, n) {
        assert(cursor_rest(o).contains(c)) by {
            assert(n.items@[n.pos - 1] == c);
        }
        assert forall|x: u32| cursor_rest(n).contains(x) <==> cursor_rest(o).contains(x) && x > c by {
            if cursor_rest(n).contains(x) {
                let t = choose|t: int| n.pos <= t < n.items@.len() && n.items@[t] == x;
                assert(n.items@[n.pos - 1] < n.items@[t]);
            }
            if cursor_rest(o).contains(x) && x > c {
                let t = choose|t: int| o.pos <= t < o.items@.len() && o.items@[t] == x;
                if t < n.pos {
                    assert(n.items@[t] <= c);
                }
            }
        }
    }
}

/// A list read to its end without meeting the candidate: nothing left at
/// the start of the step was at or above the candidate.
proof fn lemma_exhausted(o: Cursor, b: Cursor, n: Cursor, candidate: Option<u32>, x: u32)
    requires
        progress(Some(o), Some(b), false, candidate),
        n.items@ == b.items@,
        b.pos <= n.pos,
        n.pos == n.items@.len(),
        forall|t: int| b.pos <= t < n.pos ==> below(candidate, #[trigger] n.items@[t]),
        match candidate {
            Some(c) => c <= x,
            None => true,
        },
    ensures
        !cursor_rest(o).contains(x),
{
    if cursor_rest(o).contains(x) {
        let t = choose|t: int| o.pos <= t < o.items@.len() && o.items@[t] == x;
        if t < b.pos {
            assert(b.items@[t] < x);
        } else {
            assert(below(candidate, n.items@[t]));
        }
    }
}

enum Step {
    Skip,
    Seek(Seek),
}

impl Lists {
    spec fn list(self, k: int) -> Option<Cursor> {
        if k == 0 {
            self.s
        } else if k == 1 {
            self.p
        } else {
            self.o
        }
    }

    /// Advances list `k` towards the candidate.
    fn step(&mut self, k: usize, candidate: Option<u32>) -> (r: Step)
        requires
            k < 3,
            opt_cursor_wf(old(self).list(k as int)),
        ensures
            forall|q: int| 0 <= q < 3 && q != k ==> final(self).list(q) == old(self).list(q),
            match r {
                Step::Skip => old(self).list(k as int) is None && final(self).list(k as int) is None,
                Step::Seek(seek) => old(self).list(k as int) matches Some(oc) && final(self).list(k as int) matches Some(nc) && {
                    &&& cursor_wf(nc)
                    &&& nc.items@ == oc.items@
                    &&& oc.pos <= nc.pos
                    &&& match seek {
                        Seek::Exhausted => nc.pos == nc.items@.len() && forall|t: int|
                            oc.pos <= t < nc.pos ==> below(candidate, #[trigger] nc.items@[t]),
                        Seek::Agree => candidate matches Some(j) && nc.pos > oc.pos && nc.items@[nc.pos - 1] == j
                            && forall|t: int| oc.pos <= t < nc.pos - 1 ==> #[trigger] nc.items@[t] < j,
                        Seek::New(i) => nc.pos > oc.pos && nc.items@[nc.pos - 1] == i && match candidate {
                            None => nc.pos == oc.pos + 1,
                            Some(j) => i > j && forall|t: int|
                                oc.pos <= t < nc.pos - 1 ==> #[trigger] nc.items@[t] < j,
                        },
                    }
                },
            },
    {
        let cursor = if k == 0 {
            &mut self.s
        } else if k == 1 {
            &mut self.p
        } else {
            &mut self.o
        };
        match cursor {
            Some(c) => Step::Seek(seek(c, candidate)),
            None => Step::Skip,
        }
    }
}

/// Same lists, read up to possibly different positions.
spec fn same_lists(a: Lists, b: Lists) -> bool {
    &&& (a.s is Some <==> b.s is Some) && (a.s is Some ==> a.s->0.items@ == b.s->0.items@)
    &&& (a.p is Some <==> b.p is Some) && (a.p is Some ==> a.p->0.items@ == b.p->0.items@)
    &&& (a.o is Some <==> b.o is Some) && (a.o is Some ==> a.o->0.items@ == b.o->0.items@)
}

/// Next index left in every list (the smallest one), read off the lists
/// in turn until they all agree on it.
#[verifier::spinoff_prover]
#[verifier::rlimit(40)]
fn next_common(lists: &mut Lists) -> (r: Option<u32>)
    requires
        lists_wf(*old(lists)),
    ensures
        lists_wf(*final(lists)),
        same_lists(*old(lists), *final(lists)),
        match r {
            Some(c) => {
                &&& in_all(*old(lists), c)
                &&& forall|x: u32| #[trigger] in_all(*old(lists), x) ==> c <= x
                &&& forall|x: u32| #[trigger] in_all(*final(lists), x) <==> in_all(*old(lists), x) && x != c
                &&& lists_left(*final(lists)) < lists_left(*old(lists))
            },
            None => (forall|x: u32| !#[trigger] in_all(*old(lists), x)) && (forall|x: u32|
                !#[trigger] in_all(*final(lists), x)),
        },
        lists_left(*final(lists)) <= lists_left(*old(lists)),
{
    let ghost start = *lists;
    let mut state: usize = 0;
    let mut candidate: Option<u32> = None;
    let mut count: usize = 0;
    while count < 3
        invariant
            state < 3,
            count <= 3,
            lists_wf(start),
            all_progress(start, *lists, state as int, count as int, candidate),
            candidate matches Some(c) ==> forall|x: u32| #[trigger] in_all(start, x) ==> c <= x,
            start == *old(lists),
        decreases lists_left(*lists), 3 - count,
    {
        let ghost before = *lists;
        let ghost k = state as int;
        let step = lists.step(state, candidate);
        match step {
            Step::Skip => {},
            Step::Seek(Seek::Exhausted) => {
                proof {
                    assert(back(k, k) == 2);
                    assert(progress(start.list(k), before.list(k), false, candidate)) by {
                        if k == 0 {
                        } else if k == 1 {
                        } else {
                        }
                    }
                    assert forall|x: u32| !#[trigger] in_all(start, x) && !#[trigger] in_all(*lists, x) by {
                        if in_all(start, x) {
                            assert(opt_cursor_has(start.list(k), x)) by {
                                if k == 0 {
                                } else if k == 1 {
                                } else {
                                }
                            }
                            lemma_exhausted(
                                start.list(k)->0,
                                before.list(k)->0,
                                lists.list(k)->0,
                                candidate,
                                x,
                            );
                        }
                        assert(!opt_cursor_has(lists.list(k), x));
                        if k == 0 {
                        } else if k == 1 {
                        } else {
                        }
                    }
                }
                return None;
            },
            Step::Seek(Seek::Agree) => {},
            Step::Seek(Seek::New(i)) => {
                if candidate.is_some() {
                    count = 0;
                }
                candidate = Some(i);
            },
        }
        count = count + 1;
        state = if state == 2 {
            0
        } else {
            state + 1
        };
        proof {
            assert(back(k, k) == 2);
            assert(back(state as int, k) == 0);
            assert(forall|q: int| 0 <= q < 3 && q != k ==> back(state as int, q) == back(k, q) + 1);
            assert(lists.list(k) == lists.list(k));
            if k == 0 {
                assert(lists.list(1) == before.list(1) && lists.list(2) == before.list(2));
            } else if k == 1 {
                assert(lists.list(0) == before.list(0) && lists.list(2) == before.list(2));
            } else {
                assert(lists.list(0) == before.list(0) && lists.list(1) == before.list(1));
            }
        }
    }
    proof {
        assert(back(state as int, 0) < 3 && back(state as int, 1) < 3 && back(state as int, 2) < 3);
        if let Some(c) = candidate {
            lemma_agreed(start.s, lists.s, c);
            lemma_agreed(start.p, lists.p, c);
            lemma_agreed(start.o, lists.o, c);
        }
    }
    candidate
}

/// Candidate indexes of a matching, before the constraints that the
/// indexes do not decide are checked.
enum InnerMatching {
    /// No fact can match.
    Empty,
    /// Every fact of the graph, by increasing index.
    All(Cursor),
    /// The facts in the index of every given component.
    Constrained(Lists),
}

spec fn inner_wf(m: InnerMatching) -> bool {
    match m {
        InnerMatching::Empty => true,
        InnerMatching::All(c) => cursor_wf(c),
        InnerMatching::Constrained(l) => lists_wf(l),
    }
}

/// Whether `x` is a candidate index not reached yet.
spec fn inner_has(m: InnerMatching, x: u32) -> bool {
    match m {
        InnerMatching::Empty => false,
        InnerMatching::All(c) => cursor_rest(c).contains(x),
        InnerMatching::Constrained(l) => in_all(l, x),
    }
}

spec fn inner_left(m: InnerMatching) -> nat {
    match m {
        InnerMatching::Empty => 0,
        InnerMatching::All(c) => cursor_left(c),
        InnerMatching::Constrained(l) => lists_left(l),
    }
}

/// Next candidate index, in increasing order.
fn inner_next(m: &mut InnerMatching) -> (r: Option<u32>)
    requires
        inner_wf(*old(m)),
    ensures
        inner_wf(*final(m)),
        match r {
            Some(i) => {
                &&& inner_has(*old(m), i)
                &&& forall|x: u32| #[trigger] inner_has(*old(m), x) ==> i <= x
                &&& forall|x: u32| #[trigger] inner_has(*final(m), x) <==> inner_has(*old(m), x) && x != i
                &&& inner_left(*final(m)) < inner_left(*old(m))
            },
            None => (forall|x: u32| !#[trigger] inner_has(*old(m), x)) && (forall|x: u32|
                !#[trigger] inner_has(*final(m), x)),
        },
        inner_left(*final(m)) <= inner_left(*old(m)),
{
    match m {
        InnerMatching::Empty => None,
        InnerMatching::All(c) => {
            if c.pos < c.items.len() {
                let i = c.items[c.pos];
                let ghost o = *c;
                c.pos = c.pos + 1;
                proof {
                    assert(cursor_rest(o).contains(i));
                    assert forall|x: u32| cursor_rest(o).contains(x) implies i <= x by {
                        let t = choose|t: int| o.pos <= t < o.items@.len() && o.items@[t] == x;
                        if t > o.pos {
                            assert(o.items@[o.pos as int] < o.items@[t]);
                        }
                    }
                    assert forall|x: u32| cursor_rest(*c).contains(x) <==> cursor_rest(o).contains(x) && x != i by {
                        if cursor_rest(*c).contains(x) {
                            let t = choose|t: int| c.pos <= t < c.items@.len() && c.items@[t] == x;
                            assert(o.items@[o.pos as int] < o.items@[t]);
                        }
                        if cursor_rest(o).contains(x) && x != i {
                            let t = choose|t: int| o.pos <= t < o.items@.len() && o.items@[t] == x;
                            assert(t != o.pos);
                        }
                    }
                }
                Some(i)
            } else {
                None
            }
        },
        InnerMatching::Constrained(lists) => next_common(lists),
    }
}

/// What the indexes do not decide: the predicate and object constraints
/// (a component equal to another one) and the sign.
struct MatchingConstraints {
    predicate: pattern::PatternPredicate,
    object: pattern::PatternObject,
    sign: Option<Sign>,
}

spec fn constraints_hold(c: MatchingConstraints, st: Signed<Triple>) -> bool {
    &&& match c.sign {
        Some(s) => st.0 == s,
        None => true,
    }
    &&& pattern::predicate_matches(c.predicate, st.1)
    &&& pattern::object_matches(c.object, st.1)
}

impl MatchingConstraints {
    fn filter(&self, st: Signed<Triple>) -> (r: bool)
        ensures
            r == constraints_hold(*self, st),
    {
        let sign_ok = match self.sign {
            Some(s) => st.0.same_as(&s),
            None => true,
        };
        sign_ok && self.predicate.filter_triple(st.1) && self.object.filter_triple(st.1)
    }
}

/// Whether a fact matches the pattern and, if one is given, the sign.
pub open spec fn fact_matches(f: Fact, pattern: Canonical, sign: Option<Sign>) -> bool {
    &&& canonical_matches(pattern, fact_triple(f))
    &&& match sign {
        Some(s) => fact_sign(f) == s,
        None => true,
    }
}

/// Indexes of the facts of `v` that match the pattern and sign.
pub open spec fn matching_set(v: Map<usize, Fact>, pattern: Canonical, sign: Option<Sign>) -> Set<u32> {
    Set::new(|i: u32| v.contains_key(i as usize) && fact_matches(v[i as usize], pattern, sign))
}

/// The facts of a graph that match a pattern, by increasing index.
pub struct Matching<'a> {
    graph: &'a Graph,
    inner: InnerMatching,
    constraints: MatchingConstraints,
}

impl<'a> Matching<'a> {
    pub closed spec fn wf(&self) -> bool {
        &&& self.graph.wf()
        &&& inner_wf(self.inner)
        &&& forall|x: u32| #[trigger] inner_has(self.inner, x) ==> self.graph@.contains_key(x as usize)
    }

    /// The facts of the graph being searched.
    pub closed spec fn graph(&self) -> Map<usize, Fact> {
        self.graph@
    }

    /// A bound on the work left: it decreases with every fact yielded.
    pub closed spec fn left(&self) -> nat {
        inner_left(self.inner)
    }

    /// Indexes of the matching facts not yielded yet.
    pub closed spec fn remaining(&self) -> Set<u32> {
        Set::new(
            |x: u32|
                inner_has(self.inner, x) && constraints_hold(self.constraints, self.graph@[x as usize].0),
        )
    }

    /// Every matching fact not yielded yet, with its index: each once, by
    /// increasing index.
    pub fn into_vec(self) -> (r: Vec<(u32, &'a Fact)>)
        requires
            self.wf(),
        ensures
            forall|a: int, b: int| 0 <= a < b < r@.len() ==> r@[a].0 < r@[b].0,
            forall|x: u32| self.remaining().contains(x) <==> exists|a: int| 0 <= a < r@.len() && (#[trigger] r@[a]).0 == x,
            forall|a: int| 0 <= a < r@.len() ==> *(#[trigger] r@[a]).1 == self.graph()[r@[a].0 as usize],
    {
        let ghost all = self.remaining();
        let ghost g = self.graph();
        let mut m = self;
        let mut r: Vec<(u32, &'a Fact)> = Vec::new();
        loop
            invariant_except_break
                m.wf(),
            invariant
                m.graph() == g,
                forall|a: int, b: int| 0 <= a < b < r@.len() ==> r@[a].0 < r@[b].0,
                forall|a: int, x: u32| 0 <= a < r@.len() && #[trigger] m.remaining().contains(x) ==> (#[trigger] r@[a]).0 < x,
                forall|x: u32| all.contains(x) <==> (m.remaining().contains(x) || exists|a: int| 0 <= a < r@.len() && (#[trigger] r@[a]).0 == x),
                forall|a: int| 0 <= a < r@.len() ==> !m.remaining().contains((#[trigger] r@[a]).0),
                forall|a: int| 0 <= a < r@.len() ==> *(#[trigger] r@[a]).1 == g[r@[a].0 as usize],
            ensures
                m.remaining() =~= Set::<u32>::empty(),
            decreases m.left(),
        {
            let ghost before = m.remaining();
            let ghost r0 = r@;
            match m.next() {
                None => break,
                Some((i, f)) => {
                    r.push((i, f));
                    proof {
                        assert forall|a: int, x: u32| 0 <= a < r@.len() && #[trigger] m.remaining().contains(x) implies (#[trigger] r@[a]).0 < x by {
                            assert(before.contains(x) && x != i);
                            if a < r0.len() {
                                assert(r@[a] == r0[a]);
                            }
                        }
                        assert forall|x: u32| all.contains(x) <==> (m.remaining().contains(x) || exists|a: int| 0 <= a < r@.len() && (#[trigger] r@[a]).0 == x) by {
                            if all.contains(x) && !m.remaining().contains(x) {
                                if x == i {
                                    assert(r@[r0.len() as int].0 == x);
                                } else {
                                    assert(!before.contains(x));
                                    let a = choose|a: int| 0 <= a < r0.len() && (#[trigger] r0[a]).0 == x;
                                    assert(r@[a] == r0[a]);
                                }
                            }
                            if exists|a: int| 0 <= a < r@.len() && (#[trigger] r@[a]).0 == x {
                                let a = choose|a: int| 0 <= a < r@.len() && (#[trigger] r@[a]).0 == x;
                                if a < r0.len() {
                                    assert(r@[a] == r0[a]);
                                    assert(exists|b: int| 0 <= b < r0.len() && (#[trigger] r0[b]).0 == x);
                                } else {
                                    assert(before.contains(x));
                                }
                            }
                        }
                        assert forall|a: int| 0 <= a < r@.len() implies !m.remaining().contains((#[trigger] r@[a]).0) by {
                            if a < r0.len() {
                                assert(r@[a] == r0[a]);
                            }
                        }
                        assert forall|a: int, b: int| 0 <= a < b < r@.len() implies r@[a].0 < r@[b].0 by {
                            if b == r0.len() {
                                assert(r@[a] == r0[a]);
                                assert(before.contains(i));
                            } else {
                                assert(r@[a] == r0[a] && r@[b] == r0[b]);
                            }
                        }
                        assert forall|a: int| 0 <= a < r@.len() implies *(#[trigger] r@[a]).1 == g[r@[a].0 as usize] by {
                            if a < r0.len() {
                                assert(r@[a] == r0[a]);
                            }
                        }
                    }
                },
            }
        }
        r
    }

    /// The matching fact of smallest index not yielded yet.
    pub fn next(&mut self) -> (r: Option<(u32, &'a Fact)>)
        requires
            old(self).wf(),
        ensures
            final(self).wf(),
            final(self).graph() == old(self).graph(),
            match r {
                Some((i, f)) => {
                    &&& old(self).remaining().contains(i)
                    &&& forall|x: u32| #[trigger] old(self).remaining().contains(x) ==> i <= x
                    &&& final(self).remaining() == old(self).remaining().remove(i)
                    &&& old(self).graph().contains_key(i as usize)
                    &&& *f == old(self).graph()[i as usize]
                    &&& final(self).left() < old(self).left()
                },
                None => old(self).remaining() =~= Set::<u32>::empty() && final(self).remaining()
                    =~= Set::<u32>::empty(),
            },
            final(self).left() <= old(self).left(),
    {
        let graph: &'a Graph = self.graph;
        loop
            invariant
                self.wf(),
                self.graph == graph,
                self.graph() == old(self).graph(),
                self.remaining() == old(self).remaining(),
                inner_left(self.inner) <= inner_left(old(self).inner),
            decreases inner_left(self.inner),
        {
            let ghost before = self.inner;
            match inner_next(&mut self.inner) {
                Some(i) => {
                    let f = graph.get(i as usize).unwrap();
                    if self.constraints.filter(f.0) {
                        proof {
                            assert(self.remaining() =~= old(self).remaining().remove(i)) by {
                                assert(old(self).remaining().contains(i));
                            }
                            assert forall|x: u32| #[trigger] old(self).remaining().contains(x) implies i <= x by {
                                assert(inner_has(before, x));
                            }
                        }
                        return Some((i, f));
                    } else {
                        proof {
                            assert(self.remaining() =~= old(self).remaining());
                        }
                    }
                },
                None => {
                    proof {
                        assert(old(self).remaining() =~= Set::<u32>::empty()) by {
                            assert forall|x: u32| !old(self).remaining().contains(x) by {
                                assert(!inner_has(before, x));
                            }
                        }
                        assert(self.remaining() =~= Set::<u32>::empty());
                    }
                    return None;
                },
            }
        }
    }
}

impl Graph {
    /// Every fact index, in increasing order.
    fn all_indexes(&self) -> (r: Vec<u32>)
        requires
            self.wf(),
        ensures
            strictly_increasing(r@),
            forall|x: u32| r@.contains(x) <==> self@.contains_key(x as usize),
    {
        let keys = fact_slab_keys(&self.facts);
        let mut out: Vec<u32> = Vec::new();
        let mut j: usize = 0;
        while j < keys.len()
            invariant
                self.wf(),
                j <= keys@.len(),
                out@.len() == j,
                forall|t: int| 0 <= t < j ==> #[trigger] out@[t] as int == keys@[t] as int,
                forall|a: int, b: int| 0 <= a < b < keys@.len() ==> keys@[a] < keys@[b],
                forall|k: usize| self@.contains_key(k) <==> keys@.contains(k),
            decreases keys@.len() - j,
        {
            proof {
                assert(keys@.contains(keys@[j as int]));
            }
            out.push(keys[j] as u32);
            j = j + 1;
        }
        proof {
            assert forall|x: u32| out@.contains(x) <==> self@.contains_key(x as usize) by {
                if out@.contains(x) {
                    let t = choose|t: int| 0 <= t < out@.len() && out@[t] == x;
                    assert(keys@.contains(keys@[t]));
                }
                if self@.contains_key(x as usize) {
                    assert(keys@.contains(x as usize));
                    let t = choose|t: int| 0 <= t < keys@.len() && keys@[t] == x as usize;
                    assert(out@[t] == x);
                }
            }
        }
        out
    }

    /// The index list of the given component, if any: `None` when the
    /// component is given but the resource is in no index, `Some(None)`
    /// when the component is not given.
    fn component_list(&self, id: Option<Id>, pos: usize) -> (r: Option<Option<Cursor>>)
        requires
            self.wf(),
            pos < 3,
        ensures
            match id {
                None => r matches Some(l) && l is None,
                Some(id) => match r {
                    None => indexes_at(self@, id, pos as int) =~= Set::<u32>::empty(),
                    Some(None) => false,
                    Some(Some(c)) => cursor_wf(c) && forall|x: u32|
                        #[trigger] cursor_rest(c).contains(x) <==> indexes_at(self@, id, pos as int).contains(x),
                },
            },
    {
        match id {
            None => Some(None),
            Some(id) => match self.get_resource(id) {
                None => None,
                Some(res) => {
                    let items = res.iter_at(pos);
                    let c = Cursor { items, pos: 0 };
                    proof {
                        assert forall|x: u32| #[trigger] cursor_rest(c).contains(x) <==> items@.contains(x) by {
                            if items@.contains(x) {
                                let t = choose|t: int| 0 <= t < items@.len() && items@[t] == x;
                                assert(c.items@[t] == x);
                            }
                        }
                        assert(index_of(*res, pos as int) == indexes_at(self@, id, pos as int));
                        assert forall|x: u32| items@.contains(x) <==> items@.to_set().contains(x) by {}
                    }
                    Some(Some(c))
                },
            },
        }
    }

    /// The facts matching the pattern and, if one is given, the sign.
    pub fn full_matching(&self, pattern: Canonical, sign: Option<Sign>) -> (m: Matching<'_>)
        requires
            self.wf(),
        ensures
            m.wf(),
            m.graph() == self@,
            m.remaining() == matching_set(self@, pattern, sign),
    {
        let s = pattern.subject_id();
        let p = pattern.predicate_constraint().into_id();
        let o = pattern.object_constraint().into_id();
        let inner = if s.is_none() && p.is_none() && o.is_none() {
            InnerMatching::All(Cursor { items: self.all_indexes(), pos: 0 })
        } else {
            match self.component_list(s, 0) {
                None => InnerMatching::Empty,
                Some(sl) => match self.component_list(p, 1) {
                    None => InnerMatching::Empty,
                    Some(pl) => match self.component_list(o, 2) {
                        None => InnerMatching::Empty,
                        Some(ol) => InnerMatching::Constrained(Lists { s: sl, p: pl, o: ol }),
                    },
                },
            }
        };
        let m = Matching {
            graph: self,
            inner,
            constraints: MatchingConstraints {
                predicate: pattern.predicate_constraint(),
                object: pattern.object_constraint(),
                sign,
            },
        };
        proof {
            let v = self@;
            let gi = m.inner;
            match gi {
                InnerMatching::All(c) => {
                    assert forall|x: u32| #[trigger] cursor_rest(c).contains(x) <==> v.contains_key(x as usize) by {
                        if cursor_rest(c).contains(x) {
                            let t = choose|t: int| c.pos <= t < c.items@.len() && c.items@[t] == x;
                            assert(c.items@.contains(x));
                        }
                        if v.contains_key(x as usize) {
                            assert(c.items@.contains(x));
                            let t = choose|t: int| 0 <= t < c.items@.len() && c.items@[t] == x;
                            assert(c.pos <= t);
                        }
                    }
                },
                _ => {},
            }
            assert forall|x: u32| #[trigger] inner_has(m.inner, x) implies v.contains_key(x as usize) by {
                if let InnerMatching::Constrained(l) = gi {
                    if s.is_some() {
                        assert(indexes_at(v, s->0, 0).contains(x));
                    } else if p.is_some() {
                        assert(indexes_at(v, p->0, 1).contains(x));
                    } else {
                        assert(indexes_at(v, o->0, 2).contains(x));
                    }
                }
            }
            assert forall|x: u32| #[trigger] m.remaining().contains(x) <==> matching_set(v, pattern, sign).contains(x) by {
                if let InnerMatching::Constrained(l) = gi {
                    if s.is_some() {
                        assert(indexes_at(v, s->0, 0).contains(x) <==> in_all(Lists { s: l.s, p: None, o: None }, x));
                    }
                    if p.is_some() {
                        assert(indexes_at(v, p->0, 1).contains(x) <==> in_all(Lists { s: None, p: l.p, o: None }, x));
                    }
                    if o.is_some() {
                        assert(indexes_at(v, o->0, 2).contains(x) <==> in_all(Lists { s: None, p: None, o: l.o }, x));
                    }
                }
                if matching_set(v, pattern, sign).contains(x) {
                    if let InnerMatching::Empty = gi {
                        if s.is_some() && !indexes_at(v, s->0, 0).contains(x) {
                        } else if p.is_some() && !indexes_at(v, p->0, 1).contains(x) {
                        } else {
                            assert(o.is_some() && !indexes_at(v, o->0, 2).contains(x));
                        }
                    }
                }
            }
            assert(m.remaining() =~= matching_set(v, pattern, sign));
        }
        m
    }
}

impl Graph {
    /// Records index `i` in the index at `pos` of resource `id`.
    fn add_index(&mut self, id: Id, pos: usize, i: u32)
        requires
            pos < 3,
        ensures
            final(self).facts == old(self).facts,
            resource_map_entries(final(self).resources).dom() == resource_map_entries(
                old(self).resources,
            ).dom().insert(id.0),
            forall|id2: u32, q: int|
                0 <= q < 3 ==> #[trigger] resource_index(resource_map_entries(final(self).resources), id2, q)
                    == if id2 == id.0 && q == pos {
                    resource_index(resource_map_entries(old(self).resources), id2, q).insert(i)
                } else {
                    resource_index(resource_map_entries(old(self).resources), id2, q)
                },
    {
        let mut r = match resource_map_remove(&mut self.resources, id.0) {
            Some(r) => r,
            None => Resource::new(),
        };
        r.insert_at(pos, i);
        resource_map_insert(&mut self.resources, id.0, r);
        proof {
            assert(resource_map_entries(self.resources).dom() =~= resource_map_entries(
                old(self).resources,
            ).dom().insert(id.0));
        }
    }

    /// Removes index `i` from the index at `pos` of resource `id`.
    fn remove_index(&mut self, id: Id, pos: usize, i: u32)
        requires
            pos < 3,
        ensures
            final(self).facts == old(self).facts,
            resource_map_entries(final(self).resources).dom() == resource_map_entries(
                old(self).resources,
            ).dom(),
            forall|id2: u32, q: int|
                0 <= q < 3 ==> #[trigger] resource_index(resource_map_entries(final(self).resources), id2, q)
                    == if id2 == id.0 && q == pos {
                    resource_index(resource_map_entries(old(self).resources), id2, q).remove(i)
                } else {
                    resource_index(resource_map_entries(old(self).resources), id2, q)
                },
    {
        match resource_map_remove(&mut self.resources, id.0) {
            Some(mut r) => {
                r.remove_at(pos, i);
                resource_map_insert(&mut self.resources, id.0, r);
                proof {
                    assert(resource_map_entries(self.resources).dom() =~= resource_map_entries(
                        old(self).resources,
                    ).dom());
                }
            },
            None => {
                proof {
                    assert(resource_map_entries(self.resources) =~= resource_map_entries(old(self).resources));
                }
            },
        }
    }

    /// The facts matching the pattern.
    pub fn matching(&self, pattern: Canonical) -> (m: Matching<'_>)
        requires
            self.wf(),
        ensures
            m.wf(),
            m.graph() == self@,
            m.remaining() == matching_set(self@, pattern, None),
    {
        self.full_matching(pattern, None)
    }

    /// The facts matching the pattern with the given sign.
    pub fn signed_matching(&self, pattern: Signed<Canonical>) -> (m: Matching<'_>)
        requires
            self.wf(),
        ensures
            m.wf(),
            m.graph() == self@,
            m.remaining() == matching_set(self@, pattern.1, Some(pattern.0)),
    {
        self.full_matching(pattern.1, Some(pattern.0))
    }

    /// The fact holding the given triple, with its index, if any.
    pub fn find_triple(&self, triple: Triple) -> (r: Option<(u32, &Fact)>)
        requires
            self.wf(),
        ensures
            match r {
                Some((i, f)) => has_triple_at(self@, i as usize, triple) && *f == self@[i as usize],
                None => !has_triple(self@, triple),
            },
    {
        let pattern = Canonical::from_triple(triple.0, triple.1, triple.2);
        let mut m = self.matching(pattern);
        let r = m.next();
        proof {
            if r is None && has_triple(self@, triple) {
                let k = choose|k: usize| has_triple_at(self@, k, triple);
                assert(matching_set(self@, pattern, None).contains(k as u32));
            }
        }
        r
    }

    /// Whether the graph holds the triple with the given sign.
    pub fn contains(&self, triple: Triple, sign: Sign) -> (r: bool)
        requires
            self.wf(),
        ensures
            r <==> exists|k: usize| has_triple_at(self@, k, triple) && fact_sign(self@[k]) == sign,
    {
        match self.find_triple(triple) {
            Some((_, f)) => f.0.0.same_as(&sign),
            None => false,
        }
    }
}

/// Outcome of inserting `fact` into `before`, giving `after`, the triple
/// of the fact being at index `i` and `added` telling whether the fact is
/// new.
pub open spec fn inserted(before: Map<usize, Fact>, after: Map<usize, Fact>, fact: Fact, i: u32, added: bool) -> bool {
    if added {
        &&& !has_triple(before, fact_triple(fact))
        &&& !before.contains_key(i as usize)
        &&& after == before.insert(i as usize, fact)
    } else {
        &&& has_triple_at(before, i as usize, fact_triple(fact))
        &&& fact_sign(before[i as usize]) == fact_sign(fact)
        &&& after == before
    }
}

/// Outcome of inserting `fact` into `before` when the triple `t` is held
/// with the other sign: nothing changes.
pub open spec fn contradicted(before: Map<usize, Fact>, after: Map<usize, Fact>, fact: Fact, t: Triple) -> bool {
    &&& t == fact_triple(fact)
    &&& after == before
    &&& exists|k: usize| has_triple_at(before, k, fact_triple(fact)) && fact_sign(before[k]) != fact_sign(fact)
}

impl Graph {
    /// Inserts a fact, unless its triple is already in the graph: with the
    /// same sign, nothing changes; with the other sign, the triple is a
    /// contradiction. Returns the index of the triple and whether the fact
    /// was added.
    pub fn insert(&mut self, fact: Fact) -> (r: Result<(u32, bool), Contradiction>)
        requires
            old(self).wf(),
            old(self)@.len() < u32::MAX,
        ensures
            final(self).wf(),
            final(self)@.len() <= old(self)@.len() + 1,
            r matches Ok((_, true)) ==> final(self)@.len() == old(self)@.len() + 1,
            r matches Ok((i, true)) ==> (i == old(self).slots() <==> old(self)@.len() == old(self).slots()),
            r matches Ok((_, true)) ==> final(self).slots() == (if old(self)@.len() == old(self).slots() {
                old(self).slots() + 1
            } else {
                old(self).slots()
            }),
            !(r matches Ok((_, true))) ==> final(self).slots() == old(self).slots(),
            match r {
                Ok((i, added)) => inserted(old(self)@, final(self)@, fact, i, added),
                Err(c) => contradicted(old(self)@, final(self)@, fact, c.0),
            },
    {
        let triple = fact.0.1;
        let found = match self.find_triple(triple) {
            Some((i, f)) => Some((i, f.0.0)),
            None => None,
        };
        match found {
            Some((i, sign)) => {
                proof {
                    assert(has_triple_at(self@, i as usize, triple) && fact_sign(self@[i as usize]) == sign);
                }
                if sign.same_as(&fact.0.0) {
                    Ok((i, false))
                } else {
                    proof {
                        let k = i as usize;
                        assert(has_triple_at(old(self)@, k, fact_triple(fact)) && fact_sign(old(self)@[k]) != fact_sign(fact));
                    }
                    Err(Contradiction(triple))
                }
            },
            None => {
                let ghost r0 = resource_map_entries(self.resources);
                let key = fact_slab_insert(&mut self.facts, fact);
                let i = key as u32;
                self.add_index(triple.0, 0, i);
                self.add_index(triple.1, 1, i);
                self.add_index(triple.2, 2, i);
                proof {
                    let v0 = old(self)@;
                    let v = self@;
                    let r = resource_map_entries(self.resources);
                    assert(v == v0.insert(key, fact));
                    assert(forall|id2: u32, q: int| 0 <= q < 3 ==> #[trigger] resource_index(r, id2, q)
                        == if id2 == component(triple, q).0 {
                            resource_index(r0, id2, q).insert(i)
                        } else {
                            resource_index(r0, id2, q)
                        });
                    assert forall|k: usize| #[trigger] v.contains_key(k) implies fact_indexed(r, v, k, 0) && fact_indexed(r, v, k, 1)
                        && fact_indexed(r, v, k, 2) by {
                        if k != key {
                            assert(v0.contains_key(k));
                            assert(fact_indexed(r0, v0, k, 0) && fact_indexed(r0, v0, k, 1) && fact_indexed(r0, v0, k, 2));
                        }
                    }
                    assert forall|k1: usize, k2: usize|
                        #[trigger] v.contains_key(k1) && #[trigger] v.contains_key(k2) && fact_triple(v[k1])
                            == fact_triple(v[k2]) implies k1 == k2 by {
                        if k1 == key && k2 != key {
                            assert(has_triple_at(v0, k2, triple));
                        }
                        if k2 == key && k1 != key {
                            assert(has_triple_at(v0, k1, triple));
                        }
                    }
                }
                Ok((i, true))
            },
        }
    }
}

impl Graph {
    /// Removes the fact at index `i` and its index entries.
    fn remove_at(&mut self, i: u32) -> (r: Fact)
        requires
            old(self).wf(),
            old(self)@.contains_key(i as usize),
        ensures
            final(self).wf(),
            r == old(self)@[i as usize],
            final(self)@ == old(self)@.remove(i as usize),
            final(self).indexed_resources() == old(self).indexed_resources(),
    {
        let ghost r0 = resource_map_entries(self.resources);
        let ghost v0 = self@;
        let triple = self.get(i as usize).unwrap().0.1;
        self.remove_index(triple.0, 0, i);
        self.remove_index(triple.1, 1, i);
        self.remove_index(triple.2, 2, i);
        let fact = fact_slab_try_remove(&mut self.facts, i as usize).unwrap();
        proof {
            let v = self@;
            let r = resource_map_entries(self.resources);
            assert(v == v0.remove(i as usize));
            assert(forall|id2: u32, q: int| 0 <= q < 3 ==> #[trigger] resource_index(r, id2, q)
                == if id2 == component(triple, q).0 {
                    resource_index(r0, id2, q).remove(i)
                } else {
                    resource_index(r0, id2, q)
                });
            assert forall|k: usize| #[trigger] v.contains_key(k) implies fact_indexed(r, v, k, 0) && fact_indexed(r, v, k, 1)
                && fact_indexed(r, v, k, 2) by {
                assert(v0.contains_key(k));
                assert(fact_indexed(r0, v0, k, 0) && fact_indexed(r0, v0, k, 1) && fact_indexed(r0, v0, k, 2));
                assert(k as u32 != i);
            }
            assert forall|id2: u32, pos: int, k: u32|
                0 <= pos < 3 && #[trigger] resource_index(r, id2, pos).contains(k) implies v.contains_key(k as usize)
                    && component(fact_triple(v[k as usize]), pos).0 == id2 by {
                assert(resource_index(r0, id2, pos).contains(k));
            }
        }
        fact
    }

    /// Removes the fact holding the triple, if there is one and `f` accepts
    /// it.
    pub fn remove_triple_with(&mut self, triple: Triple, f: impl FnOnce(&Fact) -> bool) -> (r: Option<Fact>)
        requires
            old(self).wf(),
            forall|fact: Fact| f.requires((&fact,)),
        ensures
            final(self).wf(),
            match r {
                Some(fact) => exists|k: usize|
                    {
                        &&& has_triple_at(old(self)@, k, triple)
                        &&& fact == old(self)@[k]
                        &&& f.ensures((&fact,), true)
                        &&& final(self)@ == old(self)@.remove(k)
                    },
                None => final(self)@ == old(self)@ && forall|k: usize|
                    has_triple_at(old(self)@, k, triple) ==> f.ensures((&old(self)@[k],), false),
            },
    {
        let found = match self.find_triple(triple) {
            Some((i, fact)) => {
                if f(fact) {
                    Some(i)
                } else {
                    None
                }
            },
            None => None,
        };
        match found {
            Some(i) => {
                let fact = self.remove_at(i);
                Some(fact)
            },
            None => None,
        }
    }
}

impl Graph {
    /// Removes the fact holding the triple, if any.
    pub fn remove_triple(&mut self, triple: Triple) -> (r: Option<Fact>)
        requires
            old(self).wf(),
        ensures
            final(self).wf(),
            match r {
                Some(fact) => exists|k: usize|
                    has_triple_at(old(self)@, k, triple) && fact == old(self)@[k] && final(self)@ == old(
                        self,
                    )@.remove(k),
                None => final(self)@ == old(self)@ && !has_triple(old(self)@, triple),
            },
    {
        let accept = |_fact: &Fact| -> (b: bool)
            ensures
                b,
            { true };
        self.remove_triple_with(triple, accept)
    }

    /// Removes the fact holding the triple, if it is positive.
    pub fn remove_positive_triple(&mut self, triple: Triple) -> (r: Option<Fact>)
        requires
            old(self).wf(),
        ensures
            final(self).wf(),
            match r {
                Some(fact) => exists|k: usize|
                    has_triple_at(old(self)@, k, triple) && fact == old(self)@[k] && fact_sign(fact)
                        == Sign::Positive && final(self)@ == old(self)@.remove(k),
                None => final(self)@ == old(self)@ && forall|k: usize|
                    has_triple_at(old(self)@, k, triple) ==> fact_sign(old(self)@[k]) == Sign::Negative,
            },
    {
        let accept = |fact: &Fact| -> (b: bool)
            ensures
                b == (fact.0.0 == Sign::Positive),
            { fact.0.is_positive() };
        self.remove_triple_with(triple, accept)
    }

    /// Removes the fact holding the triple, if it is negative.
    pub fn remove_negative_triple(&mut self, triple: Triple) -> (r: Option<Fact>)
        requires
            old(self).wf(),
        ensures
            final(self).wf(),
            match r {
                Some(fact) => exists|k: usize|
                    has_triple_at(old(self)@, k, triple) && fact == old(self)@[k] && fact_sign(fact)
                        == Sign::Negative && final(self)@ == old(self)@.remove(k),
                None => final(self)@ == old(self)@ && forall|k: usize|
                    has_triple_at(old(self)@, k, triple) ==> fact_sign(old(self)@[k]) == Sign::Positive,
            },
    {
        let accept = |fact: &Fact| -> (b: bool)
            ensures
                b == (fact.0.0 == Sign::Negative),
            { fact.0.is_negative() };
        self.remove_triple_with(triple, accept)
    }
}

/// Indexes of the facts of `v` that mention resource `id`.
pub open spec fn mentioning(v: Map<usize, Fact>, id: Id) -> Set<usize> {
    Set::new(|k: usize| mentions(v, k, id))
}

impl Graph {
    /// Removes every fact mentioning the resource, and its index entry;
    /// the index entries of the other resources mentioned by those facts
    /// drop them too, so that every index entry keeps naming a fact of the
    /// graph with that resource in that position. Returns the removed facts: those with the resource as subject, by
    /// increasing index, then those with it as predicate, then as object.
    pub fn remove_resource(&mut self, id: Id) -> (r: Vec<Fact>)
        requires
            old(self).wf(),
        ensures
            final(self).wf(),
            final(self)@ == old(self)@.remove_keys(mentioning(old(self)@, id)),
            final(self).indexed_resources() == old(self).indexed_resources().remove(id.0),
            final(self)@.len() + r@.len() == old(self)@.len(),
            exists|keys: Seq<usize>|
                {
                    &&& keys.no_duplicates()
                    &&& keys.to_set() == mentioning(old(self)@, id)
                    &&& r@.len() == keys.len()
                    &&& forall|t: int| 0 <= t < keys.len() ==> #[trigger] r@[t] == old(self)@[keys[t]]
                },
    {
        let ghost v0 = self@;
        let mut all: Vec<u32> = Vec::new();
        match self.get_resource(id) {
            Some(res) => {
                let mut sl = res.iter_as_subject();
                let mut pl = res.iter_as_predicate();
                let mut ol = res.iter_as_object();
                let ghost (s0, p0, o0) = (sl@, pl@, ol@);
                all.append(&mut sl);
                all.append(&mut pl);
                all.append(&mut ol);
                proof {
                    assert forall|x: u32| all@.contains(x) <==> indexes_at(v0, id, 0).contains(x)
                        || indexes_at(v0, id, 1).contains(x) || indexes_at(v0, id, 2).contains(x) by {
                        assert(s0.to_set().contains(x) <==> s0.contains(x));
                        assert(p0.to_set().contains(x) <==> p0.contains(x));
                        assert(o0.to_set().contains(x) <==> o0.contains(x));
                        if all@.contains(x) {
                            let t = choose|t: int| 0 <= t < all@.len() && all@[t] == x;
                            if t < s0.len() {
                                assert(s0[t] == x);
                            } else if t < s0.len() + p0.len() {
                                assert(p0[t - s0.len()] == x);
                            } else {
                                assert(o0[t - s0.len() - p0.len()] == x);
                            }
                        }
                        if s0.contains(x) {
                            let t = choose|t: int| 0 <= t < s0.len() && s0[t] == x;
                            assert(all@[t] == x);
                        }
                        if p0.contains(x) {
                            let t = choose|t: int| 0 <= t < p0.len() && p0[t] == x;
                            assert(all@[t + s0.len()] == x);
                        }
                        if o0.contains(x) {
                            let t = choose|t: int| 0 <= t < o0.len() && o0[t] == x;
                            assert(all@[t + s0.len() + p0.len()] == x);
                        }
                    }
                }
            },
            None => {},
        }
        proof {
            assert forall|k: usize| mentions(v0, k, id) implies all@.contains(k as u32) by {
                let t = fact_triple(v0[k]);
                let pos: int = if t.0 == id {
                    0
                } else if t.1 == id {
                    1
                } else {
                    2
                };
                assert(component(t, pos) == id);
                assert(k < u32::MAX);
                assert(indexes_at(v0, id, pos).contains(k as u32));
            }
        }
        let mut out: Vec<Fact> = Vec::new();
        let ghost mut keys: Seq<usize> = Seq::empty();
        let mut j: usize = 0;
        while j < all.len()
            invariant
                self.wf(),
                j <= all@.len(),
                forall|x: u32| #[trigger] all@.contains(x) ==> v0.contains_key(x as usize) && mentions(v0, x as usize, id),
                forall|k: usize| mentions(v0, k, id) ==> all@.contains(k as u32),
                keys.no_duplicates(),
                out@.len() == keys.len(),
                forall|t: int| 0 <= t < keys.len() ==> #[trigger] out@[t] == v0[keys[t]],
                forall|t: int| 0 <= t < keys.len() ==> #[trigger] mentions(v0, keys[t], id),
                self@ == v0.remove_keys(keys.to_set()),
                forall|t: int| 0 <= t < j ==> !self@.contains_key(#[trigger] all@[t] as usize),
                self.indexed_resources() == old(self).indexed_resources(),
                self@.len() + out@.len() == v0.len(),
            decreases all@.len() - j,
        {
            let i = all[j];
            if self.get(i as usize).is_some() {
                proof {
                    assert(all@.contains(i));
                }
                let ghost before = self@;
                let fact = self.remove_at(i);
                out.push(fact);
                proof {
                    before.lemma_remove_key_len(i as usize);
                    assert(!keys.contains(i as usize));
                    let old_keys = keys;
                    keys = keys.push(i as usize);
                    assert(keys.to_set() =~= old_keys.to_set().insert(i as usize)) by {
                        assert forall|k: usize| keys.to_set().contains(k) implies old_keys.to_set().insert(i as usize).contains(k) by {
                            let t = choose|t: int| 0 <= t < keys.len() && keys[t] == k;
                            if t < old_keys.len() {
                                assert(old_keys[t] == k);
                            }
                        }
                        assert forall|k: usize| old_keys.to_set().contains(k) implies keys.to_set().contains(k) by {
                            let t = choose|t: int| 0 <= t < old_keys.len() && old_keys[t] == k;
                            assert(keys[t] == k);
                        }
                        assert(keys[keys.len() - 1] == i as usize);
                    }
                    assert(self@ =~= v0.remove_keys(keys.to_set()));
                }
            }
            j = j + 1;
        }
        let ghost r0 = resource_map_entries(self.resources);
        resource_map_remove(&mut self.resources, id.0);
        proof {
            assert(keys.to_set() =~= mentioning(v0, id)) by {
                assert forall|k: usize| mentions(v0, k, id) implies keys.to_set().contains(k) by {
                    assert(all@.contains(k as u32));
                    let t = choose|t: int| 0 <= t < all@.len() && all@[t] == k as u32;
                    assert(!self@.contains_key(all@[t] as usize));
                }
                assert forall|k: usize| keys.to_set().contains(k) implies mentions(v0, k, id) by {
                    let t = choose|t: int| 0 <= t < keys.len() && keys[t] == k;
                }
            }
            let v = self@;
            let r = resource_map_entries(self.resources);
            assert forall|k: usize| #[trigger] v.contains_key(k) implies fact_indexed(r, v, k, 0) && fact_indexed(r, v, k, 1)
                && fact_indexed(r, v, k, 2) by {
                assert(fact_indexed(r0, v, k, 0) && fact_indexed(r0, v, k, 1) && fact_indexed(r0, v, k, 2));
                assert(!mentions(v0, k, id));
            }
            assert forall|id2: u32, pos: int, k: u32|
                0 <= pos < 3 && #[trigger] resource_index(r, id2, pos).contains(k) implies v.contains_key(k as usize)
                    && component(fact_triple(v[k as usize]), pos).0 == id2 by {
                assert(resource_index(r0, id2, pos).contains(k));
            }
            assert(self.indexed_resources() =~= old(self).indexed_resources().remove(id.0));
        }
        out
    }
}

/// Whether graph `b` extends graph `a`: every fact of `a` is in `b` at the
/// same index.
pub open spec fn extends(a: Map<usize, Fact>, b: Map<usize, Fact>) -> bool {
    forall|k: usize| #[trigger] a.contains_key(k) ==> b.contains_key(k) && b[k] == a[k]
}

/// Whether the fact at index `k` of `v` holds the triple of `fact` with
/// the other sign.
pub open spec fn contradicts(v: Map<usize, Fact>, k: usize, fact: Fact) -> bool {
    has_triple_at(v, k, fact_triple(fact)) && fact_sign(v[k]) != fact_sign(fact)
}

impl Graph {
    /// Inserts the facts in turn, stopping at the first contradiction.
    /// Returns the result of each insertion.
    pub fn try_extend(&mut self, facts: Vec<Fact>) -> (r: Result<Vec<(u32, bool)>, Contradiction>)
        requires
            old(self).wf(),
            old(self)@.len() + facts@.len() < u32::MAX,
        ensures
            final(self).wf(),
            extends(old(self)@, final(self)@),
            forall|k: usize| #[trigger] final(self)@.contains_key(k) && !old(self)@.contains_key(k) ==> exists|t: int|
                0 <= t < facts@.len() && final(self)@[k] == facts@[t],
            match r {
                Ok(indexes) => {
                    &&& indexes@.len() == facts@.len()
                    &&& forall|t: int| 0 <= t < facts@.len() ==> {
                        let k = #[trigger] indexes@[t].0 as usize;
                        &&& final(self)@.contains_key(k)
                        &&& fact_triple(final(self)@[k]) == fact_triple(facts@[t])
                        &&& fact_sign(final(self)@[k]) == fact_sign(facts@[t])
                    }
                },
                Err(c) => exists|t: int, k: usize| #[trigger] contradicts(final(self)@, k, facts@[t]) && 0 <= t
                    < facts@.len() && c.0 == fact_triple(facts@[t]),
            },
    {
        let mut indexes: Vec<(u32, bool)> = Vec::new();
        let mut j: usize = 0;
        while j < facts.len()
            invariant
                self.wf(),
                j <= facts@.len(),
                self@.len() <= old(self)@.len() + j,
                old(self)@.len() + facts@.len() < u32::MAX,
                extends(old(self)@, self@),
                forall|k: usize| #[trigger] self@.contains_key(k) && !old(self)@.contains_key(k) ==> exists|t: int|
                    0 <= t < j && self@[k] == facts@[t],
                indexes@.len() == j,
                forall|t: int| 0 <= t < j ==> {
                    let k = #[trigger] indexes@[t].0 as usize;
                    &&& self@.contains_key(k)
                    &&& fact_triple(self@[k]) == fact_triple(facts@[t])
                    &&& fact_sign(self@[k]) == fact_sign(facts@[t])
                },
            decreases facts@.len() - j,
        {
            let ghost before = self@;
            match self.insert(facts[j]) {
                Ok(x) => {
                    indexes.push(x);
                    proof {
                        assert forall|k: usize| #[trigger] self@.contains_key(k) && !old(self)@.contains_key(k) implies exists|t: int|
                            0 <= t < j + 1 && self@[k] == facts@[t] by {
                            if !before.contains_key(k) {
                                assert(self@[k] == facts@[j as int]);
                            }
                        }
                        assert forall|t: int| 0 <= t < j + 1 implies {
                            let k = #[trigger] indexes@[t].0 as usize;
                            &&& self@.contains_key(k)
                            &&& fact_triple(self@[k]) == fact_triple(facts@[t])
                            &&& fact_sign(self@[k]) == fact_sign(facts@[t])
                        } by {
                            if t < j {
                                assert(before.contains_key(indexes@[t].0 as usize));
                            }
                        }
                    }
                },
                Err(c) => {
                    proof {
                        let k = choose|k: usize| has_triple_at(before, k, c.0) && fact_sign(before[k]) != fact_sign(facts@[j as int]);
                        assert(has_triple_at(self@, k, c.0));
                        assert(contradicts(self@, k, facts@[j as int]));
                    }
                    return Err(c);
                },
            }
            j = j + 1;
        }
        Ok(indexes)
    }
}

/// A cursor at its start has all its indexes left.
proof fn lemma_fresh_cursor(c: Cursor)
    requires
        c.pos == 0,
    ensures
        forall|x: u32| #[trigger] cursor_rest(c).contains(x) <==> c.items@.contains(x),
{
    assert forall|x: u32| #[trigger] cursor_rest(c).contains(x) <==> c.items@.contains(x) by {
        if c.items@.contains(x) {
            let t = choose|t: int| 0 <= t < c.items@.len() && c.items@[t] == x;
            assert(c.pos <= t);
        }
    }
}

/// First index left in a cursor.
fn peek(c: &Cursor) -> (r: Option<u32>)
    requires
        cursor_wf(*c),
    ensures
        match r {
            Some(i) => cursor_rest(*c).contains(i) && forall|x: u32| #[trigger] cursor_rest(*c).contains(x) ==> i <= x,
            None => cursor_rest(*c) =~= Set::<u32>::empty(),
        },
{
    if c.pos < c.items.len() {
        let i = c.items[c.pos];
        proof {
            assert(cursor_rest(*c).contains(i));
            assert forall|x: u32| #[trigger] cursor_rest(*c).contains(x) implies i <= x by {
                let t = choose|t: int| c.pos <= t < c.items@.len() && c.items@[t] == x;
                if t > c.pos {
                    assert(c.items@[c.pos as int] < c.items@[t]);
                }
            }
        }
        Some(i)
    } else {
        None
    }
}

/// Skips the first index left in a cursor if it is `m`, the smallest index
/// left in it.
fn skip_if(c: &mut Cursor, m: u32)
    requires
        cursor_wf(*old(c)),
        forall|x: u32| #[trigger] cursor_rest(*old(c)).contains(x) ==> m <= x,
    ensures
        cursor_wf(*final(c)),
        final(c).items@ == old(c).items@,
        cursor_rest(*final(c)) == cursor_rest(*old(c)).remove(m),
        cursor_left(*final(c)) <= cursor_left(*old(c)),
        cursor_rest(*old(c)).contains(m) ==> cursor_left(*final(c)) < cursor_left(*old(c)),
{
    if c.pos < c.items.len() && c.items[c.pos] == m {
        let ghost o = *c;
        c.pos = c.pos + 1;
        proof {
            assert forall|x: u32| cursor_rest(*c).contains(x) <==> cursor_rest(o).contains(x) && x != m by {
                if cursor_rest(*c).contains(x) {
                    let t = choose|t: int| c.pos <= t < c.items@.len() && c.items@[t] == x;
                    assert(o.items@[o.pos as int] < o.items@[t]);
                }
                if cursor_rest(o).contains(x) && x != m {
                    let t = choose|t: int| o.pos <= t < o.items@.len() && o.items@[t] == x;
                    assert(t != o.pos);
                }
            }
            assert(cursor_rest(*c) =~= cursor_rest(o).remove(m));
        }
    } else {
        proof {
            if c.pos < c.items@.len() {
                assert(cursor_rest(*c).contains(c.items@[c.pos as int]));
            }
            assert forall|x: u32| cursor_rest(*c).contains(x) implies x != m by {
                let t = choose|t: int| c.pos <= t < c.items@.len() && c.items@[t] == x;
                if t > c.pos {
                    assert(c.items@[c.pos as int] < c.items@[t]);
                }
            }
            assert(cursor_rest(*c) =~= cursor_rest(*c).remove(m));
        }
    }
}

/// The facts of a graph that mention a resource, by increasing index.
pub struct ResourceFacts<'a> {
    graph: &'a Graph,
    lists: Option<(Cursor, Cursor, Cursor)>,
}

impl<'a> ResourceFacts<'a> {
    pub closed spec fn wf(&self) -> bool {
        &&& self.graph.wf()
        &&& match self.lists {
            Some((s, p, o)) => cursor_wf(s) && cursor_wf(p) && cursor_wf(o),
            None => true,
        }
        &&& forall|x: u32| #[trigger] self.remaining().contains(x) ==> self.graph@.contains_key(x as usize)
    }

    /// The facts of the graph being read.
    pub closed spec fn graph(&self) -> Map<usize, Fact> {
        self.graph@
    }

    /// Indexes of the facts not yielded yet.
    pub closed spec fn remaining(&self) -> Set<u32> {
        match self.lists {
            Some((s, p, o)) => cursor_rest(s).union(cursor_rest(p)).union(cursor_rest(o)),
            None => Set::empty(),
        }
    }

    /// A bound on the work left: it decreases with every fact yielded.
    pub closed spec fn left(&self) -> nat {
        match self.lists {
            Some((s, p, o)) => cursor_left(s) + cursor_left(p) + cursor_left(o),
            None => 0,
        }
    }

    /// Whether every fact has been yielded.
    pub fn is_empty(&self) -> (r: bool)
        requires
            self.wf(),
        ensures
            r <==> self.remaining() =~= Set::<u32>::empty(),
    {
        match &self.lists {
            None => true,
            Some((s, p, o)) => {
                let r = s.pos >= s.items.len() && p.pos >= p.items.len() && o.pos >= o.items.len();
                proof {
                    if !r {
                        let x = if s.pos < s.items.len() {
                            s.items@[s.pos as int]
                        } else if p.pos < p.items.len() {
                            p.items@[p.pos as int]
                        } else {
                            o.items@[o.pos as int]
                        };
                        assert(cursor_rest(*s).contains(x) || cursor_rest(*p).contains(x) || cursor_rest(*o).contains(x));
                        assert(self.remaining().contains(x));
                    } else {
                        assert(cursor_rest(*s) =~= Set::<u32>::empty());
                        assert(cursor_rest(*p) =~= Set::<u32>::empty());
                        assert(cursor_rest(*o) =~= Set::<u32>::empty());
                        assert(self.remaining() =~= Set::<u32>::empty());
                    }
                }
                r
            },
        }
    }

    /// The fact of smallest index not yielded yet.
    pub fn next(&mut self) -> (r: Option<(u32, &'a Fact)>)
        requires
            old(self).wf(),
        ensures
            final(self).wf(),
            final(self).graph() == old(self).graph(),
            match r {
                Some((i, f)) => {
                    &&& old(self).remaining().contains(i)
                    &&& forall|x: u32| #[trigger] old(self).remaining().contains(x) ==> i <= x
                    &&& final(self).remaining() == old(self).remaining().remove(i)
                    &&& old(self).graph().contains_key(i as usize)
                    &&& *f == old(self).graph()[i as usize]
                    &&& final(self).left() < old(self).left()
                },
                None => old(self).remaining() =~= Set::<u32>::empty() && final(self).remaining()
                    =~= Set::<u32>::empty(),
            },
            final(self).left() <= old(self).left(),
    {
        let graph: &'a Graph = self.graph;
        let ghost rem0 = self.remaining();
        match &mut self.lists {
            None => None,
            Some((s, p, o)) => {
                let mut min: Option<u32> = peek(s);
                let pp = peek(p);
                if let Some(x) = pp {
                    min = match min {
                        Some(m) => if x < m { Some(x) } else { Some(m) },
                        None => Some(x),
                    };
                }
                let po = peek(o);
                if let Some(x) = po {
                    min = match min {
                        Some(m) => if x < m { Some(x) } else { Some(m) },
                        None => Some(x),
                    };
                }
                match min {
                    None => None,
                    Some(m) => {
                        proof {
                            assert(rem0.contains(m));
                            assert forall|x: u32| #[trigger] rem0.contains(x) implies m <= x by {
                                if cursor_rest(*s).contains(x) {
                                } else if cursor_rest(*p).contains(x) {
                                } else {
                                }
                            }
                        }
                        skip_if(s, m);
                        skip_if(p, m);
                        skip_if(o, m);
                        proof {
                            assert(self.remaining() =~= rem0.remove(m));
                        }
                        let f = graph.get(m as usize).unwrap();
                        Some((m, f))
                    },
                }
            },
        }
    }
}

impl Graph {
    /// The facts mentioning the resource, by increasing index.
    pub fn resource_facts(&self, id: Id) -> (r: ResourceFacts<'_>)
        requires
            self.wf(),
        ensures
            r.wf(),
            r.graph() == self@,
            forall|x: u32| #[trigger] r.remaining().contains(x) <==> mentions(self@, x as usize, id),
    {
        match self.get_resource(id) {
            Some(res) => {
                let s = Cursor { items: res.iter_as_subject(), pos: 0 };
                let p = Cursor { items: res.iter_as_predicate(), pos: 0 };
                let o = Cursor { items: res.iter_as_object(), pos: 0 };
                let r = ResourceFacts { graph: self, lists: Some((s, p, o)) };
                proof {
                    lemma_fresh_cursor(s);
                    lemma_fresh_cursor(p);
                    lemma_fresh_cursor(o);
                    assert forall|x: u32| #[trigger] r.remaining().contains(x) <==> mentions(self@, x as usize, id) by {
                        assert(s.items@.contains(x) <==> s.items@.to_set().contains(x));
                        assert(p.items@.contains(x) <==> p.items@.to_set().contains(x));
                        assert(o.items@.contains(x) <==> o.items@.to_set().contains(x));
                        if mentions(self@, x as usize, id) {
                            let t = fact_triple(self@[x as usize]);
                            if t.0 == id {
                                assert(indexes_at(self@, id, 0).contains(x));
                            } else if t.1 == id {
                                assert(indexes_at(self@, id, 1).contains(x));
                            } else {
                                assert(indexes_at(self@, id, 2).contains(x));
                            }
                        }
                    }
                }
                r
            },
            None => {
                let r = ResourceFacts { graph: self, lists: None };
                proof {
                    assert forall|x: u32| !#[trigger] mentions(self@, x as usize, id) by {
                        if mentions(self@, x as usize, id) {
                            let t = fact_triple(self@[x as usize]);
                            if t.0 == id {
                                assert(indexes_at(self@, id, 0).contains(x));
                            } else if t.1 == id {
                                assert(indexes_at(self@, id, 1).contains(x));
                            } else {
                                assert(indexes_at(self@, id, 2).contains(x));
                            }
                        }
                    }
                }
                r
            },
        }
    }
}

/// The fact with every occurrence of `b` in its triple replaced by `a`.
pub open spec fn replaced_fact(f: Fact, a: Id, b: Id) -> Fact {
    Meta(Signed(f.0.0, replaced_triple(f.0.1, a, b)), f.1)
}

/// Whether graph `v` holds the triple of `f` with the sign of `f`.
pub open spec fn holds(v: Map<usize, Fact>, f: Fact) -> bool {
    exists|k: usize| has_triple_at(v, k, fact_triple(f)) && fact_sign(v[k]) == fact_sign(f)
}

impl Graph {
    /// Replaces every occurrence of `b` with `a`: each fact mentioning `b`
    /// is taken out, rewritten, and put back if `filter` accepts it.
    /// Stops at the first error of `filter` or contradiction.
    pub fn replace_id(&mut self, a: Id, b: Id, filter: impl Fn(&Fact) -> Result<bool, Contradiction>) -> (r: Result<(), Contradiction>)
        requires
            old(self).wf(),
            old(self)@.len() < u32::MAX,
            forall|f: Fact| filter.requires((&f,)),
        ensures
            final(self).wf(),
            final(self)@.len() <= old(self)@.len(),
            extends(old(self)@.remove_keys(mentioning(old(self)@, b)), final(self)@),
            forall|k: usize|
                #[trigger] final(self)@.contains_key(k) && !old(self)@.remove_keys(mentioning(old(self)@, b)).contains_key(k)
                    ==> exists|k0: usize|
                    mentions(old(self)@, k0, b) && final(self)@[k] == replaced_fact(old(self)@[k0], a, b)
                        && filter.ensures((&final(self)@[k],), Ok(true)),
            match r {
                Ok(()) => forall|k0: usize| #[trigger] mentions(old(self)@, k0, b) ==> {
                    let f = replaced_fact(old(self)@[k0], a, b);
                    filter.ensures((&f,), Ok(false)) || holds(final(self)@, f)
                },
                Err(e) => exists|k0: usize| #[trigger] mentions(old(self)@, k0, b) && {
                    let f = replaced_fact(old(self)@[k0], a, b);
                    filter.ensures((&f,), Err(e)) || (filter.ensures((&f,), Ok(true)) && e.0 == fact_triple(f))
                },
            },
    {
        let ghost v0 = self@;
        let ghost base = v0.remove_keys(mentioning(v0, b));
        let removed = self.remove_resource(b);
        let ghost keys = choose|keys: Seq<usize>|
            {
                &&& keys.no_duplicates()
                &&& keys.to_set() == mentioning(v0, b)
                &&& removed@.len() == keys.len()
                &&& forall|t: int| 0 <= t < keys.len() ==> #[trigger] removed@[t] == v0[keys[t]]
            };
        let mut j: usize = 0;
        while j < removed.len()
            invariant
                self.wf(),
                j <= removed@.len(),
                self@.len() + removed@.len() - j <= v0.len(),
                v0 == old(self)@,
                base == v0.remove_keys(mentioning(v0, b)),
                v0.len() < u32::MAX,
                forall|f: Fact| filter.requires((&f,)),
                keys.to_set() == mentioning(v0, b),
                removed@.len() == keys.len(),
                forall|t: int| 0 <= t < keys.len() ==> #[trigger] removed@[t] == v0[keys[t]],
                extends(base, self@),
                forall|k: usize|
                    #[trigger] self@.contains_key(k) && !base.contains_key(k) ==> exists|k0: usize|
                        mentions(v0, k0, b) && self@[k] == replaced_fact(v0[k0], a, b) && filter.ensures(
                            (&self@[k],),
                            Ok(true),
                        ),
                forall|t: int| 0 <= t < j ==> {
                    let f = replaced_fact(v0[#[trigger] keys[t]], a, b);
                    filter.ensures((&f,), Ok(false)) || holds(self@, f)
                },
            decreases removed@.len() - j,
        {
            let old_fact = removed[j];
            let fact = Meta(Signed(old_fact.0.0, {
                let mut t = old_fact.0.1;
                t.replace_id(a, b);
                t
            }), old_fact.1);
            proof {
                assert(keys.to_set().contains(keys[j as int]));
                assert(fact == replaced_fact(v0[keys[j as int]], a, b));
            }
            match filter(&fact) {
                Err(e) => {
                    return Err(e);
                },
                Ok(accept) => {
                    if accept {
                        let ghost before = self@;
                        match self.insert(fact) {
                            Ok((i, _)) => {
                                proof {
                                    assert(has_triple_at(self@, i as usize, fact_triple(fact)) && fact_sign(self@[i as usize]) == fact_sign(fact));
                                    assert(extends(before, self@));
                                    assert forall|f: Fact| holds(before, f) implies holds(self@, f) by {
                                        let k = choose|k: usize| has_triple_at(before, k, fact_triple(f)) && fact_sign(before[k]) == fact_sign(f);
                                        assert(before.contains_key(k));
                                        assert(has_triple_at(self@, k, fact_triple(f)) && fact_sign(self@[k]) == fact_sign(f));
                                    }
                                }
                            },
                            Err(c) => {
                                return Err(c);
                            },
                        }
                    }
                },
            }
            j = j + 1;
        }
        proof {
            assert forall|k0: usize| #[trigger] mentions(v0, k0, b) implies {
                let f = replaced_fact(v0[k0], a, b);
                filter.ensures((&f,), Ok(false)) || holds(self@, f)
            } by {
                assert(keys.to_set().contains(k0));
                let t = choose|t: int| 0 <= t < keys.len() && keys[t] == k0;
            }
        }
        Ok(())
    }
}

impl Graph {
    /// Every fact with its index, by increasing index.
    pub fn iter(&self) -> (r: Vec<(u32, &Fact)>)
        requires
            self.wf(),
        ensures
            r@.len() <= self@.len(),
            forall|a: int, b: int| 0 <= a < b < r@.len() ==> r@[a].0 < r@[b].0,
            forall|a: int| 0 <= a < r@.len() ==> self@.contains_key(#[trigger] r@[a].0 as usize) && *r@[a].1
                == self@[r@[a].0 as usize],
            forall|k: usize| #[trigger] self@.contains_key(k) ==> exists|a: int| 0 <= a < r@.len() && r@[a].0 as usize == k,
    {
        let keys = fact_slab_keys(&self.facts);
        let mut r: Vec<(u32, &Fact)> = Vec::new();
        let mut j: usize = 0;
        while j < keys.len()
            invariant
                self.wf(),
                j <= keys@.len(),
                r@.len() == j,
                forall|a: int, b: int| 0 <= a < b < keys@.len() ==> keys@[a] < keys@[b],
                forall|k: usize| self@.contains_key(k) <==> keys@.contains(k),
                forall|a: int| 0 <= a < j ==> #[trigger] r@[a].0 as usize == keys@[a] && self@.contains_key(keys@[a])
                    && *r@[a].1 == self@[keys@[a]],
            decreases keys@.len() - j,
        {
            let k = keys[j];
            proof {
                assert(keys@.contains(k));
            }
            let f = self.get(k).unwrap();
            r.push((k as u32, f));
            j = j + 1;
        }
        proof {
            assert forall|k: usize| #[trigger] self@.contains_key(k) implies exists|a: int| 0 <= a < r@.len() && r@[a].0 as usize == k by {
                assert(keys@.contains(k));
                let a = choose|a: int| 0 <= a < keys@.len() && keys@[a] == k;
                assert(r@[a].0 as usize == k);
            }
            assert forall|a: int, b: int| 0 <= a < b < r@.len() implies r@[a].0 < r@[b].0 by {
                assert(keys@[a] < keys@[b]);
            }
            assert(keys@.no_duplicates()) by {
                assert forall|a: int, b: int| 0 <= a < keys@.len() && 0 <= b < keys@.len() && a != b implies keys@[a] != keys@[b] by {
                    if a < b {
                        assert(keys@[a] < keys@[b]);
                    } else {
                        assert(keys@[b] < keys@[a]);
                    }
                }
            }
            keys@.unique_seq_to_set();
            assert(keys@.to_set().subset_of(self@.dom()));
            vstd::set_lib::lemma_len_subset(keys@.to_set(), self@.dom());
        }
        r
    }
}

/// No two facts of `v` hold the same triple.
pub open spec fn unique_triples(v: Map<usize, Fact>) -> bool {
    forall|k1: usize, k2: usize|
        #[trigger] v.contains_key(k1) && #[trigger] v.contains_key(k2) && fact_triple(v[k1]) == fact_triple(v[k2])
            ==> k1 == k2
}

impl Graph {
    /// A graph holds each triple at most once.
    pub proof fn lemma_unique_triples(&self)
        requires
            self.wf(),
        ensures
            unique_triples(self@),
    {
    }
}

/// After an insertion that did not fail, the graph holds the fact's triple
/// with the fact's sign, at the returned index.
pub proof fn lemma_inserted_holds(before: Map<usize, Fact>, after: Map<usize, Fact>, fact: Fact, i: u32, added: bool)
    requires
        inserted(before, after, fact, i, added),
    ensures
        has_triple_at(after, i as usize, fact_triple(fact)),
        fact_sign(after[i as usize]) == fact_sign(fact),
{
}

/// Inserting a fact a second time changes nothing and gives the same
/// index.
pub proof fn lemma_insert_idempotent(
    v0: Map<usize, Fact>,
    v1: Map<usize, Fact>,
    v2: Map<usize, Fact>,
    fact: Fact,
    i: u32,
    added: bool,
    j: u32,
    added_again: bool,
)
    requires
        unique_triples(v1),
        inserted(v0, v1, fact, i, added),
        inserted(v1, v2, fact, j, added_again),
    ensures
        !added_again,
        j == i,
        v2 == v1,
{
    assert(has_triple_at(v1, i as usize, fact_triple(fact)));
    if added_again {
        assert(has_triple(v1, fact_triple(fact)));
    } else {
        assert(v1.contains_key(j as usize) && v1.contains_key(i as usize));
    }
}

/// Removing the triple of a fact just added gives back the graph as it
/// was before the insertion.
pub proof fn lemma_remove_undoes_insert(before: Map<usize, Fact>, fact: Fact, i: u32, k: usize)
    requires
        inserted(before, before.insert(i as usize, fact), fact, i, true),
        has_triple_at(before.insert(i as usize, fact), k, fact_triple(fact)),
    ensures
        before.insert(i as usize, fact).remove(k) == before,
{
    if k != i as usize {
        assert(has_triple_at(before, k, fact_triple(fact)));
    }
    assert(before.insert(i as usize, fact).remove(k) =~= before);
}

} // verus!
