//! Interpretation held in memory.
use vstd::prelude::*;

use crate::containers::{
    IdEntry,
    key_set_contains, key_set_elements, key_set_insert, key_set_is_empty, key_set_new,
    key_set_remove, key_set_to_vec, id_map_entries, id_map_entries_vec, id_map_get,
    id_map_insert, id_map_new, KeySet, IdMap,
};
use crate::id::Id;
use crate::interpretation::reservable_slab::{self, stored, ReservableSlab};
use crate::interpretation::Contradiction;
use crate::triple::{Quad, Triple};
use crate::uninterpreted::{self, Term};

verus! {

/// Abstract value of a resource: its IRIs, blank node identifiers and
/// literals, and the resources it is known to differ from.
pub type ResourceView = (Set<u32>, Set<u32>, Set<u32>, Set<u32>);

/// An interpreted resource: the terms denoting it, and the resources it
/// differs from.
pub struct Resource {
    pub as_iri: KeySet,
    pub as_blank: KeySet,
    pub as_literal: KeySet,
    pub different_from: KeySet,
}

impl View for Resource {
    type V = ResourceView;

    open spec fn view(&self) -> ResourceView {
        (
            key_set_elements(self.as_iri),
            key_set_elements(self.as_blank),
            key_set_elements(self.as_literal),
            key_set_elements(self.different_from),
        )
    }
}

/// Whether the resource `r` is denoted by the term.
pub open spec fn denotes(r: ResourceView, t: Term) -> bool {
    match t {
        Term::Iri(i) => r.0.contains(i),
        Term::Blank(b) => r.1.contains(b),
        Term::Literal(l) => r.2.contains(l),
    }
}

/// `r` with `t` added to its terms.
pub open spec fn with_term(r: ResourceView, t: Term) -> ResourceView {
    match t {
        Term::Iri(i) => (r.0.insert(i), r.1, r.2, r.3),
        Term::Blank(b) => (r.0, r.1.insert(b), r.2, r.3),
        Term::Literal(l) => (r.0, r.1, r.2.insert(l), r.3),
    }
}

/// A resource with no term and no difference.
pub open spec fn empty_resource() -> ResourceView {
    (Set::empty(), Set::empty(), Set::empty(), Set::empty())
}

impl Resource {
    pub fn new() -> (r: Resource)
        ensures
            r@ == empty_resource(),
    {
        Resource {
            as_iri: key_set_new(),
            as_blank: key_set_new(),
            as_literal: key_set_new(),
            different_from: key_set_new(),
        }
    }

    /// Adds a term denoting the resource.
    pub fn add_term(&mut self, term: Term)
        ensures
            final(self)@ == with_term(old(self)@, term),
    {
        match term {
            Term::Iri(i) => {
                key_set_insert(&mut self.as_iri, i);
            },
            Term::Blank(b) => {
                key_set_insert(&mut self.as_blank, b);
            },
            Term::Literal(l) => {
                key_set_insert(&mut self.as_literal, l);
            },
        }
    }

    /// The resource denoted by the IRI alone.
    pub fn from_iri(iri: u32) -> (r: Resource)
        ensures
            r@ == with_term(empty_resource(), Term::Iri(iri)),
    {
        let mut r = Resource::new();
        key_set_insert(&mut r.as_iri, iri);
        r
    }

    /// The resource denoted by the blank node identifier alone.
    pub fn from_blank(blank: u32) -> (r: Resource)
        ensures
            r@ == with_term(empty_resource(), Term::Blank(blank)),
    {
        let mut r = Resource::new();
        key_set_insert(&mut r.as_blank, blank);
        r
    }

    /// The resource denoted by the literal alone.
    pub fn from_literal(literal: u32) -> (r: Resource)
        ensures
            r@ == with_term(empty_resource(), Term::Literal(literal)),
    {
        let mut r = Resource::new();
        key_set_insert(&mut r.as_literal, literal);
        r
    }

    /// Whether no IRI nor literal denotes the resource.
    pub fn is_anonymous(&self) -> (r: bool)
        ensures
            r <==> self@.0 =~= Set::<u32>::empty() && self@.2 =~= Set::<u32>::empty(),
    {
        key_set_is_empty(&self.as_iri) && key_set_is_empty(&self.as_literal)
    }
}

/// Vocabulary index of a term.
pub open spec fn term_index(t: Term) -> u32 {
    match t {
        Term::Iri(i) => i,
        Term::Blank(b) => b,
        Term::Literal(l) => l,
    }
}

/// RDF interpretation: resources by identifier, and the resource each
/// known term denotes.
pub struct Interpretation {
    resources: ReservableSlab<Resource>,
    by_iri: IdMap,
    by_blank: IdMap,
    by_literal: IdMap,
}

impl Interpretation {
    /// The resources, by identifier.
    pub closed spec fn resources(&self) -> Map<usize, ResourceView> {
        self.resources@.map_values(|r: Resource| r@)
    }

    /// Identifier that the `k`-th of a run of resource creations gets.
    pub closed spec fn insertion_key(&self, k: int) -> int {
        self.resources.insertion_key(k)
    }

    /// Number of slots of the resource store (every identifier is below).
    pub closed spec fn slots(&self) -> nat {
        self.resources.slots()
    }

    spec fn term_map(&self, t: Term) -> Map<u32, Id> {
        match t {
            Term::Iri(_) => id_map_entries(self.by_iri),
            Term::Blank(_) => id_map_entries(self.by_blank),
            Term::Literal(_) => id_map_entries(self.by_literal),
        }
    }

    /// The resource the term is interpreted as, if any.
    pub closed spec fn interpretation_of(&self, t: Term) -> Option<Id> {
        let m = self.term_map(t);
        if m.contains_key(term_index(t)) {
            Some(m[term_index(t)])
        } else {
            None
        }
    }

    /// Whether the term, if interpreted, denotes an existing resource.
    pub closed spec fn interpreted_ok(&self, t: Term) -> bool {
        match self.interpretation_of(t) {
            Some(id) => self.resources().contains_key(id.0 as usize) && denotes(self.resources()[id.0 as usize], t),
            None => true,
        }
    }

    /// Internal consistency: every interpreted term denotes its resource,
    /// and no resource is known to differ from itself.
    pub closed spec fn wf(&self) -> bool {
        let res = self.resources();
        &&& self.resources.wf()
        &&& self.resources.slots() <= u32::MAX
        &&& forall|i: usize| #[trigger] res.contains_key(i) ==> i < u32::MAX
        &&& forall|t: Term| #![trigger self.interpretation_of(t)] self.interpreted_ok(t)
        &&& differences_ok(res)
    }

    pub fn new() -> (r: Interpretation)
        ensures
            r.wf(),
            r.resources() == Map::<usize, ResourceView>::empty(),
            forall|t: Term| r.interpretation_of(t) is None,
    {
        let r = Interpretation {
            resources: ReservableSlab::new(),
            by_iri: id_map_new(),
            by_blank: id_map_new(),
            by_literal: id_map_new(),
        };
        assert(r.resources() =~= Map::<usize, ResourceView>::empty());
        r
    }

    /// Number of resources.
    pub fn len(&self) -> (r: u32)
        requires
            self.wf(),
        ensures
            r == self.resources().len(),
    {
        proof {
            assert(self.resources().dom() =~= self.resources@.dom());
        }
        self.resources.len() as u32
    }

    pub fn is_empty(&self) -> (r: bool)
        requires
            self.wf(),
        ensures
            r <==> self.resources().len() == 0,
    {
        proof {
            assert(self.resources().dom() =~= self.resources@.dom());
        }
        self.resources.is_empty()
    }

    /// The resource with the given identifier, if any.
    pub fn get(&self, id: Id) -> (r: Option<&Resource>)
        ensures
            match r {
                Some(res) => self.resources().contains_key(id.0 as usize) && res@ == self.resources()[id.0 as usize],
                None => !self.resources().contains_key(id.0 as usize),
            },
    {
        self.resources.get(id.index())
    }
}

impl Interpretation {
    /// Whether a new resource can be given a 32-bit identifier.
    pub open spec fn has_room(&self) -> bool {
        self.slots() < u32::MAX
    }

    /// Whether a new resource can be given a 32-bit identifier.
    pub fn room_left(&self) -> (r: bool)
        ensures
            r == self.has_room(),
    {
        self.resources.slot_count() < 0xffff_ffffusize
    }

    spec fn same_terms(&self, other: &Interpretation) -> bool {
        &&& id_map_entries(self.by_iri) == id_map_entries(other.by_iri)
        &&& id_map_entries(self.by_blank) == id_map_entries(other.by_blank)
        &&& id_map_entries(self.by_literal) == id_map_entries(other.by_literal)
    }

    /// Stores a resource and returns its identifier.
    fn store(&mut self, r: Resource) -> (id: Id)
        requires
            old(self).wf(),
            old(self).has_room(),
            r@.3 =~= Set::<u32>::empty(),
        ensures
            final(self).wf(),
            final(self).same_terms(old(self)),
            !old(self).resources().contains_key(id.0 as usize),
            final(self).resources() == old(self).resources().insert(id.0 as usize, r@),
            final(self).slots() <= old(self).slots() + 1,
    {
        let ghost v = r@;
        let i = self.resources.insert(r);
        proof {
            assert(self.resources() =~= old(self).resources().insert(i, v));
            lemma_differences_kept(old(self).resources(), self.resources());
            assert forall|t: Term| #![trigger self.interpretation_of(t)] self.interpreted_ok(t) by {
                assert(self.interpretation_of(t) == old(self).interpretation_of(t));
            }
        }
        Id(i as u32)
    }

    /// Creates a resource denoted by no term.
    pub fn new_resource(&mut self) -> (id: Id)
        requires
            old(self).wf(),
            old(self).has_room(),
        ensures
            final(self).wf(),
            !old(self).resources().contains_key(id.0 as usize),
            final(self).resources() == old(self).resources().insert(id.0 as usize, empty_resource()),
            forall|t: Term| final(self).interpretation_of(t) == old(self).interpretation_of(t),
            final(self).slots() <= old(self).slots() + 1,
    {
        self.store(Resource::new())
    }

    /// The resource the term is interpreted as, if any.
    pub fn term_interpretation(&self, term: Term) -> (r: Option<Id>)
        ensures
            r == self.interpretation_of(term),
    {
        match term {
            Term::Iri(i) => id_map_get(&self.by_iri, i),
            Term::Blank(b) => id_map_get(&self.by_blank, b),
            Term::Literal(l) => id_map_get(&self.by_literal, l),
        }
    }

    /// The resource the term is interpreted as, creating it (denoted by the
    /// term alone) if the term is not interpreted yet.
    pub fn insert_term(&mut self, term: Term) -> (id: Id)
        requires
            old(self).wf(),
            old(self).interpretation_of(term) is None ==> old(self).has_room(),
        ensures
            final(self).wf(),
            final(self).interpretation_of(term) == Some(id),
            match old(self).interpretation_of(term) {
                Some(old_id) => {
                    &&& id == old_id
                    &&& final(self).resources() == old(self).resources()
                    &&& final(self).slots() == old(self).slots()
                },
                None => {
                    &&& !old(self).resources().contains_key(id.0 as usize)
                    &&& final(self).resources() == old(self).resources().insert(
                        id.0 as usize,
                        with_term(empty_resource(), term),
                    )
                    &&& final(self).slots() <= old(self).slots() + 1
                },
            },
            forall|t: Term| t != term ==> final(self).interpretation_of(t) == old(self).interpretation_of(t),
            term_inserted(*old(self), *final(self), term, id),
    {
        match self.term_interpretation(term) {
            Some(id) => id,
            None => {
                let r = match term {
                    Term::Iri(i) => Resource::from_iri(i),
                    Term::Blank(b) => Resource::from_blank(b),
                    Term::Literal(l) => Resource::from_literal(l),
                };
                let id = self.store(r);
                let ghost mid = *self;
                match term {
                    Term::Iri(i) => id_map_insert(&mut self.by_iri, i, id),
                    Term::Blank(b) => id_map_insert(&mut self.by_blank, b, id),
                    Term::Literal(l) => id_map_insert(&mut self.by_literal, l, id),
                }
                proof {
                    assert forall|t: Term| t != term implies #[trigger] self.interpretation_of(t) == mid.interpretation_of(t) by {
                        if term_index(t) == term_index(term) {
                        }
                    }
                    assert forall|t: Term| #![trigger self.interpretation_of(t)] self.interpreted_ok(t) by {
                        if t != term {
                            assert(self.interpretation_of(t) == mid.interpretation_of(t));
                        }
                    }
                }
                id
            },
        }
    }
}

/// No resource is known to differ from itself.
pub open spec fn differences_ok(res: Map<usize, ResourceView>) -> bool {
    forall|i: usize, x: u32| res.contains_key(i) && #[trigger] res[i].3.contains(x) ==> x != i as u32
}

/// Adding resources with no difference, and changing only the terms of
/// others, keeps the difference relation as it is.
proof fn lemma_differences_kept(o: Map<usize, ResourceView>, n: Map<usize, ResourceView>)
    requires
        differences_ok(o),
        forall|i: usize| #[trigger] o.contains_key(i) ==> n.contains_key(i) && n[i].3 == o[i].3,
        forall|i: usize| #[trigger] n.contains_key(i) && !o.contains_key(i) ==> n[i].3 =~= Set::<u32>::empty(),
    ensures
        differences_ok(n),
{
    assert forall|i: usize, x: u32| n.contains_key(i) && #[trigger] n[i].3.contains(x) implies x != i as u32 by {
        if o.contains_key(i) {
            assert(o[i].3.contains(x));
        } else {
            assert(n[i].3 =~= Set::<u32>::empty());
        }
    }
}

/// The resources once `a` and `b` are known to differ.
pub open spec fn split_view(o: Map<usize, ResourceView>, a: u32, b: u32) -> Map<usize, ResourceView> {
    o.insert(a as usize, with_differences(o[a as usize], o[a as usize].3.insert(b))).insert(
        b as usize,
        with_differences(o[b as usize], o[b as usize].3.insert(a)),
    )
}

/// Once two distinct resources are known to differ, merging them is a
/// contradiction: the resource of greater identifier differs from the
/// other.
pub proof fn lemma_split_then_merge_contradicts(o: Map<usize, ResourceView>, a: u32, b: u32)
    requires
        a != b,
        o.contains_key(a as usize),
        o.contains_key(b as usize),
    ensures
        ({
            let s = split_view(o, a, b);
            let lo = if a < b { a } else { b };
            let hi = if a < b { b } else { a };
            s[hi as usize].3.contains(lo)
        }),
{
}

/// `r` with its differences replaced by `d`.
pub open spec fn with_differences(r: ResourceView, d: Set<u32>) -> ResourceView {
    (r.0, r.1, r.2, d)
}

impl Interpretation {
    /// Applies `add_term` to the resource at `x`.
    fn resource_add_term(&mut self, x: usize, t: Term)
        requires
            old(self).resources.wf(),
            old(self).resources().contains_key(x),
        ensures
            final(self).resources.wf(),
            final(self).same_terms(old(self)),
            final(self).slots() == old(self).slots(),
            final(self).resources() == old(self).resources().insert(x, with_term(old(self).resources()[x], t)),
    {
        let mut r = self.resources.replace(x, Resource::new());
        r.add_term(t);
        let ghost v = r@;
        self.resources.replace(x, r);
        proof {
            assert(self.resources() =~= old(self).resources().insert(x, v));
        }
    }

    /// Removes `removed` from, then adds `added` to, the differences of the
    /// resource at `x`.
    fn resource_update_differences(&mut self, x: usize, removed: Option<u32>, added: u32)
        requires
            old(self).resources.wf(),
            old(self).resources().contains_key(x),
        ensures
            final(self).resources.wf(),
            final(self).same_terms(old(self)),
            final(self).slots() == old(self).slots(),
            final(self).resources() == old(self).resources().insert(
                x,
                with_differences(
                    old(self).resources()[x],
                    match removed {
                        Some(y) => old(self).resources()[x].3.remove(y),
                        None => old(self).resources()[x].3,
                    }.insert(added),
                ),
            ),
    {
        let mut r = self.resources.replace(x, Resource::new());
        if let Some(y) = removed {
            key_set_remove(&mut r.different_from, y);
        }
        key_set_insert(&mut r.different_from, added);
        let ghost v = r@;
        self.resources.replace(x, r);
        proof {
            assert(self.resources() =~= old(self).resources().insert(x, v));
        }
    }

    /// Adds a term denoting the resource `id`.
    pub fn set_term_interpretation(&mut self, term: Term, id: Id)
        requires
            old(self).wf(),
            old(self).resources().contains_key(id.0 as usize),
        ensures
            final(self).wf(),
            final(self).resources() == old(self).resources().insert(
                id.0 as usize,
                with_term(old(self).resources()[id.0 as usize], term),
            ),
            forall|t: Term| final(self).interpretation_of(t) == old(self).interpretation_of(t),
            final(self).slots() == old(self).slots(),
    {
        self.resource_add_term(id.index(), term);
        proof {
            assert forall|t: Term| #![trigger self.interpretation_of(t)] self.interpreted_ok(t) by {
                assert(self.interpretation_of(t) == old(self).interpretation_of(t));
            }
        }
    }

    /// Records that `a` and `b` are different resources. Returns whether
    /// `b` was not yet known to differ from `a`; it is a contradiction when
    /// `a` and `b` are the same.
    pub fn split(&mut self, a: Id, b: Id) -> (r: Result<bool, Contradiction>)
        requires
            old(self).wf(),
            old(self).resources().contains_key(a.0 as usize),
            old(self).resources().contains_key(b.0 as usize),
        ensures
            final(self).wf(),
            forall|t: Term| final(self).interpretation_of(t) == old(self).interpretation_of(t),
            final(self).slots() == old(self).slots(),
            match r {
                Err(c) => a == b && c.0 == a && c.1 == b && final(self).resources() == old(self).resources(),
                Ok(added) => {
                    &&& a != b
                    &&& added == !old(self).resources()[b.0 as usize].3.contains(a.0)
                    &&& final(self).resources() == split_view(old(self).resources(), a.0, b.0)
                },
            },
    {
        if a == b {
            Err(Contradiction(a, b))
        } else {
            let added = key_set_contains(&self.resources.get(b.index()).unwrap().different_from, a.0);
            self.resource_update_differences(a.index(), None, b.0);
            self.resource_update_differences(b.index(), None, a.0);
            proof {
                let res = self.resources();
                assert forall|t: Term| #![trigger self.interpretation_of(t)] self.interpreted_ok(t) by {
                    assert(self.interpretation_of(t) == old(self).interpretation_of(t));
                }
                assert forall|i: usize, x: u32| res.contains_key(i) && #[trigger] res[i].3.contains(x) implies x != i as u32 by {
                    let o = old(self).resources();
                    if !(i == a.0 as usize && x == b.0) && !(i == b.0 as usize && x == a.0) {
                        assert(o[i].3.contains(x));
                    }
                }
            }
            Ok(!added)
        }
    }
}

/// Kind of term.
#[derive(Clone, Copy)]
enum TermKind {
    Iri,
    Blank,
    Literal,
}

/// `r` with the terms of the given kind `s` added.
spec fn add_terms(r: ResourceView, kind: TermKind, s: Set<u32>) -> ResourceView {
    match kind {
        TermKind::Iri => (r.0.union(s), r.1, r.2, r.3),
        TermKind::Blank => (r.0, r.1.union(s), r.2, r.3),
        TermKind::Literal => (r.0, r.1, r.2.union(s), r.3),
    }
}

/// `m` with every key of `keys` mapped to `id`.
pub open spec fn redirected(m: Map<u32, Id>, keys: Set<u32>, id: Id) -> Map<u32, Id> {
    Map::new(|k: u32| m.contains_key(k) || keys.contains(k), |k: u32| if keys.contains(k) { id } else { m[k] })
}

proof fn lemma_take_to_set(s: Seq<u32>, j: int)
    requires
        0 <= j < s.len(),
    ensures
        s.take(j + 1).to_set() == s.take(j).to_set().insert(s[j]),
{
    let s1 = s.take(j + 1);
    let s0 = s.take(j);
    assert forall|y: u32| s1.to_set().contains(y) <==> s0.to_set().insert(s[j]).contains(y) by {
        if s1.to_set().contains(y) {
            let t = choose|t: int| 0 <= t < s1.len() && s1[t] == y;
            if t < j {
                assert(s.take(j)[t] == y);
            }
        }
        if s0.to_set().contains(y) {
            let t = choose|t: int| 0 <= t < s0.len() && s0[t] == y;
            assert(s1[t] == y);
        }
        if y == s[j] {
            assert(s.take(j + 1)[j] == y);
        }
    }
    assert(s.take(j + 1).to_set() =~= s.take(j).to_set().insert(s[j]));
}

/// The resources while `hi` is being merged into `lo`: `hi` is gone; `lo`
/// has gained the terms `ti`, `tb`, `tl`, and keeps its differences; each
/// resource of `done` differs from `lo` in place of `hi`.
pub open spec fn merging(
    o: Map<usize, ResourceView>,
    lo: u32,
    hi: u32,
    done: Set<u32>,
    ti: Set<u32>,
    tb: Set<u32>,
    tl: Set<u32>,
) -> Map<usize, ResourceView> {
    let l = o[lo as usize];
    Map::new(
        |i: usize| o.contains_key(i) && i != hi as usize,
        |i: usize|
            if i == lo as usize {
                (l.0.union(ti), l.1.union(tb), l.2.union(tl), l.3)
            } else if done.contains(i as u32) {
                with_differences(o[i], o[i].3.remove(hi).insert(lo))
            } else {
                o[i]
            },
    )
}

/// The resources when merging `hi` into `lo` stops at a difference
/// between them: `hi` is gone, and some of the resources it differs from
/// differ from `lo` in its place.
pub open spec fn merge_interrupted(o: Map<usize, ResourceView>, f: Map<usize, ResourceView>, lo: u32, hi: u32) -> bool {
    exists|done: Set<u32>|
        #![trigger merging(o, lo, hi, done, Set::empty(), Set::empty(), Set::empty())]
        done.subset_of(o[hi as usize].3.remove(lo)) && f == merging(o, lo, hi, done, Set::empty(), Set::empty(), Set::empty())
}

/// The resources once `hi` is merged into `lo`.
pub open spec fn merged(o: Map<usize, ResourceView>, lo: u32, hi: u32) -> Map<usize, ResourceView> {
    let h = o[hi as usize];
    merging(o, lo, hi, h.3, h.0, h.1, h.2)
}

impl Interpretation {
    /// Merges the two resources into the one of smaller identifier, which
    /// takes the terms of the other; each resource the other differs from
    /// then differs from the one kept instead, the kept one's own
    /// differences staying as they are. Returns the identifier kept, then
    /// the one removed. The removed one differing from the kept one is a
    /// contradiction, found as its differences are gone through: by then it
    /// is removed and some of the others are updated.
    pub fn merge(&mut self, a: Id, b: Id) -> (r: Result<(Id, Id), Contradiction>)
        requires
            old(self).wf(),
            old(self).resources().contains_key(a.0 as usize),
            old(self).resources().contains_key(b.0 as usize),
            a.0 < b.0 ==> forall|x: u32|
                #[trigger] old(self).resources()[b.0 as usize].3.contains(x) ==> old(self).resources().contains_key(x as usize),
            b.0 < a.0 ==> forall|x: u32|
                #[trigger] old(self).resources()[a.0 as usize].3.contains(x) ==> old(self).resources().contains_key(x as usize),
        ensures
            r is Ok ==> final(self).wf(),
            final(self).slots() == old(self).slots(),
            a == b ==> r == Ok::<(Id, Id), Contradiction>((a, b)) && final(self).resources() == old(self).resources()
                && forall|t: Term| final(self).interpretation_of(t) == old(self).interpretation_of(t),
            a != b ==> {
                let lo = if a.0 < b.0 { a } else { b };
                let hi = if a.0 < b.0 { b } else { a };
                match r {
                    Err(c) => {
                        &&& c.0 == lo && c.1 == hi
                        &&& old(self).resources()[hi.0 as usize].3.contains(lo.0)
                        &&& merge_interrupted(old(self).resources(), final(self).resources(), lo.0, hi.0)
                        &&& forall|t: Term| final(self).interpretation_of(t) == old(self).interpretation_of(t)
                    },
                    Ok((x, y)) => {
                        &&& x == lo && y == hi
                        &&& !old(self).resources()[hi.0 as usize].3.contains(lo.0)
                        &&& final(self).resources() == merged(old(self).resources(), lo.0, hi.0)
                        &&& forall|t: Term| #[trigger] final(self).interpretation_of(t) == if denotes(
                            old(self).resources()[hi.0 as usize],
                            t,
                        ) {
                            Some(lo)
                        } else {
                            old(self).interpretation_of(t)
                        }
                    },
                }
            },
    {
        if a == b {
            return Ok((a, b));
        }
        let (lo, hi) = if b.0 < a.0 {
            (b, a)
        } else {
            (a, b)
        };
        let ghost o = self.resources();
        let ghost h = o[hi.0 as usize];
        let ghost l = o[lo.0 as usize];
        let ghost s0 = *self;
        let resource = self.resources.remove(hi.index()).unwrap();
        proof {
            assert(l.0.union(Set::empty()) =~= l.0);
            assert(l.1.union(Set::empty()) =~= l.1);
            assert(l.2.union(Set::empty()) =~= l.2);
            assert(l.3.union(Set::empty()) =~= l.3);
            assert(self.resources() =~= merging(o, lo.0, hi.0, Set::empty(), Set::empty(), Set::empty(), Set::empty()));
        }
        let diffs = key_set_to_vec(&resource.different_from);
        let ghost mut done: Set<u32> = Set::empty();
        let mut j: usize = 0;
        while j < diffs.len()
            invariant
                self.resources.wf(),
                self.slots() == s0.slots(),
                self.same_terms(&s0),
                s0.wf(),
                o == s0.resources(),
                h == o[hi.0 as usize],
                l == o[lo.0 as usize],
                o.contains_key(lo.0 as usize),
                o.contains_key(hi.0 as usize),
                lo.0 != hi.0,
                lo.0 < hi.0,
                a != b,
                (lo == a && hi == b) || (lo == b && hi == a),
                s0 == *old(self),
                forall|x: u32| #[trigger] h.3.contains(x) ==> o.contains_key(x as usize),
                forall|t: int| 0 <= t < j ==> diffs@[t] != lo.0,
                j <= diffs@.len(),
                diffs@.no_duplicates(),
                forall|x: u32| h.3.contains(x) <==> diffs@.contains(x),
                done == diffs@.take(j as int).to_set(),
                self.resources() == merging(o, lo.0, hi.0, done, Set::empty(), Set::empty(), Set::empty()),
            decreases diffs@.len() - j,
        {
            let x = diffs[j];
            if x == lo.0 {
                proof {
                    assert(diffs@.contains(x));
                    assert forall|y: u32| done.contains(y) implies h.3.remove(lo.0).contains(y) by {
                        let t = choose|t: int| 0 <= t < j && diffs@.take(j as int)[t] == y;
                        assert(diffs@[t] == y);
                        assert(diffs@.contains(y));
                    }
                    assert(done.subset_of(h.3.remove(lo.0)));
                    assert(h.3.contains(lo.0));
                    assert(o == old(self).resources());
                    assert(self.resources() == merging(old(self).resources(), lo.0, hi.0, done, Set::empty(), Set::empty(), Set::empty()));
                    assert forall|t: Term| self.interpretation_of(t) == old(self).interpretation_of(t) by {
                        assert(self.same_terms(old(self)));
                    }
                    assert(merge_interrupted(old(self).resources(), self.resources(), lo.0, hi.0));
                    assert(lo == (if a.0 < b.0 { a } else { b }));
                    assert(hi == (if a.0 < b.0 { b } else { a }));
                }
                return Err(Contradiction(lo, hi));
            }
            proof {
                assert(diffs@.contains(x));
                assert(h.3.contains(x));
                assert(!done.contains(x)) by {
                    if done.contains(x) {
                        let t = choose|t: int| 0 <= t < j && diffs@.take(j as int)[t] == x;
                        assert(diffs@[t] == diffs@[j as int]);
                    }
                }
            }
            let ghost r0 = self.resources();
            proof {
                assert(s0.resources()[hi.0 as usize].3.contains(x));
                assert(o.contains_key(x as usize) && x != hi.0 && x != lo.0);
            }
            self.resource_update_differences(x as usize, Some(hi.0), lo.0);
            proof {
                let done0 = done;
                done = done.insert(x);
                lemma_take_to_set(diffs@, j as int);
                let m = merging(o, lo.0, hi.0, done, Set::empty(), Set::empty(), Set::empty());
                let res = self.resources();
                assert(res.dom() =~= m.dom());
                assert forall|i: usize| res.contains_key(i) implies res[i] == m[i] by {
                    if i == lo.0 as usize {
                        assert(res[i] == r0[i]);
                        assert(res[i] == m[i]);
                    } else if i == x as usize {
                        assert(r0[i] == o[i]);
                        assert(res[i] == m[i]);
                    } else {
                        assert(o.contains_key(i));
                        assert(i as u32 != x);
                    }
                }
                assert(self.resources() =~= m);
            }
            j = j + 1;
        }
        proof {
            assert(done =~= h.3) by {
                assert(diffs@.take(j as int) =~= diffs@);
            }
            assert(!h.3.contains(lo.0)) by {
                if h.3.contains(lo.0) {
                    assert(diffs@.contains(lo.0));
                    let t = choose|t: int| 0 <= t < diffs@.len() && diffs@[t] == lo.0;
                }
            }
        }
        let iris = key_set_to_vec(&resource.as_iri);
        self.absorb_terms(&iris, TermKind::Iri, lo);
        let blanks = key_set_to_vec(&resource.as_blank);
        self.absorb_terms(&blanks, TermKind::Blank, lo);
        let literals = key_set_to_vec(&resource.as_literal);
        self.absorb_terms(&literals, TermKind::Literal, lo);
        proof {
            assert(iris@.to_set() =~= h.0);
            assert(blanks@.to_set() =~= h.1);
            assert(literals@.to_set() =~= h.2);
            assert(l.0.union(Set::empty()).union(h.0) =~= l.0.union(h.0));
            assert(l.1.union(Set::empty()).union(h.1) =~= l.1.union(h.1));
            assert(l.2.union(Set::empty()).union(h.2) =~= l.2.union(h.2));
            let res = self.resources();
            let m = merged(o, lo.0, hi.0);
            assert(res =~= m);
            assert forall|t: Term| #[trigger] self.interpretation_of(t) == if denotes(h, t) {
                Some(lo)
            } else {
                s0.interpretation_of(t)
            } by {
                match t {
                    Term::Iri(k) => {
                        assert(self.kind_map(TermKind::Iri) == redirected(s0.kind_map(TermKind::Iri), h.0, lo));
                    },
                    Term::Blank(k) => {
                        assert(self.kind_map(TermKind::Blank) == redirected(s0.kind_map(TermKind::Blank), h.1, lo));
                    },
                    Term::Literal(k) => {
                        assert(self.kind_map(TermKind::Literal) == redirected(s0.kind_map(TermKind::Literal), h.2, lo));
                    },
                }
            }
            assert forall|t: Term| #![trigger self.interpretation_of(t)] self.interpreted_ok(t) by {
                assert(s0.interpreted_ok(t));
                if !denotes(h, t) {
                    if let Some(c) = s0.interpretation_of(t) {
                        assert(c.0 != hi.0);
                    }
                }
            }
            assert forall|i: usize, x: u32| res.contains_key(i) && #[trigger] res[i].3.contains(x) implies x != i as u32 by {
                assert(o.contains_key(i));
                if i == lo.0 as usize {
                    assert(o[lo.0 as usize].3.contains(x));
                } else if h.3.contains(i as u32) {
                    if x != lo.0 {
                        assert(o[i].3.contains(x));
                    }
                } else {
                    assert(o[i].3.contains(x));
                }
            }
        }
        Ok((lo, hi))
    }
}

impl Interpretation {
    spec fn kind_map(&self, kind: TermKind) -> Map<u32, Id> {
        match kind {
            TermKind::Iri => id_map_entries(self.by_iri),
            TermKind::Blank => id_map_entries(self.by_blank),
            TermKind::Literal => id_map_entries(self.by_literal),
        }
    }

    /// Makes the terms of the given kind denote `a`, and be interpreted as
    /// it.
    fn absorb_terms(&mut self, terms: &Vec<u32>, kind: TermKind, a: Id)
        requires
            old(self).resources.wf(),
            old(self).resources().contains_key(a.0 as usize),
        ensures
            final(self).resources.wf(),
            final(self).slots() == old(self).slots(),
            final(self).resources() == old(self).resources().insert(
                a.0 as usize,
                add_terms(old(self).resources()[a.0 as usize], kind, terms@.to_set()),
            ),
            final(self).kind_map(kind) == redirected(old(self).kind_map(kind), terms@.to_set(), a),
            forall|k2: TermKind| k2 != kind ==> #[trigger] final(self).kind_map(k2) == old(self).kind_map(k2),
    {
        proof {
            let ra = old(self).resources()[a.0 as usize];
            assert(ra.0.union(Set::empty()) =~= ra.0);
            assert(ra.1.union(Set::empty()) =~= ra.1);
            assert(ra.2.union(Set::empty()) =~= ra.2);
            assert(terms@.take(0).to_set() =~= Set::<u32>::empty());
            assert(old(self).resources().insert(a.0 as usize, add_terms(ra, kind, Set::empty())) =~= old(self).resources());
            assert(redirected(old(self).kind_map(kind), Set::empty(), a) =~= old(self).kind_map(kind));
        }
        let mut j: usize = 0;
        while j < terms.len()
            invariant
                self.resources.wf(),
                self.slots() == old(self).slots(),
                j <= terms@.len(),
                old(self).resources().contains_key(a.0 as usize),
                self.resources() == old(self).resources().insert(
                    a.0 as usize,
                    add_terms(old(self).resources()[a.0 as usize], kind, terms@.take(j as int).to_set()),
                ),
                self.kind_map(kind) == redirected(old(self).kind_map(kind), terms@.take(j as int).to_set(), a),
                forall|k2: TermKind| k2 != kind ==> #[trigger] self.kind_map(k2) == old(self).kind_map(k2),
            decreases terms@.len() - j,
        {
            let k = terms[j];
            let ghost m0 = self.kind_map(kind);
            let ghost r0 = self.resources();
            let ghost s0 = *self;
            match kind {
                TermKind::Iri => {
                    id_map_insert(&mut self.by_iri, k, a);
                    self.resource_add_term(a.index(), Term::Iri(k));
                },
                TermKind::Blank => {
                    id_map_insert(&mut self.by_blank, k, a);
                    self.resource_add_term(a.index(), Term::Blank(k));
                },
                TermKind::Literal => {
                    id_map_insert(&mut self.by_literal, k, a);
                    self.resource_add_term(a.index(), Term::Literal(k));
                },
            }
            proof {
                let d0 = terms@.take(j as int).to_set();
                lemma_take_to_set(terms@, j as int);
                let d1 = terms@.take(j + 1).to_set();
                let ra = old(self).resources()[a.0 as usize];
                assert(ra.0.union(d0).insert(k) =~= ra.0.union(d1));
                assert(ra.1.union(d0).insert(k) =~= ra.1.union(d1));
                assert(ra.2.union(d0).insert(k) =~= ra.2.union(d1));
                assert(self.resources() =~= old(self).resources().insert(a.0 as usize, add_terms(ra, kind, d1)));
                assert(self.kind_map(kind) =~= redirected(old(self).kind_map(kind), d1, a));
                assert forall|k2: TermKind| k2 != kind implies #[trigger] self.kind_map(k2) == old(self).kind_map(k2) by {
                    assert(s0.kind_map(k2) == old(self).kind_map(k2));
                    match k2 {
                        TermKind::Iri => {},
                        TermKind::Blank => {},
                        TermKind::Literal => {},
                    }
                }
            }
            j = j + 1;
        }
        proof {
            assert(terms@.take(j as int) =~= terms@);
        }
    }
}

/// Whether `f` is `o` after `insert_term(term)` gave `id`: `term` denotes
/// `id`; if it denoted a resource already, that is `id` and nothing
/// changes, else `id` is a new resource denoted by `term` alone.
pub open spec fn term_inserted(o: Interpretation, f: Interpretation, term: Term, id: Id) -> bool {
    &&& f.interpretation_of(term) == Some(id)
    &&& match o.interpretation_of(term) {
        Some(old_id) => id == old_id && f.resources() == o.resources() && f.slots() == o.slots(),
        None => {
            &&& !o.resources().contains_key(id.0 as usize)
            &&& f.resources() == o.resources().insert(id.0 as usize, with_term(empty_resource(), term))
        },
    }
}

/// Inserting a term a second time gives the same resource and changes
/// nothing; the first time, the term denotes the resource it gives, which
/// is new exactly when the term denoted none before.
pub proof fn lemma_insert_term_twice(o: Interpretation, m: Interpretation, f: Interpretation, term: Term, i1: Id, i2: Id)
    requires
        o.wf(),
        term_inserted(o, m, term, i1),
        term_inserted(m, f, term, i2),
    ensures
        i2 == i1,
        f.resources() == m.resources(),
        f.slots() == m.slots(),
        m.interpretation_of(term) == Some(i1),
        o.interpretation_of(term) is None <==> !o.resources().contains_key(i1.0 as usize),
{
    assert(o.interpreted_ok(term));
}

impl Interpretation {
    /// Whether `merge` can be called on the two resources: both exist and,
    /// when they are distinct, so does every resource that the one of
    /// greater identifier differs from.
    pub open spec fn mergeable(&self, a: Id, b: Id) -> bool {
        &&& self.resources().contains_key(a.0 as usize)
        &&& self.resources().contains_key(b.0 as usize)
        &&& (a != b ==> self.differences_exist(if a.0 < b.0 { b } else { a }))
    }

    /// Whether every resource that `id` differs from exists.
    pub open spec fn differences_exist(&self, id: Id) -> bool {
        forall|x: u32| #[trigger] self.resources()[id.0 as usize].3.contains(x) ==> self.resources().contains_key(x as usize)
    }

    /// Whether `merge` can be called on the two resources.
    pub fn can_merge(&self, a: Id, b: Id) -> (r: bool)
        requires
            self.wf(),
        ensures
            r == self.mergeable(a, b),
    {
        if self.get(a).is_none() || self.get(b).is_none() {
            return false;
        }
        if a == b {
            return true;
        }
        let hi = if a.0 < b.0 { b } else { a };
        let res = self.get(hi).unwrap();
        let ds = key_set_to_vec(&res.different_from);
        let mut j: usize = 0;
        while j < ds.len()
            invariant
                j <= ds@.len(),
                a != b,
                hi == (if a.0 < b.0 { b } else { a }),
                self.resources().contains_key(hi.0 as usize),
                res@ == self.resources()[hi.0 as usize],
                forall|x: u32| key_set_elements(res.different_from).contains(x) <==> ds@.contains(x),
                forall|k: int| 0 <= k < j ==> self.resources().contains_key((#[trigger] ds@[k]) as usize),
            decreases ds@.len() - j,
        {
            if self.get(Id(ds[j])).is_none() {
                proof {
                    assert(ds@.contains(ds@[j as int]));
                    let x = ds@[j as int];
                    assert(self.resources()[hi.0 as usize].3.contains(x));
                    assert(!self.resources().contains_key(x as usize));
                    assert(!self.differences_exist(hi));
                }
                return false;
            }
            j = j + 1;
        }
        proof {
            assert forall|x: u32| #[trigger] self.resources()[hi.0 as usize].3.contains(x) implies self.resources().contains_key(
                x as usize,
            ) by {
                let k = ds@.index_of(x);
                assert(ds@[k] == x);
            }
        }
        true
    }
}

impl Interpretation {
    /// The interpretation of every term of the quad, if they all have one.
    pub fn quad_interpretation(&self, quad: uninterpreted::Quad) -> (r: Option<Quad>)
        ensures
            match r {
                Some(q) => {
                    &&& self.interpretation_of(quad.0) == Some(q.0)
                    &&& self.interpretation_of(quad.1) == Some(q.1)
                    &&& self.interpretation_of(quad.2) == Some(q.2)
                    &&& match quad.3 {
                        Some(g) => self.interpretation_of(g) is Some && q.3 == self.interpretation_of(g),
                        None => q.3 is None,
                    }
                },
                None => self.interpretation_of(quad.0) is None || self.interpretation_of(quad.1) is None
                    || self.interpretation_of(quad.2) is None || (quad.3 matches Some(g)
                    && self.interpretation_of(g) is None),
            },
    {
        let s = match self.term_interpretation(quad.0) {
            Some(s) => s,
            None => return None,
        };
        let p = match self.term_interpretation(quad.1) {
            Some(p) => p,
            None => return None,
        };
        let o = match self.term_interpretation(quad.2) {
            Some(o) => o,
            None => return None,
        };
        let g = match quad.3 {
            Some(g) => match self.term_interpretation(g) {
                Some(g) => Some(g),
                None => return None,
            },
            None => None,
        };
        Some(Quad(s, p, o, g))
    }

    /// Interprets every term of the quad, creating the resources of the
    /// terms not interpreted yet.
    pub fn insert_quad(&mut self, quad: uninterpreted::Quad) -> (r: Quad)
        requires
            old(self).wf(),
            old(self).slots() + 4 <= u32::MAX,
        ensures
            final(self).wf(),
            final(self).slots() <= old(self).slots() + 4,
            final(self).interpretation_of(quad.0) == Some(r.0),
            final(self).interpretation_of(quad.1) == Some(r.1),
            final(self).interpretation_of(quad.2) == Some(r.2),
            match quad.3 {
                Some(g) => final(self).interpretation_of(g) == r.3 && r.3 is Some,
                None => r.3 is None,
            },
            forall|t: Term| #[trigger] old(self).interpretation_of(t) is Some ==> final(self).interpretation_of(t)
                == old(self).interpretation_of(t),
            forall|i: usize| #[trigger] old(self).resources().contains_key(i) ==> final(self).resources().contains_key(i)
                && final(self).resources()[i] == old(self).resources()[i],
    {
        let s = self.insert_term(quad.0);
        let ghost s1 = *self;
        let p = self.insert_term(quad.1);
        let ghost s2 = *self;
        let o = self.insert_term(quad.2);
        let ghost s3 = *self;
        let g = match quad.3 {
            Some(g) => Some(self.insert_term(g)),
            None => None,
        };
        proof {
            assert(self.interpretation_of(quad.0) == Some(s)) by {
                if quad.1 != quad.0 {
                    assert(s2.interpretation_of(quad.0) == Some(s));
                }
            }
        }
        Quad(s, p, o, g)
    }
}

impl Interpretation {
    /// The terms denoting the resource: its IRIs, then its blank node
    /// identifiers, then its literals.
    pub fn terms_of(&self, id: Id) -> (r: Vec<Term>)
        requires
            self.wf(),
            self.resources().contains_key(id.0 as usize),
        ensures
            r@.no_duplicates(),
            forall|t: Term| #[trigger] r@.contains(t) <==> denotes(self.resources()[id.0 as usize], t),
    {
        let res = self.resources.get(id.index()).unwrap();
        let iris = key_set_to_vec(&res.as_iri);
        let blanks = key_set_to_vec(&res.as_blank);
        let literals = key_set_to_vec(&res.as_literal);
        let mut r: Vec<Term> = Vec::new();
        let mut j: usize = 0;
        while j < iris.len()
            invariant
                j <= iris@.len(),
                r@.len() == j,
                forall|t: int| 0 <= t < j ==> r@[t] == Term::Iri(iris@[t]),
            decreases iris@.len() - j,
        {
            r.push(Term::Iri(iris[j]));
            j = j + 1;
        }
        let mut j: usize = 0;
        while j < blanks.len()
            invariant
                j <= blanks@.len(),
                r@.len() == iris@.len() + j,
                forall|t: int| 0 <= t < iris@.len() ==> r@[t] == Term::Iri(iris@[t]),
                forall|t: int| 0 <= t < j ==> r@[iris@.len() + t] == Term::Blank(blanks@[t]),
            decreases blanks@.len() - j,
        {
            r.push(Term::Blank(blanks[j]));
            j = j + 1;
        }
        let mut j: usize = 0;
        while j < literals.len()
            invariant
                j <= literals@.len(),
                r@.len() == iris@.len() + blanks@.len() + j,
                forall|t: int| 0 <= t < iris@.len() ==> r@[t] == Term::Iri(iris@[t]),
                forall|t: int| 0 <= t < blanks@.len() ==> r@[iris@.len() + t] == Term::Blank(blanks@[t]),
                forall|t: int| 0 <= t < j ==> r@[iris@.len() + blanks@.len() + t] == Term::Literal(literals@[t]),
            decreases literals@.len() - j,
        {
            r.push(Term::Literal(literals[j]));
            j = j + 1;
        }
        proof {
            let ni = iris@.len();
            let nb = blanks@.len();
            assert forall|a: int, b: int| 0 <= a < b < r@.len() implies r@[a] != r@[b] by {
                if a < ni {
                    assert(r@[a] == Term::Iri(iris@[a]));
                } else if a < ni + nb {
                    assert(r@[a] == Term::Blank(blanks@[a - ni]));
                } else {
                    assert(r@[a] == Term::Literal(literals@[a - ni - nb]));
                }
                if b < ni {
                    assert(r@[b] == Term::Iri(iris@[b]));
                    assert(iris@[a] != iris@[b]);
                } else if b < ni + nb {
                    assert(r@[b] == Term::Blank(blanks@[b - ni]));
                    if a >= ni {
                        assert(blanks@[a - ni] != blanks@[b - ni]);
                    }
                } else {
                    assert(r@[b] == Term::Literal(literals@[b - ni - nb]));
                    if a >= ni + nb {
                        assert(literals@[a - ni - nb] != literals@[b - ni - nb]);
                    }
                }
            }
            assert forall|t: Term| #[trigger] r@.contains(t) <==> denotes(res@, t) by {
                if r@.contains(t) {
                    let x = choose|x: int| 0 <= x < r@.len() && r@[x] == t;
                    if x < ni {
                        assert(iris@.contains(iris@[x]));
                    } else if x < ni + nb {
                        assert(blanks@.contains(blanks@[x - ni]));
                    } else {
                        assert(literals@.contains(literals@[x - ni - nb]));
                    }
                }
                if denotes(res@, t) {
                    match t {
                        Term::Iri(k) => {
                            assert(iris@.contains(k));
                            let x = choose|x: int| 0 <= x < ni && iris@[x] == k;
                            assert(r@[x] == t);
                        },
                        Term::Blank(k) => {
                            assert(blanks@.contains(k));
                            let x = choose|x: int| 0 <= x < nb && blanks@[x] == k;
                            assert(r@[ni + x] == t);
                        },
                        Term::Literal(k) => {
                            assert(literals@.contains(k));
                            let x = choose|x: int| 0 <= x < literals@.len() && literals@[x] == k;
                            assert(r@[ni + nb + x] == t);
                        },
                    }
                }
            }
        }
        r
    }

    /// Every triple of terms denoting the subject, predicate and object.
    pub fn uninterpreted_triples_of(&self, triple: Triple) -> (r: Vec<uninterpreted::Triple>)
        requires
            self.wf(),
            self.resources().contains_key(triple.0.0 as usize),
            self.resources().contains_key(triple.1.0 as usize),
            self.resources().contains_key(triple.2.0 as usize),
        ensures
            r@.no_duplicates(),
            forall|t: uninterpreted::Triple| #[trigger] r@.contains(t) <==> {
                &&& denotes(self.resources()[triple.0.0 as usize], t.0)
                &&& denotes(self.resources()[triple.1.0 as usize], t.1)
                &&& denotes(self.resources()[triple.2.0 as usize], t.2)
            },
    {
        let ss = self.terms_of(triple.0);
        let ps = self.terms_of(triple.1);
        let os = self.terms_of(triple.2);
        let mut r: Vec<uninterpreted::Triple> = Vec::new();
        let mut i: usize = 0;
        while i < ss.len()
            invariant
                i <= ss@.len(),
                ss@.no_duplicates(),
                ps@.no_duplicates(),
                os@.no_duplicates(),
                r@.no_duplicates(),
                forall|t: uninterpreted::Triple| #[trigger] r@.contains(t) <==> {
                    &&& exists|a: int| 0 <= a < i && ss@[a] == t.0
                    &&& ps@.contains(t.1)
                    &&& os@.contains(t.2)
                },
            decreases ss@.len() - i,
        {
            let mut j: usize = 0;
            while j < ps.len()
                invariant
                    i < ss@.len(),
                    j <= ps@.len(),
                    ss@.no_duplicates(),
                    ps@.no_duplicates(),
                    os@.no_duplicates(),
                    r@.no_duplicates(),
                    forall|t: uninterpreted::Triple| #[trigger] r@.contains(t) <==> {
                        ||| (exists|a: int| 0 <= a < i && ss@[a] == t.0) && ps@.contains(t.1) && os@.contains(t.2)
                        ||| t.0 == ss@[i as int] && (exists|b: int| 0 <= b < j && ps@[b] == t.1) && os@.contains(t.2)
                    },
                decreases ps@.len() - j,
            {
                let mut k: usize = 0;
                while k < os.len()
                    invariant
                        i < ss@.len(),
                        j < ps@.len(),
                        k <= os@.len(),
                        ss@.no_duplicates(),
                        ps@.no_duplicates(),
                        os@.no_duplicates(),
                        r@.no_duplicates(),
                        forall|t: uninterpreted::Triple| #[trigger] r@.contains(t) <==> {
                            ||| (exists|a: int| 0 <= a < i && ss@[a] == t.0) && ps@.contains(t.1) && os@.contains(t.2)
                            ||| t.0 == ss@[i as int] && (exists|b: int| 0 <= b < j && ps@[b] == t.1) && os@.contains(t.2)
                            ||| t.0 == ss@[i as int] && t.1 == ps@[j as int] && (exists|c: int| 0 <= c < k && os@[c] == t.2)
                        },
                    decreases os@.len() - k,
                {
                    let t = uninterpreted::Triple(ss[i], ps[j], os[k]);
                    proof {
                        assert(!r@.contains(t)) by {
                            if r@.contains(t) {
                                if exists|a: int| 0 <= a < i && ss@[a] == t.0 {
                                    let a = choose|a: int| 0 <= a < i && ss@[a] == t.0;
                                    assert(ss@[a] != ss@[i as int]);
                                } else if exists|b: int| 0 <= b < j && ps@[b] == t.1 {
                                    let b = choose|b: int| 0 <= b < j && ps@[b] == t.1;
                                    assert(ps@[b] != ps@[j as int]);
                                } else {
                                    let c = choose|c: int| 0 <= c < k && os@[c] == t.2;
                                    assert(os@[c] != os@[k as int]);
                                }
                            }
                        }
                    }
                    let ghost r0 = r@;
                    r.push(t);
                    proof {
                        assert forall|x: uninterpreted::Triple| #[trigger] r@.contains(x) <==> r0.contains(x) || x == t by {
                            if r@.contains(x) {
                                let y = choose|y: int| 0 <= y < r@.len() && r@[y] == x;
                                if y < r0.len() {
                                    assert(r0[y] == x);
                                }
                            }
                            if r0.contains(x) {
                                let y = choose|y: int| 0 <= y < r0.len() && r0[y] == x;
                                assert(r@[y] == x);
                            }
                            if x == t {
                                assert(r@[r0.len() as int] == x);
                            }
                        }
                        assert forall|x: uninterpreted::Triple| #[trigger] r@.contains(x) <==> {
                            ||| (exists|a: int| 0 <= a < i && ss@[a] == x.0) && ps@.contains(x.1) && os@.contains(x.2)
                            ||| x.0 == ss@[i as int] && (exists|b: int| 0 <= b < j && ps@[b] == x.1) && os@.contains(x.2)
                            ||| x.0 == ss@[i as int] && x.1 == ps@[j as int] && (exists|c: int| 0 <= c < k + 1 && os@[c] == x.2)
                        } by {
                            if x == t {
                                assert(os@[k as int] == x.2);
                            }
                            if x.0 == ss@[i as int] && x.1 == ps@[j as int] && (exists|c: int| 0 <= c < k + 1 && os@[c] == x.2) {
                                let c = choose|c: int| 0 <= c < k + 1 && os@[c] == x.2;
                                if c == k {
                                    assert(x == t);
                                }
                            }
                        }
                    }
                    k = k + 1;
                }
                proof {
                    assert forall|x: uninterpreted::Triple| #[trigger] r@.contains(x) <==> {
                        ||| (exists|a: int| 0 <= a < i && ss@[a] == x.0) && ps@.contains(x.1) && os@.contains(x.2)
                        ||| x.0 == ss@[i as int] && (exists|b: int| 0 <= b < j + 1 && ps@[b] == x.1) && os@.contains(x.2)
                    } by {
                        if x.0 == ss@[i as int] && x.1 == ps@[j as int] && os@.contains(x.2) {
                            let c = choose|c: int| 0 <= c < os@.len() && os@[c] == x.2;
                            assert(exists|c: int| 0 <= c < k && os@[c] == x.2);
                        }
                        if x.0 == ss@[i as int] && (exists|b: int| 0 <= b < j + 1 && ps@[b] == x.1) && os@.contains(x.2) {
                            let b = choose|b: int| 0 <= b < j + 1 && ps@[b] == x.1;
                            if b < j {
                                assert(exists|b: int| 0 <= b < j && ps@[b] == x.1);
                            }
                        }
                        if x.0 == ss@[i as int] && x.1 == ps@[j as int] && (exists|c: int| 0 <= c < k && os@[c] == x.2) {
                            let c = choose|c: int| 0 <= c < k && os@[c] == x.2;
                            assert(os@.contains(os@[c]));
                        }
                    }
                }
                j = j + 1;
            }
            proof {
                assert forall|x: uninterpreted::Triple| #[trigger] r@.contains(x) <==> {
                    &&& exists|a: int| 0 <= a < i + 1 && ss@[a] == x.0
                    &&& ps@.contains(x.1)
                    &&& os@.contains(x.2)
                } by {
                    if x.0 == ss@[i as int] && ps@.contains(x.1) && os@.contains(x.2) {
                        let b = choose|b: int| 0 <= b < ps@.len() && ps@[b] == x.1;
                        assert(exists|b: int| 0 <= b < j && ps@[b] == x.1);
                    }
                    if (exists|a: int| 0 <= a < i + 1 && ss@[a] == x.0) && ps@.contains(x.1) && os@.contains(x.2) {
                        let a = choose|a: int| 0 <= a < i + 1 && ss@[a] == x.0;
                        if a < i {
                            assert(exists|a: int| 0 <= a < i && ss@[a] == x.0);
                        }
                    }
                    if x.0 == ss@[i as int] && (exists|b: int| 0 <= b < j && ps@[b] == x.1) && os@.contains(x.2) {
                        let b = choose|b: int| 0 <= b < j && ps@[b] == x.1;
                        assert(ps@.contains(ps@[b]));
                        assert(exists|a: int| 0 <= a < i + 1 && ss@[a] == x.0);
                    }
                }
            }
            i = i + 1;
        }
        proof {
            assert forall|t: uninterpreted::Triple| #[trigger] r@.contains(t) <==> {
                &&& denotes(self.resources()[triple.0.0 as usize], t.0)
                &&& denotes(self.resources()[triple.1.0 as usize], t.1)
                &&& denotes(self.resources()[triple.2.0 as usize], t.2)
            } by {
                if ss@.contains(t.0) {
                    let a = choose|a: int| 0 <= a < ss@.len() && ss@[a] == t.0;
                    assert(exists|a: int| 0 <= a < i && ss@[a] == t.0);
                }
                if exists|a: int| 0 <= a < i && ss@[a] == t.0 {
                    let a = choose|a: int| 0 <= a < i && ss@[a] == t.0;
                    assert(ss@.contains(ss@[a]));
                }
            }
        }
        r
    }
}

/// Whether the optional graph term `g` denotes the optional graph resource
/// `id` of `res`.
pub open spec fn denotes_graph(res: Map<usize, ResourceView>, id: Option<Id>, g: Option<Term>) -> bool {
    match (id, g) {
        (None, None) => true,
        (Some(i), Some(t)) => denotes(res[i.0 as usize], t),
        _ => false,
    }
}

impl Interpretation {
    /// Every quad of terms denoting the subject, predicate, object and
    /// graph of the quad.
    pub fn uninterpreted_quads_of(&self, quad: Quad) -> (r: Vec<uninterpreted::Quad>)
        requires
            self.wf(),
            self.resources().contains_key(quad.0.0 as usize),
            self.resources().contains_key(quad.1.0 as usize),
            self.resources().contains_key(quad.2.0 as usize),
            quad.3 matches Some(g) ==> self.resources().contains_key(g.0 as usize),
        ensures
            forall|q: uninterpreted::Quad| #[trigger] r@.contains(q) <==> {
                &&& denotes(self.resources()[quad.0.0 as usize], q.0)
                &&& denotes(self.resources()[quad.1.0 as usize], q.1)
                &&& denotes(self.resources()[quad.2.0 as usize], q.2)
                &&& denotes_graph(self.resources(), quad.3, q.3)
            },
    {
        let triples = self.uninterpreted_triples_of(Triple(quad.0, quad.1, quad.2));
        let mut graphs: Vec<Option<Term>> = Vec::new();
        match quad.3 {
            Some(g) => {
                let gs = self.terms_of(g);
                let mut k: usize = 0;
                while k < gs.len()
                    invariant
                        k <= gs@.len(),
                        graphs@ =~= gs@.take(k as int).map_values(|t: Term| Some(t)),
                    decreases gs@.len() - k,
                {
                    graphs.push(Some(gs[k]));
                    k = k + 1;
                }
                proof {
                    assert(gs@.take(k as int) =~= gs@);
                    assert forall|x: Option<Term>| #[trigger] graphs@.contains(x) <==> denotes_graph(self.resources(), quad.3, x) by {
                        if graphs@.contains(x) {
                            let a = choose|a: int| 0 <= a < graphs@.len() && graphs@[a] == x;
                            assert(gs@.contains(gs@[a]));
                        }
                        if denotes_graph(self.resources(), quad.3, x) {
                            let t = x.unwrap();
                            assert(gs@.contains(t));
                            let a = choose|a: int| 0 <= a < gs@.len() && gs@[a] == t;
                            assert(graphs@[a] == x);
                        }
                    }
                }
            },
            None => {
                graphs.push(None);
                proof {
                    assert forall|x: Option<Term>| #[trigger] graphs@.contains(x) <==> denotes_graph(self.resources(), quad.3, x) by {
                        if x is None {
                            assert(graphs@[0] == x);
                        }
                    }
                }
            },
        }
        let mut r: Vec<uninterpreted::Quad> = Vec::new();
        let mut i: usize = 0;
        while i < graphs.len()
            invariant
                i <= graphs@.len(),
                forall|q: uninterpreted::Quad| #[trigger] r@.contains(q) <==> {
                    &&& exists|a: int| 0 <= a < i && graphs@[a] == q.3
                    &&& triples@.contains(uninterpreted::Triple(q.0, q.1, q.2))
                },
            decreases graphs@.len() - i,
        {
            let g = graphs[i];
            let mut j: usize = 0;
            while j < triples.len()
                invariant
                    i < graphs@.len(),
                    g == graphs@[i as int],
                    j <= triples@.len(),
                    forall|q: uninterpreted::Quad| #[trigger] r@.contains(q) <==> {
                        ||| (exists|a: int| 0 <= a < i && graphs@[a] == q.3) && triples@.contains(uninterpreted::Triple(q.0, q.1, q.2))
                        ||| q.3 == g && exists|b: int| 0 <= b < j && triples@[b] == uninterpreted::Triple(q.0, q.1, q.2)
                    },
                decreases triples@.len() - j,
            {
                let t = triples[j];
                let q = uninterpreted::Quad(t.0, t.1, t.2, g);
                let ghost r0 = r@;
                r.push(q);
                proof {
                    assert forall|x: uninterpreted::Quad| #[trigger] r@.contains(x) <==> {
                        ||| (exists|a: int| 0 <= a < i && graphs@[a] == x.3) && triples@.contains(uninterpreted::Triple(x.0, x.1, x.2))
                        ||| x.3 == g && exists|b: int| 0 <= b < j + 1 && triples@[b] == uninterpreted::Triple(x.0, x.1, x.2)
                    } by {
                        if r@.contains(x) {
                            let y = choose|y: int| 0 <= y < r@.len() && r@[y] == x;
                            if y < r0.len() {
                                assert(r0[y] == x);
                                assert(r0.contains(x));
                            } else {
                                assert(x == q);
                                assert(triples@[j as int] == uninterpreted::Triple(x.0, x.1, x.2));
                            }
                        }
                        if (exists|a: int| 0 <= a < i && graphs@[a] == x.3) && triples@.contains(uninterpreted::Triple(x.0, x.1, x.2)) {
                            assert(r0.contains(x));
                            let y = choose|y: int| 0 <= y < r0.len() && r0[y] == x;
                            assert(r@[y] == x);
                        }
                        if x.3 == g && exists|b: int| 0 <= b < j + 1 && triples@[b] == uninterpreted::Triple(x.0, x.1, x.2) {
                            let b = choose|b: int| 0 <= b < j + 1 && triples@[b] == uninterpreted::Triple(x.0, x.1, x.2);
                            if b < j {
                                assert(r0.contains(x));
                                let y = choose|y: int| 0 <= y < r0.len() && r0[y] == x;
                                assert(r@[y] == x);
                            } else {
                                assert(x == q);
                                assert(r@[r0.len() as int] == x);
                            }
                        }
                    }
                }
                j = j + 1;
            }
            proof {
                assert forall|x: uninterpreted::Quad| #[trigger] r@.contains(x) <==> {
                    &&& exists|a: int| 0 <= a < i + 1 && graphs@[a] == x.3
                    &&& triples@.contains(uninterpreted::Triple(x.0, x.1, x.2))
                } by {
                    if x.3 == g && triples@.contains(uninterpreted::Triple(x.0, x.1, x.2)) {
                        let b = choose|b: int| 0 <= b < triples@.len() && triples@[b] == uninterpreted::Triple(x.0, x.1, x.2);
                        assert(exists|b: int| 0 <= b < j && triples@[b] == uninterpreted::Triple(x.0, x.1, x.2));
                    }
                    if exists|a: int| 0 <= a < i + 1 && graphs@[a] == x.3 {
                        let a = choose|a: int| 0 <= a < i + 1 && graphs@[a] == x.3;
                        if a < i {
                            assert(exists|a: int| 0 <= a < i && graphs@[a] == x.3);
                        }
                    }
                    if x.3 == g && exists|b: int| 0 <= b < j && triples@[b] == uninterpreted::Triple(x.0, x.1, x.2) {
                        let b = choose|b: int| 0 <= b < j && triples@[b] == uninterpreted::Triple(x.0, x.1, x.2);
                        assert(triples@.contains(triples@[b]));
                    }
                }
            }
            i = i + 1;
        }
        proof {
            assert forall|q: uninterpreted::Quad| #[trigger] r@.contains(q) <==> {
                &&& denotes(self.resources()[quad.0.0 as usize], q.0)
                &&& denotes(self.resources()[quad.1.0 as usize], q.1)
                &&& denotes(self.resources()[quad.2.0 as usize], q.2)
                &&& denotes_graph(self.resources(), quad.3, q.3)
            } by {
                let t = uninterpreted::Triple(q.0, q.1, q.2);
                assert(triples@.contains(t) <==> (denotes(self.resources()[quad.0.0 as usize], t.0) && denotes(self.resources()[quad.1.0 as usize], t.1)
                    && denotes(self.resources()[quad.2.0 as usize], t.2)));
                if graphs@.contains(q.3) {
                    let a = choose|a: int| 0 <= a < graphs@.len() && graphs@[a] == q.3;
                    assert(exists|a: int| 0 <= a < i && graphs@[a] == q.3);
                }
                if exists|a: int| 0 <= a < i && graphs@[a] == q.3 {
                    let a = choose|a: int| 0 <= a < i && graphs@[a] == q.3;
                    assert(graphs@.contains(graphs@[a]));
                }
            }
        }
        r
    }
}

impl Interpretation {
    /// The resources with their identifiers, by increasing identifier.
    pub fn iter(&self) -> (r: Vec<(Id, &Resource)>)
        requires
            self.wf(),
        ensures
            forall|a: int, b: int| 0 <= a < b < r@.len() ==> r@[a].0.0 < r@[b].0.0,
            forall|a: int| 0 <= a < r@.len() ==> self.resources().contains_key(#[trigger] r@[a].0.0 as usize)
                && r@[a].1@ == self.resources()[r@[a].0.0 as usize],
            forall|i: usize| #[trigger] self.resources().contains_key(i) ==> exists|a: int|
                0 <= a < r@.len() && r@[a].0.0 as usize == i,
    {
        let items = self.resources.iter();
        let mut r: Vec<(Id, &Resource)> = Vec::new();
        let mut j: usize = 0;
        while j < items.len()
            invariant
                self.wf(),
                j <= items@.len(),
                r@.len() == j,
                forall|a: int, b: int| 0 <= a < b < items@.len() ==> items@[a].0 < items@[b].0,
                forall|a: int| 0 <= a < items@.len() ==> self.resources@.contains_key(#[trigger] items@[a].0)
                    && *items@[a].1 == self.resources@[items@[a].0],
                forall|a: int| 0 <= a < j ==> #[trigger] r@[a].0.0 as usize == items@[a].0 && r@[a].1 == items@[a].1,
            decreases items@.len() - j,
        {
            let (i, res) = items[j];
            proof {
                assert(self.resources@.contains_key(items@[j as int].0));
                assert(self.resources().contains_key(i));
            }
            r.push((Id(i as u32), res));
            j = j + 1;
        }
        proof {
            assert forall|i: usize| #[trigger] self.resources().contains_key(i) implies exists|a: int|
                0 <= a < r@.len() && r@[a].0.0 as usize == i by {
                assert(self.resources@.contains_key(i));
                let a = choose|a: int| 0 <= a < items@.len() && #[trigger] items@[a].0 == i;
                assert(r@[a].0.0 as usize == i);
            }
            assert forall|a: int| 0 <= a < r@.len() implies self.resources().contains_key(#[trigger] r@[a].0.0 as usize)
                && r@[a].1@ == self.resources()[r@[a].0.0 as usize] by {
                assert(self.resources@.contains_key(items@[a].0));
            }
        }
        r
    }

    /// The interpreted IRIs, with their resources, in no particular order.
    pub fn terms_by_iri(&self) -> (r: Vec<IdEntry>)
        ensures
            forall|a: int, b: int| 0 <= a < b < r@.len() ==> r@[a].0 != r@[b].0,
            forall|e: IdEntry| #[trigger] r@.contains(e) <==> self.interpretation_of(Term::Iri(e.0)) == Some(e.1),
    {
        id_map_entries_vec(&self.by_iri)
    }

    /// The interpreted literals, with their resources, in no particular
    /// order.
    pub fn terms_by_literal(&self) -> (r: Vec<IdEntry>)
        ensures
            forall|a: int, b: int| 0 <= a < b < r@.len() ==> r@[a].0 != r@[b].0,
            forall|e: IdEntry| #[trigger] r@.contains(e) <==> self.interpretation_of(Term::Literal(e.0)) == Some(e.1),
    {
        id_map_entries_vec(&self.by_literal)
    }

    /// Starts reserving identifiers for resources to be created later.
    pub fn begin_reservation(&self) -> (r: Reservation<'_>)
        requires
            self.wf(),
        ensures
            r.wf(),
            r.reserved().len() == 0,
            r.slots() == self.slots(),
    {
        Reservation { inner: self.resources.begin_reservation() }
    }
}

/// Identifiers reserved for new resources.
pub struct Reservation<'a> {
    inner: reservable_slab::Reservation<'a, Resource>,
}

impl<'a> Reservation<'a> {
    pub closed spec fn wf(&self) -> bool {
        &&& self.inner.wf()
        &&& forall|j: int| 0 <= j < self.inner.reserved().len() ==> (#[trigger] self.inner.reserved()[j]).0@ == empty_resource()
    }

    /// Identifiers reserved so far.
    pub closed spec fn reserved(&self) -> Seq<usize> {
        self.inner.reserved().map_values(|e: (Resource, usize)| e.1)
    }

    /// Slots of the interpretation the identifiers are reserved in.
    pub closed spec fn slots(&self) -> nat {
        self.inner.slab().slots()
    }

    /// Reserves an identifier for a new resource and returns it.
    pub fn new_resource(&mut self) -> (id: Id)
        requires
            old(self).wf(),
            old(self).slots() + old(self).reserved().len() < u32::MAX,
        ensures
            final(self).wf(),
            final(self).slots() == old(self).slots(),
            final(self).reserved() == old(self).reserved().push(id.0 as usize),
    {
        let i = self.inner.insert(Resource::new());
        proof {
            assert(self.reserved() =~= old(self).reserved().push(i));
        }
        Id(i as u32)
    }

    /// Ends the reservation.
    pub fn end(self) -> (r: CompletedReservation)
        requires
            self.wf(),
        ensures
            r.wf(),
            r.reserved() == self.reserved(),
    {
        CompletedReservation { inner: self.inner.end() }
    }
}

/// New resources waiting to be created at their reserved identifiers.
pub struct CompletedReservation {
    inner: reservable_slab::CompletedReservation<Resource>,
}

impl CompletedReservation {
    pub closed spec fn wf(&self) -> bool {
        forall|j: int| 0 <= j < self.inner.reserved().len() ==> (#[trigger] self.inner.reserved()[j]).0@ == empty_resource()
    }

    /// Identifiers reserved.
    pub closed spec fn reserved(&self) -> Seq<usize> {
        self.inner.reserved().map_values(|e: (Resource, usize)| e.1)
    }

    /// Creates the reserved resources, each with no term; fails if the
    /// interpretation no longer gives the reserved identifiers.
    pub fn apply(self, interpretation: &mut Interpretation) -> (r: Result<(), reservable_slab::InvalidReservation>)
        requires
            self.wf(),
            old(interpretation).wf(),
            old(interpretation).slots() + self.reserved().len() < u32::MAX,
        ensures
            final(interpretation).wf(),
            forall|t: Term| final(interpretation).interpretation_of(t) == old(interpretation).interpretation_of(t),
            r is Ok <==> forall|j: int| 0 <= j < self.reserved().len() ==> #[trigger] self.reserved()[j]
                == old(interpretation).insertion_key(j),
            r is Ok ==> final(interpretation).resources() == old(interpretation).resources().union_prefer_right(
                Map::new(|i: usize| self.reserved().contains(i), |i: usize| empty_resource()),
            ),
    {
        let ghost items = self.inner.reserved();
        let r = self.inner.apply(&mut interpretation.resources);
        proof {
            interpretation.resources.lemma_keys_below_slots();
            let o = old(interpretation).resources();
            let res = interpretation.resources();
            assert forall|i: usize| #[trigger] res.contains_key(i) && !o.contains_key(i) implies res[i] == empty_resource() by {
                let j = choose|j: int| 0 <= j < items.len() && items[j].0 == interpretation.resources@[i];
                assert(items[j].0@ == empty_resource());
            }
            assert forall|t: Term| #![trigger interpretation.interpretation_of(t)] interpretation.interpreted_ok(t) by {
                assert(old(interpretation).interpreted_ok(t));
                assert(interpretation.interpretation_of(t) == old(interpretation).interpretation_of(t));
            }
            assert forall|i: usize, x: u32| res.contains_key(i) && #[trigger] res[i].3.contains(x) implies x != i as u32 by {
                if o.contains_key(i) {
                    assert(res[i] == o[i]);
                    assert(o[i].3.contains(x));
                } else {
                    assert(res[i] == empty_resource());
                }
            }
            assert forall|j: int| 0 <= j < self.reserved().len() implies #[trigger] self.reserved()[j] == items[j].1 by {}
            let ok_slab = forall|j: int| 0 <= j < items.len() ==> #[trigger] items[j].1 == old(interpretation).resources.insertion_key(j);
            let ok_interp = forall|j: int| 0 <= j < self.reserved().len() ==> #[trigger] self.reserved()[j]
                == old(interpretation).insertion_key(j);
            assert(ok_slab <==> ok_interp) by {
                if ok_slab {
                    assert forall|j: int| 0 <= j < self.reserved().len() implies #[trigger] self.reserved()[j]
                        == old(interpretation).insertion_key(j) by {
                        assert(items[j].1 == old(interpretation).resources.insertion_key(j));
                    }
                }
                if ok_interp {
                    assert forall|j: int| 0 <= j < items.len() implies #[trigger] items[j].1 == old(interpretation).resources.insertion_key(j) by {
                        assert(self.reserved()[j] == old(interpretation).insertion_key(j));
                    }
                }
            }
            if r is Ok {
                reservable_slab::lemma_stored(items);
                let m = Map::new(|i: usize| self.reserved().contains(i), |i: usize| empty_resource());
                assert forall|i: usize| #[trigger] self.reserved().contains(i) <==> stored(items).contains_key(i) by {
                    if self.reserved().contains(i) {
                        let j = choose|j: int| 0 <= j < self.reserved().len() && self.reserved()[j] == i;
                        assert(items[j].1 == i);
                    }
                    if stored(items).contains_key(i) {
                        let j = choose|j: int| 0 <= j < items.len() && items[j].1 == i;
                        assert(self.reserved()[j] == i);
                    }
                }
                assert(res =~= o.union_prefer_right(m)) by {
                    assert forall|i: usize| #[trigger] res.contains_key(i) implies res[i] == o.union_prefer_right(m)[i] by {
                        if stored(items).contains_key(i) {
                            let j = choose|j: int| 0 <= j < items.len() && items[j] == (stored(items)[i], i);
                            assert(items[j].0@ == empty_resource());
                        }
                    }
                }
            }
        }
        r
    }
}

} // verus!
