//! How the resources of an interpretation stand for the resources of a
//! dependency's interpretation.
use vstd::prelude::*;

use crate::containers::{
    id_map_entries, id_map_get, id_map_insert, id_map_new, ids_map_entries, ids_map_get, ids_map_insert,
    ids_map_new, IdMap, IdsMap,
};
use crate::id::Id;
use crate::pattern::{canonical_of_pattern, pattern_of_canonical, Canonical, IdOrVar, Pattern};
use crate::triple::{Quad, Triple};

verus! {

/// `(x, y, z)` for each `z` of `zs`, in order.
pub open spec fn row3<X>(x: X, y: X, zs: Seq<X>) -> Seq<(X, X, X)> {
    zs.map_values(|z: X| (x, y, z))
}

/// `(x, y, z)` for each `y` of `ys` and `z` of `zs`, `y` varying slowest.
pub open spec fn plane3<X>(x: X, ys: Seq<X>, zs: Seq<X>) -> Seq<(X, X, X)>
    decreases ys.len(),
{
    if ys.len() == 0 {
        Seq::empty()
    } else {
        plane3(x, ys.drop_last(), zs) + row3(x, ys.last(), zs)
    }
}

/// Every combination `(x, y, z)` of one element of each sequence, in
/// lexicographic order: `x` varying slowest, `z` fastest.
pub open spec fn cube3<X>(xs: Seq<X>, ys: Seq<X>, zs: Seq<X>) -> Seq<(X, X, X)>
    decreases xs.len(),
{
    if xs.len() == 0 {
        Seq::empty()
    } else {
        cube3(xs.drop_last(), ys, zs) + plane3(xs.last(), ys, zs)
    }
}

/// Every combination of one element of each list, the first list
/// varying slowest.
fn product3<X: Copy>(xs: &Vec<X>, ys: &Vec<X>, zs: &Vec<X>) -> (r: Vec<(X, X, X)>)
    ensures
        r@ == cube3(xs@, ys@, zs@),
        forall|t: (X, X, X)| #[trigger] r@.contains(t) <==> xs@.contains(t.0) && ys@.contains(t.1) && zs@.contains(t.2),
{
    let mut r: Vec<(X, X, X)> = Vec::new();
    let mut i: usize = 0;
    while i < xs.len()
        invariant
            i <= xs@.len(),
            r@ == cube3(xs@.take(i as int), ys@, zs@),
            forall|t: (X, X, X)| #[trigger] r@.contains(t) <==> (exists|a: int| 0 <= a < i && xs@[a] == t.0) && ys@.contains(
                t.1,
            ) && zs@.contains(t.2),
        decreases xs@.len() - i,
    {
        let mut j: usize = 0;
        while j < ys.len()
            invariant
                i < xs@.len(),
                j <= ys@.len(),
                r@ == cube3(xs@.take(i as int), ys@, zs@) + plane3(xs@[i as int], ys@.take(j as int), zs@),
                forall|t: (X, X, X)| #[trigger] r@.contains(t) <==> {
                    ||| (exists|a: int| 0 <= a < i && xs@[a] == t.0) && ys@.contains(t.1) && zs@.contains(t.2)
                    ||| t.0 == xs@[i as int] && (exists|b: int| 0 <= b < j && ys@[b] == t.1) && zs@.contains(t.2)
                },
            decreases ys@.len() - j,
        {
            let mut k: usize = 0;
            while k < zs.len()
                invariant
                    i < xs@.len(),
                    j < ys@.len(),
                    k <= zs@.len(),
                    r@ == cube3(xs@.take(i as int), ys@, zs@) + plane3(xs@[i as int], ys@.take(j as int), zs@) + row3(
                        xs@[i as int],
                        ys@[j as int],
                        zs@.take(k as int),
                    ),
                    forall|t: (X, X, X)| #[trigger] r@.contains(t) <==> {
                        ||| (exists|a: int| 0 <= a < i && xs@[a] == t.0) && ys@.contains(t.1) && zs@.contains(t.2)
                        ||| t.0 == xs@[i as int] && (exists|b: int| 0 <= b < j && ys@[b] == t.1) && zs@.contains(t.2)
                        ||| t.0 == xs@[i as int] && t.1 == ys@[j as int] && (exists|c: int| 0 <= c < k && zs@[c] == t.2)
                    },
                decreases zs@.len() - k,
            {
                let t = (xs[i], ys[j], zs[k]);
                let ghost r0 = r@;
                r.push(t);
                proof {
                    assert(row3(xs@[i as int], ys@[j as int], zs@.take(k + 1)) =~= row3(
                        xs@[i as int],
                        ys@[j as int],
                        zs@.take(k as int),
                    ).push(t));
                    assert(r@ =~= cube3(xs@.take(i as int), ys@, zs@) + plane3(xs@[i as int], ys@.take(j as int), zs@)
                        + row3(xs@[i as int], ys@[j as int], zs@.take(k + 1)));
                    assert forall|x: (X, X, X)| #[trigger] r@.contains(x) <==> r0.contains(x) || x == t by {
                        if r@.contains(x) {
                            let y = choose|y: int| 0 <= y < r@.len() && r@[y] == x;
                            if y < r0.len() {
                                assert(r0[y] == x);
                            }
                        }
                        if r0.contains(x) {
                            let y = choose|y: int| 0 <= y < r0.len() && r0[y] == x;
                            assert(r@[y] == x);
                        }
                        if x == t {
                            assert(r@[r0.len() as int] == x);
                        }
                    }
                    assert forall|x: (X, X, X)| #[trigger] r@.contains(x) <==> {
                        ||| (exists|a: int| 0 <= a < i && xs@[a] == x.0) && ys@.contains(x.1) && zs@.contains(x.2)
                        ||| x.0 == xs@[i as int] && (exists|b: int| 0 <= b < j && ys@[b] == x.1) && zs@.contains(x.2)
                        ||| x.0 == xs@[i as int] && x.1 == ys@[j as int] && (exists|c: int| 0 <= c < k + 1 && zs@[c] == x.2)
                    } by {
                        if x == t {
                            assert(zs@[k as int] == x.2);
                        }
                        if x.0 == xs@[i as int] && x.1 == ys@[j as int] && (exists|c: int| 0 <= c < k + 1 && zs@[c] == x.2) {
                            let c = choose|c: int| 0 <= c < k + 1 && zs@[c] == x.2;
                            if c == k {
                                assert(x == t);
                            }
                        }
                    }
                }
                k = k + 1;
            }
            proof {
                assert(zs@.take(k as int) =~= zs@);
                assert(ys@.take(j + 1).drop_last() =~= ys@.take(j as int));
                assert(plane3(xs@[i as int], ys@.take(j + 1), zs@) == plane3(xs@[i as int], ys@.take(j as int), zs@)
                    + row3(xs@[i as int], ys@[j as int], zs@));
                assert(r@ =~= cube3(xs@.take(i as int), ys@, zs@) + plane3(xs@[i as int], ys@.take(j + 1), zs@));
                assert forall|x: (X, X, X)| #[trigger] r@.contains(x) <==> {
                    ||| (exists|a: int| 0 <= a < i && xs@[a] == x.0) && ys@.contains(x.1) && zs@.contains(x.2)
                    ||| x.0 == xs@[i as int] && (exists|b: int| 0 <= b < j + 1 && ys@[b] == x.1) && zs@.contains(x.2)
                } by {
                    if x.0 == xs@[i as int] && x.1 == ys@[j as int] && zs@.contains(x.2) {
                        let c = choose|c: int| 0 <= c < zs@.len() && zs@[c] == x.2;
                        assert(exists|c: int| 0 <= c < k && zs@[c] == x.2);
                    }
                    if x.0 == xs@[i as int] && (exists|b: int| 0 <= b < j + 1 && ys@[b] == x.1) && zs@.contains(x.2) {
                        let b = choose|b: int| 0 <= b < j + 1 && ys@[b] == x.1;
                        if b < j {
                            assert(exists|b: int| 0 <= b < j && ys@[b] == x.1);
                        }
                    }
                    if x.0 == xs@[i as int] && x.1 == ys@[j as int] && (exists|c: int| 0 <= c < k && zs@[c] == x.2) {
                        let c = choose|c: int| 0 <= c < k && zs@[c] == x.2;
                        assert(zs@.contains(zs@[c]));
                    }
                }
            }
            j = j + 1;
        }
        proof {
            assert(ys@.take(j as int) =~= ys@);
            assert(xs@.take(i + 1).drop_last() =~= xs@.take(i as int));
            assert(cube3(xs@.take(i + 1), ys@, zs@) == cube3(xs@.take(i as int), ys@, zs@) + plane3(xs@[i as int], ys@, zs@));
            assert forall|x: (X, X, X)| #[trigger] r@.contains(x) <==> (exists|a: int| 0 <= a < i + 1 && xs@[a] == x.0)
                && ys@.contains(x.1) && zs@.contains(x.2) by {
                if x.0 == xs@[i as int] && ys@.contains(x.1) && zs@.contains(x.2) {
                    let b = choose|b: int| 0 <= b < ys@.len() && ys@[b] == x.1;
                    assert(exists|b: int| 0 <= b < j && ys@[b] == x.1);
                }
                if (exists|a: int| 0 <= a < i + 1 && xs@[a] == x.0) && ys@.contains(x.1) && zs@.contains(x.2) {
                    let a = choose|a: int| 0 <= a < i + 1 && xs@[a] == x.0;
                    if a < i {
                        assert(exists|a: int| 0 <= a < i && xs@[a] == x.0);
                    }
                }
                if x.0 == xs@[i as int] && (exists|b: int| 0 <= b < j && ys@[b] == x.1) && zs@.contains(x.2) {
                    let b = choose|b: int| 0 <= b < j && ys@[b] == x.1;
                    assert(ys@.contains(ys@[b]));
                    assert(exists|a: int| 0 <= a < i + 1 && xs@[a] == x.0);
                }
            }
        }
        i = i + 1;
    }
    proof {
        assert(xs@.take(i as int) =~= xs@);
        assert forall|t: (X, X, X)| #[trigger] r@.contains(t) <==> xs@.contains(t.0) && ys@.contains(t.1) && zs@.contains(t.2) by {
            if xs@.contains(t.0) {
                let a = choose|a: int| 0 <= a < xs@.len() && xs@[a] == t.0;
                assert(exists|a: int| 0 <= a < i && xs@[a] == t.0);
            }
            if exists|a: int| 0 <= a < i && xs@[a] == t.0 {
                let a = choose|a: int| 0 <= a < i && xs@[a] == t.0;
                assert(xs@.contains(xs@[a]));
            }
        }
    }
    r
}

/// How shared resources are interpreted in a dependency interpretation.
pub struct Interface {
    /// From composite identifier to dependency identifiers.
    source: IdsMap,
    /// From dependency identifier to composite identifier.
    target: IdMap,
}

impl Interface {
    /// The dependency resources each resource stands for.
    pub closed spec fn sources(&self) -> Map<u32, Seq<Id>> {
        ids_map_entries(self.source)
    }

    /// The resource each dependency resource is imported as.
    pub closed spec fn targets(&self) -> Map<u32, Id> {
        id_map_entries(self.target)
    }

    /// The dependency resources the resource stands for (none if it has
    /// not been imported).
    pub open spec fn spec_dependency_ids(&self, id: Id) -> Seq<Id> {
        if self.sources().contains_key(id.0) {
            self.sources()[id.0]
        } else {
            Seq::empty()
        }
    }

    pub fn new() -> (r: Interface)
        ensures
            r.sources() == Map::<u32, Seq<Id>>::empty(),
            r.targets() == Map::<u32, Id>::empty(),
    {
        Interface { source: ids_map_new(), target: id_map_new() }
    }

    /// Records that `id` stands for the dependency resource `dependency_id`
    /// alone, and that this one is imported as `id`.
    pub fn bind(&mut self, id: Id, dependency_id: Id)
        ensures
            final(self).sources() == old(self).sources().insert(id.0, seq![dependency_id]),
            final(self).targets() == old(self).targets().insert(dependency_id.0, id),
    {
        let mut ids = Vec::new();
        ids.push(dependency_id);
        proof {
            assert(ids@ =~= seq![dependency_id]);
        }
        ids_map_insert(&mut self.source, id.0, ids);
        id_map_insert(&mut self.target, dependency_id.0, id);
    }

    /// The dependency resources the resource stands for.
    pub fn dependency_ids(&self, id: Id) -> (r: Vec<Id>)
        ensures
            r@ == self.spec_dependency_ids(id),
    {
        match ids_map_get(&self.source, id.0) {
            Some(ids) => ids.clone(),
            None => Vec::new(),
        }
    }

    /// The resource the dependency resource is imported as, if it is.
    pub fn id_from_dependency(&self, id: Id) -> (r: Option<Id>)
        ensures
            r == (if self.targets().contains_key(id.0) {
                Some(self.targets()[id.0])
            } else {
                None
            }),
    {
        id_map_get(&self.target, id.0)
    }

    /// The quad, with each resource replaced by the one it is imported as,
    /// if they all are.
    pub fn quad_from_dependency(&self, quad: Quad) -> (r: Option<Quad>)
        ensures
            match r {
                Some(q) => {
                    &&& self.targets().contains_key(quad.0.0) && q.0 == self.targets()[quad.0.0]
                    &&& self.targets().contains_key(quad.1.0) && q.1 == self.targets()[quad.1.0]
                    &&& self.targets().contains_key(quad.2.0) && q.2 == self.targets()[quad.2.0]
                    &&& match quad.3 {
                        Some(g) => self.targets().contains_key(g.0) && q.3 == Some(self.targets()[g.0]),
                        None => q.3 is None,
                    }
                },
                None => !self.targets().contains_key(quad.0.0) || !self.targets().contains_key(quad.1.0)
                    || !self.targets().contains_key(quad.2.0) || (quad.3 matches Some(g) && !self.targets().contains_key(
                    g.0,
                )),
            },
    {
        let g = match quad.3 {
            Some(g) => match self.id_from_dependency(g) {
                Some(g) => Some(g),
                None => return None,
            },
            None => None,
        };
        let s = match self.id_from_dependency(quad.0) {
            Some(s) => s,
            None => return None,
        };
        let p = match self.id_from_dependency(quad.1) {
            Some(p) => p,
            None => return None,
        };
        let o = match self.id_from_dependency(quad.2) {
            Some(o) => o,
            None => return None,
        };
        Some(Quad(s, p, o, g))
    }

    /// Every triple of dependency resources the triple's resources stand
    /// for.
    pub fn dependency_triples(&self, triple: Triple) -> (r: Vec<Triple>)
        ensures
            r@ == cube3(
                self.spec_dependency_ids(triple.0),
                self.spec_dependency_ids(triple.1),
                self.spec_dependency_ids(triple.2),
            ).map_values(|t: (Id, Id, Id)| Triple(t.0, t.1, t.2)),
            forall|t: Triple| #[trigger] r@.contains(t) <==> {
                &&& self.spec_dependency_ids(triple.0).contains(t.0)
                &&& self.spec_dependency_ids(triple.1).contains(t.1)
                &&& self.spec_dependency_ids(triple.2).contains(t.2)
            },
    {
        let ss = self.dependency_ids(triple.0);
        let ps = self.dependency_ids(triple.1);
        let os = self.dependency_ids(triple.2);
        let all = product3(&ss, &ps, &os);
        let mut r: Vec<Triple> = Vec::new();
        let mut j: usize = 0;
        while j < all.len()
            invariant
                j <= all@.len(),
                r@.len() == j,
                forall|a: int| 0 <= a < j ==> #[trigger] r@[a] == Triple(all@[a].0, all@[a].1, all@[a].2),
            decreases all@.len() - j,
        {
            let (s, p, o) = all[j];
            r.push(Triple(s, p, o));
            j = j + 1;
        }
        proof {
            assert(r@ =~= all@.map_values(|t: (Id, Id, Id)| Triple(t.0, t.1, t.2)));
            assert forall|t: Triple| #[trigger] r@.contains(t) <==> all@.contains((t.0, t.1, t.2)) by {
                if r@.contains(t) {
                    let a = choose|a: int| 0 <= a < r@.len() && r@[a] == t;
                    assert(all@[a] == (t.0, t.1, t.2));
                }
                if all@.contains((t.0, t.1, t.2)) {
                    let a = choose|a: int| 0 <= a < all@.len() && all@[a] == (t.0, t.1, t.2);
                    assert(r@[a] == t);
                }
            }
        }
        r
    }

    /// The dependency pattern components a pattern component stands for:
    /// each dependency resource of a given resource, or the variable
    /// itself.
    pub open spec fn spec_component_choices(&self, v: IdOrVar) -> Seq<IdOrVar> {
        match v {
            IdOrVar::Id(id) => self.spec_dependency_ids(id).map_values(|d: Id| IdOrVar::Id(d)),
            IdOrVar::Var(x) => seq![IdOrVar::Var(x)],
        }
    }

    /// Whether `p` is one of the dependency patterns `pattern` stands for.
    pub open spec fn spec_dependency_pattern(&self, pattern: Pattern, p: Pattern) -> bool {
        &&& self.spec_component_choices(pattern.0).contains(p.0)
        &&& self.spec_component_choices(pattern.1).contains(p.1)
        &&& self.spec_component_choices(pattern.2).contains(p.2)
    }

    fn component_choices(&self, v: IdOrVar) -> (r: Vec<IdOrVar>)
        ensures
            r@ == self.spec_component_choices(v),
    {
        let mut r: Vec<IdOrVar> = Vec::new();
        match v {
            IdOrVar::Id(id) => {
                let ids = self.dependency_ids(id);
                let mut k: usize = 0;
                while k < ids.len()
                    invariant
                        k <= ids@.len(),
                        r@ =~= ids@.take(k as int).map_values(|d: Id| IdOrVar::Id(d)),
                    decreases ids@.len() - k,
                {
                    r.push(IdOrVar::Id(ids[k]));
                    k = k + 1;
                }
                proof {
                    assert(ids@.take(k as int) =~= ids@);
                }
            },
            IdOrVar::Var(x) => {
                r.push(IdOrVar::Var(x));
                proof {
                    assert(r@ =~= seq![IdOrVar::Var(x)]);
                }
            },
        }
        r
    }

    /// Every pattern over dependency resources the pattern stands for.
    pub fn dependency_patterns(&self, pattern: Pattern) -> (r: Vec<Pattern>)
        ensures
            r@ == cube3(
                self.spec_component_choices(pattern.0),
                self.spec_component_choices(pattern.1),
                self.spec_component_choices(pattern.2),
            ).map_values(|t: (IdOrVar, IdOrVar, IdOrVar)| Pattern(t.0, t.1, t.2)),
            forall|p: Pattern| #[trigger] r@.contains(p) <==> self.spec_dependency_pattern(pattern, p),
    {
        let ss = self.component_choices(pattern.0);
        let ps = self.component_choices(pattern.1);
        let os = self.component_choices(pattern.2);
        let all = product3(&ss, &ps, &os);
        let mut r: Vec<Pattern> = Vec::new();
        let mut j: usize = 0;
        while j < all.len()
            invariant
                j <= all@.len(),
                r@.len() == j,
                forall|a: int| 0 <= a < j ==> #[trigger] r@[a] == Pattern(all@[a].0, all@[a].1, all@[a].2),
            decreases all@.len() - j,
        {
            let (s, p, o) = all[j];
            r.push(Pattern(s, p, o));
            j = j + 1;
        }
        proof {
            assert(r@ =~= all@.map_values(|t: (IdOrVar, IdOrVar, IdOrVar)| Pattern(t.0, t.1, t.2)));
            assert forall|t: Pattern| #[trigger] r@.contains(t) <==> all@.contains((t.0, t.1, t.2)) by {
                if r@.contains(t) {
                    let a = choose|a: int| 0 <= a < r@.len() && r@[a] == t;
                    assert(all@[a] == (t.0, t.1, t.2));
                }
                if all@.contains((t.0, t.1, t.2)) {
                    let a = choose|a: int| 0 <= a < all@.len() && all@[a] == (t.0, t.1, t.2);
                    assert(r@[a] == t);
                }
            }
        }
        r
    }

    /// Every canonical pattern over dependency resources the canonical
    /// pattern stands for.
    pub fn dependency_canonical_patterns(&self, pattern: Canonical) -> (r: Vec<Canonical>)
        ensures
            forall|c: Canonical| #[trigger] r@.contains(c) <==> exists|p: Pattern|
                self.spec_dependency_pattern(pattern_of_canonical(pattern), p) && c == canonical_of_pattern(p),
    {
        let ps = self.dependency_patterns(Pattern::from_canonical(pattern));
        let mut r: Vec<Canonical> = Vec::new();
        let mut j: usize = 0;
        while j < ps.len()
            invariant
                j <= ps@.len(),
                r@.len() == j,
                forall|a: int| 0 <= a < j ==> #[trigger] r@[a] == canonical_of_pattern(ps@[a]),
            decreases ps@.len() - j,
        {
            r.push(Canonical::from_pattern(ps[j]));
            j = j + 1;
        }
        proof {
            assert forall|c: Canonical| #[trigger] r@.contains(c) <==> exists|p: Pattern|
                self.spec_dependency_pattern(pattern_of_canonical(pattern), p) && c == canonical_of_pattern(p) by {
                if r@.contains(c) {
                    let a = choose|a: int| 0 <= a < r@.len() && r@[a] == c;
                    assert(ps@.contains(ps@[a]));
                }
                if exists|p: Pattern| self.spec_dependency_pattern(pattern_of_canonical(pattern), p) && c == canonical_of_pattern(p) {
                    let p = choose|p: Pattern| self.spec_dependency_pattern(pattern_of_canonical(pattern), p) && c == canonical_of_pattern(p);
                    assert(ps@.contains(p));
                    let a = choose|a: int| 0 <= a < ps@.len() && ps@[a] == p;
                    assert(r@[a] == c);
                }
            }
        }
        r
    }
}

} // verus!
