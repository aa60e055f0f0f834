//! Group normalization: what a canonical labelling of the members of a
//! group needs from the group. The labelling search itself is done by the
//! `normal_form` crate around these functions.
use vstd::prelude::*;

use crate::class::{Class, Reference};
use crate::class::group::{Binding, Description, Member};
use crate::class::group::sorting::{
    class_lt, lemma_empty_to_multiset, member_views, members_sorted, sign_rank, sort_members,
};
use crate::id::Id;
use crate::sign::{Sign, Signed};

verus! {

/// A reference with the group member it points to forgotten.
#[derive(Debug, Clone, Copy, PartialEq, Eq, Structural, PartialOrd, Ord, Hash)]
pub enum AnonymousReference {
    Singleton(Id),
    Class(Class),
    Group,
}

/// Color pigment: a binding with its group members forgotten.
#[derive(Debug, Clone, Copy, PartialEq, Eq, PartialOrd, Ord, Hash)]
pub struct Pigment(pub Signed<(AnonymousReference, AnonymousReference)>);

/// Group member color: its sorted pigments.
#[derive(Debug, Clone, PartialEq, Eq, PartialOrd, Ord, Hash)]
pub struct Color(Vec<Pigment>);

/// Color builder.
pub struct ColorPicker(Vec<Pigment>);

/// Work space of the coloring refinement.
pub struct Cache {
    pub stack: Vec<usize>,
    pub map: Vec<usize>,
}

/// Group members, with for each of them the members it refers to.
#[derive(Debug, Clone, PartialEq, Eq, PartialOrd, Ord, Hash)]
pub struct NonNormalizedDescription {
    members: Vec<Member>,
    len: u32,
    neighbors: Vec<Vec<u32>>,
}

/// The anonymous form of a reference.
pub open spec fn anonymous(r: Reference) -> AnonymousReference {
    match r {
        Reference::Singleton(id) => AnonymousReference::Singleton(id),
        Reference::Class(c) => AnonymousReference::Class(c),
        Reference::Group(_) => AnonymousReference::Group,
    }
}

/// The pigment of a binding.
pub open spec fn pigment_of(b: Binding) -> Pigment {
    Pigment(Signed(b.0, (anonymous(b.1.0), anonymous(b.1.1))))
}

/// Rank of the variant of an anonymous reference.
pub open spec fn anonymous_rank(r: AnonymousReference) -> int {
    match r {
        AnonymousReference::Singleton(_) => 0,
        AnonymousReference::Class(_) => 1,
        AnonymousReference::Group => 2,
    }
}

/// Order of anonymous references, as their derived `Ord` gives it.
pub open spec fn anonymous_lt(a: AnonymousReference, b: AnonymousReference) -> bool {
    anonymous_rank(a) < anonymous_rank(b) || match (a, b) {
        (AnonymousReference::Singleton(x), AnonymousReference::Singleton(y)) => x.0 < y.0,
        (AnonymousReference::Class(x), AnonymousReference::Class(y)) => class_lt(x, y),
        _ => false,
    }
}

/// Order of pigments, as their derived `Ord` gives it.
pub open spec fn pigment_lt(a: Pigment, b: Pigment) -> bool {
    ||| sign_rank(a.0.0) < sign_rank(b.0.0)
    ||| (a.0.0 == b.0.0 && anonymous_lt(a.0.1.0, b.0.1.0))
    ||| (a.0.0 == b.0.0 && a.0.1.0 == b.0.1.0 && anonymous_lt(a.0.1.1, b.0.1.1))
}

/// Pigments in order: none is before one that precedes it.
pub open spec fn pigments_sorted(s: Seq<Pigment>) -> bool {
    forall|i: int, j: int| 0 <= i < j < s.len() ==> !pigment_lt(#[trigger] s[j], #[trigger] s[i])
}

/// The pigments of a sequence of bindings, in the same order.
pub open spec fn pigments_of(s: Seq<Binding>) -> Seq<Pigment> {
    s.map_values(|b: Binding| pigment_of(b))
}

/// Strictly increasing: sorted without duplicates.
pub open spec fn strictly_increasing(s: Seq<u32>) -> bool {
    forall|i: int, j: int| 0 <= i < j < s.len() ==> #[trigger] s[i] < #[trigger] s[j]
}

/// Whether the reference points to group member `x`.
pub open spec fn points_to(r: Reference, x: u32) -> bool {
    r == Reference::Group(x)
}

/// The group members that the bindings refer to.
pub open spec fn member_neighbors(s: Seq<Binding>) -> Set<u32> {
    Set::new(
        |x: u32| exists|j: int| 0 <= j < s.len() && (points_to(#[trigger] s[j].1.0, x) || points_to(s[j].1.1, x)),
    )
}

/// Whether every group member that the reference points to is below `n`.
pub open spec fn reference_below(r: Reference, n: int) -> bool {
    match r {
        Reference::Group(x) => x < n,
        _ => true,
    }
}

/// Whether every group member that the members refer to is below `n`.
pub open spec fn members_below(s: Seq<Member>, n: int) -> bool {
    forall|i: int, j: int|
        0 <= i < s.len() && 0 <= j < s[i].properties@.len() ==> reference_below(
            #[trigger] s[i].properties@[j].1.0,
            n,
        ) && reference_below(s[i].properties@[j].1.1, n)
}

/// A reference with its group member renamed by `m`.
pub open spec fn morph_reference(r: Reference, m: Seq<usize>) -> Reference {
    match r {
        Reference::Group(x) => Reference::Group(m[x as int] as u32),
        _ => r,
    }
}

/// A binding with its group members renamed by `m`.
pub open spec fn morph_binding(b: Binding, m: Seq<usize>) -> Binding {
    Signed(b.0, (morph_reference(b.1.0, m), morph_reference(b.1.1, m)))
}

/// Bindings with their group members renamed by `m`.
pub open spec fn morph_bindings(s: Seq<Binding>, m: Seq<usize>) -> Seq<Binding> {
    s.map_values(|b: Binding| morph_binding(b, m))
}

/// The pigment of a binding does not depend on how the members of the
/// group are numbered: renaming them leaves it unchanged.
pub proof fn lemma_pigment_ignores_renaming(b: Binding, m: Seq<usize>)
    ensures
        pigment_of(morph_binding(b, m)) == pigment_of(b),
{
}

proof fn lemma_pigment_lt_strict(a: Pigment, b: Pigment, c: Pigment)
    ensures
        !pigment_lt(a, a),
        pigment_lt(a, b) && pigment_lt(b, c) ==> pigment_lt(a, c),
{
}

fn anonymous_less(a: &AnonymousReference, b: &AnonymousReference) -> (r: bool)
    ensures
        r == anonymous_lt(*a, *b),
{
    match (a, b) {
        (AnonymousReference::Singleton(x), AnonymousReference::Singleton(y)) => x.0 < y.0,
        (AnonymousReference::Singleton(_), _) => true,
        (AnonymousReference::Class(x), AnonymousReference::Class(y)) => {
            x.group.layer < y.group.layer || (x.group.layer == y.group.layer && (x.group.index
                < y.group.index || (x.group.index == y.group.index && x.member < y.member)))
        },
        (AnonymousReference::Class(_), AnonymousReference::Group) => true,
        _ => false,
    }
}

fn pigment_less(a: &Pigment, b: &Pigment) -> (r: bool)
    ensures
        r == pigment_lt(*a, *b),
{
    let Pigment(Signed(sa, (a0, a1))) = a;
    let Pigment(Signed(sb, (b0, b1))) = b;
    match (sa, sb) {
        (Sign::Positive, Sign::Negative) => true,
        (Sign::Negative, Sign::Positive) => false,
        _ => anonymous_less(a0, b0) || (*a0 == *b0 && anonymous_less(a1, b1)),
    }
}

/// Inserts `x` into the sorted `r` after every pigment that does not
/// come after it.
fn insert_pigment(r: &mut Vec<Pigment>, x: Pigment)
    requires
        pigments_sorted(old(r)@),
    ensures
        pigments_sorted(final(r)@),
        final(r)@.to_multiset() == old(r)@.to_multiset().insert(x),
{
    let mut p: usize = 0;
    while p < r.len() && !pigment_less(&x, &r[p])
        invariant
            p <= r@.len(),
            forall|i: int| 0 <= i < p ==> !pigment_lt(x, #[trigger] r@[i]),
        decreases r@.len() - p,
    {
        p = p + 1;
    }
    let ghost r0 = r@;
    r.insert(p, x);
    proof {
        vstd::seq_lib::to_multiset_insert(r0, p as int, x);
        assert forall|i: int, j: int| 0 <= i < j < r@.len() implies !pigment_lt(#[trigger] r@[j], #[trigger] r@[i]) by {
            if j < p {
                assert(r@[i] == r0[i] && r@[j] == r0[j]);
            } else if j == p {
                assert(r@[i] == r0[i]);
            } else if i == p {
                let y = r0[j - 1];
                assert(r@[j] == y);
                assert(pigment_lt(x, r0[p as int]));
                lemma_pigment_lt_strict(y, x, r0[p as int]);
                lemma_pigment_lt_strict(y, y, y);
                if j - 1 != p {
                    assert(!pigment_lt(r0[j - 1], r0[p as int]));
                }
            } else if i < p {
                assert(r@[i] == r0[i] && r@[j] == r0[j - 1]);
            } else {
                assert(r@[i] == r0[i - 1] && r@[j] == r0[j - 1]);
            }
        }
    }
}

/// Sorts pigments by their derived order.
fn sort_pigments(v: Vec<Pigment>) -> (r: Vec<Pigment>)
    ensures
        pigments_sorted(r@),
        r@.to_multiset() == v@.to_multiset(),
{
    let mut r: Vec<Pigment> = Vec::new();
    let mut k: usize = 0;
    proof {
        lemma_empty_to_multiset(r@);
        assert(v@.take(0) =~= Seq::<Pigment>::empty());
        lemma_empty_to_multiset(v@.take(0));
    }
    while k < v.len()
        invariant
            k <= v@.len(),
            pigments_sorted(r@),
            r@.to_multiset() == v@.take(k as int).to_multiset(),
        decreases v@.len() - k,
    {
        insert_pigment(&mut r, v[k]);
        proof {
            assert(v@.take(k + 1) =~= v@.take(k as int).push(v@[k as int]));
            vstd::seq_lib::to_multiset_build(v@.take(k as int), v@[k as int]);
        }
        k = k + 1;
    }
    proof {
        assert(v@.take(k as int) =~= v@);
    }
    r
}

impl Pigment {
    /// The pigment of a binding: its group members forgotten.
    pub fn from_binding(b: Binding) -> (r: Pigment)
        ensures
            r == pigment_of(b),
    {
        let Signed(sign, (a, c)) = b;
        Pigment(Signed(sign, (anonymize(a), anonymize(c))))
    }
}

/// The anonymous form of a reference.
pub fn anonymize(r: Reference) -> (a: AnonymousReference)
    ensures
        a == anonymous(r),
{
    match r {
        Reference::Singleton(id) => AnonymousReference::Singleton(id),
        Reference::Class(c) => AnonymousReference::Class(c),
        Reference::Group(_) => AnonymousReference::Group,
    }
}

impl View for Color {
    type V = Seq<Pigment>;

    closed spec fn view(&self) -> Seq<Pigment> {
        self.0@
    }
}

impl View for ColorPicker {
    type V = Seq<Pigment>;

    closed spec fn view(&self) -> Seq<Pigment> {
        self.0@
    }
}

impl Color {
    /// The pigments of the color, in order.
    pub fn pigments(&self) -> (r: &Vec<Pigment>)
        ensures
            r@ == self@,
    {
        &self.0
    }
}

impl ColorPicker {
    pub fn with_capacity(capacity: usize) -> (r: ColorPicker)
        ensures
            r@ == Seq::<Pigment>::empty(),
    {
        ColorPicker(Vec::with_capacity(capacity))
    }

    /// The color of the inserted pigments: them, sorted.
    pub fn pick(self) -> (r: Color)
        ensures
            pigments_sorted(r@),
            r@.to_multiset() == self@.to_multiset(),
    {
        Color(sort_pigments(self.0))
    }

    /// Adds the pigment of a binding.
    pub fn insert(&mut self, binding: Binding)
        ensures
            final(self)@ == old(self)@.push(pigment_of(binding)),
    {
        self.0.push(Pigment::from_binding(binding))
    }
}

/// Inserts `x` into the strictly increasing `r`, unless it is there.
fn insert_neighbor(r: &mut Vec<u32>, x: u32)
    requires
        strictly_increasing(old(r)@),
    ensures
        strictly_increasing(final(r)@),
        final(r)@.to_set() == old(r)@.to_set().insert(x),
{
    let mut p: usize = 0;
    while p < r.len() && r[p] < x
        invariant
            p <= r@.len(),
            forall|i: int| 0 <= i < p ==> #[trigger] r@[i] < x,
        decreases r@.len() - p,
    {
        p = p + 1;
    }
    if p < r.len() && r[p] == x {
        proof {
            assert(r@.to_set() =~= r@.to_set().insert(x));
        }
        return;
    }
    let ghost r0 = r@;
    r.insert(p, x);
    proof {
        assert forall|i: int, j: int| 0 <= i < j < r@.len() implies #[trigger] r@[i] < #[trigger] r@[j] by {
            if j < p {
                assert(r@[i] == r0[i] && r@[j] == r0[j]);
            } else if j == p {
                assert(r@[i] == r0[i]);
            } else if i == p {
                assert(r@[j] == r0[j - 1]);
                assert(r0[p as int] <= r0[j - 1]);
            } else if i < p {
                assert(r@[i] == r0[i] && r@[j] == r0[j - 1]);
            } else {
                assert(r@[i] == r0[i - 1] && r@[j] == r0[j - 1]);
            }
        }
        assert forall|y: u32| r@.to_set().contains(y) <==> r0.to_set().insert(x).contains(y) by {
            if r0.to_set().contains(y) && y != x {
                let i = choose|i: int| 0 <= i < r0.len() && r0[i] == y;
                if i < p {
                    assert(r@[i] == y);
                } else {
                    assert(r@[i + 1] == y);
                }
            }
            if r@.to_set().contains(y) {
                let i = choose|i: int| 0 <= i < r@.len() && r@[i] == y;
                if i < p {
                    assert(r0[i] == y);
                } else if i > p {
                    assert(r0[i - 1] == y);
                }
            }
            if y == x {
                assert(r@[p as int] == x);
            }
        }
        assert(r@.to_set() =~= r0.to_set().insert(x));
    }
}

/// The group members that a member refers to, in increasing order.
fn neighbors_of(m: &Member) -> (r: Vec<u32>)
    ensures
        strictly_increasing(r@),
        r@.to_set() == member_neighbors(m.properties@),
{
    let mut r: Vec<u32> = Vec::new();
    let mut j: usize = 0;
    proof {
        assert(r@.to_set() =~= member_neighbors(m.properties@.take(0)));
    }
    while j < m.properties.len()
        invariant
            j <= m.properties@.len(),
            strictly_increasing(r@),
            r@.to_set() == member_neighbors(m.properties@.take(j as int)),
        decreases m.properties@.len() - j,
    {
        let Signed(_, (a, b)) = m.properties[j];
        let ghost before = r@.to_set();
        if let Reference::Group(x) = a {
            insert_neighbor(&mut r, x);
        }
        if let Reference::Group(y) = b {
            insert_neighbor(&mut r, y);
        }
        proof {
            let s = m.properties@;
            let s0 = s.take(j as int);
            let s1 = s.take(j + 1);
            assert forall|x: u32| member_neighbors(s1).contains(x) <==> r@.to_set().contains(x) by {
                if member_neighbors(s1).contains(x) {
                    let t = choose|t: int| 0 <= t < s1.len() && (points_to(#[trigger] s1[t].1.0, x) || points_to(s1[t].1.1, x));
                    if t < j {
                        assert(s0[t] == s1[t]);
                        assert(member_neighbors(s0).contains(x));
                    }
                }
                if r@.to_set().contains(x) && !before.contains(x) {
                    assert(s1[j as int] == s[j as int]);
                    assert(points_to(s1[j as int].1.0, x) || points_to(s1[j as int].1.1, x));
                }
                if before.contains(x) {
                    assert(member_neighbors(s0).contains(x));
                    let t = choose|t: int| 0 <= t < s0.len() && (points_to(#[trigger] s0[t].1.0, x) || points_to(s0[t].1.1, x));
                    assert(0 <= t < s0.len());
                    assert(s0[t] == s[t]);
                    assert(s1[t] == s[t]);
                }
            }
            assert(r@.to_set() =~= member_neighbors(s1));
        }
        j = j + 1;
    }
    proof {
        assert(m.properties@.take(j as int) =~= m.properties@);
    }
    r
}

impl NonNormalizedDescription {
    /// The members of the group.
    pub closed spec fn member_seq(&self) -> Seq<Member> {
        self.members@
    }

    /// The number of members, as a 32-bit integer.
    pub closed spec fn length(&self) -> u32 {
        self.len
    }

    /// For each member, the members it refers to.
    pub closed spec fn neighbor_seq(&self) -> Seq<Seq<u32>> {
        self.neighbors@.map_values(|v: Vec<u32>| v@)
    }

    pub fn new(members: Vec<Member>) -> (r: NonNormalizedDescription)
        ensures
            r.member_seq() == members@,
            r.length() == members@.len() as u32,
            r.neighbor_seq().len() == members@.len(),
            forall|i: int|
                0 <= i < members@.len() ==> strictly_increasing(#[trigger] r.neighbor_seq()[i])
                    && r.neighbor_seq()[i].to_set() == member_neighbors(members@[i].properties@),
    {
        let mut neighbors: Vec<Vec<u32>> = Vec::with_capacity(members.len());
        let mut i: usize = 0;
        while i < members.len()
            invariant
                i <= members@.len(),
                neighbors@.len() == i,
                forall|t: int|
                    0 <= t < i ==> strictly_increasing(#[trigger] neighbors@[t]@) && neighbors@[t]@.to_set()
                        == member_neighbors(members@[t].properties@),
            decreases members@.len() - i,
        {
            let n = neighbors_of(&members[i]);
            neighbors.push(n);
            i = i + 1;
        }
        #[verifier::truncate]
        let len = members.len() as u32;
        NonNormalizedDescription { members, len, neighbors }
    }

    /// The members of the group.
    pub fn members(&self) -> (r: &Vec<Member>)
        ensures
            r@ == self.member_seq(),
    {
        &self.members
    }

    /// The number of members.
    pub fn elements(&self) -> (r: &u32)
        ensures
            *r == self.length(),
    {
        &self.len
    }

    /// For each member, the members it refers to.
    pub fn neighbor_lists(&self) -> (r: &Vec<Vec<u32>>)
        ensures
            r@.map_values(|v: Vec<u32>| v@) == self.neighbor_seq(),
    {
        &self.neighbors
    }

    /// The initial color of each member: the sorted pigments of its
    /// bindings.
    pub fn initial_coloring(&self) -> (r: Vec<Color>)
        ensures
            r@.len() == self.member_seq().len(),
            forall|i: int|
                0 <= i < r@.len() ==> pigments_sorted(#[trigger] r@[i]@) && r@[i]@.to_multiset()
                    == pigments_of(self.member_seq()[i].properties@).to_multiset(),
    {
        let mut r: Vec<Color> = Vec::new();
        let mut i: usize = 0;
        while i < self.members.len()
            invariant
                i <= self.members@.len(),
                r@.len() == i,
                forall|t: int|
                    0 <= t < i ==> pigments_sorted(#[trigger] r@[t]@) && r@[t]@.to_multiset()
                        == pigments_of(self.members@[t].properties@).to_multiset(),
            decreases self.members@.len() - i,
        {
            let m = &self.members[i];
            let mut picker = ColorPicker::with_capacity(m.len());
            let mut j: usize = 0;
            while j < m.properties.len()
                invariant
                    j <= m.properties@.len(),
                    picker@ == pigments_of(m.properties@.take(j as int)),
                decreases m.properties@.len() - j,
            {
                picker.insert(m.properties[j]);
                proof {
                    assert(pigments_of(m.properties@.take(j + 1)) =~= pigments_of(m.properties@.take(j as int)).push(pigment_of(m.properties@[j as int])));
                }
                j = j + 1;
            }
            proof {
                assert(m.properties@.take(j as int) =~= m.properties@);
            }
            r.push(picker.pick());
            i = i + 1;
        }
        r
    }

    /// A fresh work space for the coloring refinement.
    pub fn initialize_cache(&self) -> (r: Cache)
        ensures
            r.stack@ == Seq::<usize>::empty(),
            r.map@ == Seq::new(self.length() as nat, |_i: int| 0usize),
    {
        let mut map: Vec<usize> = Vec::new();
        let mut k: u32 = 0;
        while k < self.len
            invariant
                k <= self.len,
                map@ == Seq::new(k as nat, |_i: int| 0usize),
            decreases self.len - k,
        {
            map.push(0);
            k = k + 1;
            proof {
                assert(map@ =~= Seq::new(k as nat, |_i: int| 0usize));
            }
        }
        Cache { stack: Vec::new(), map }
    }

    /// The group with its members renamed by `morphism` and sorted.
    pub fn apply_morphism(&self, morphism: &Vec<usize>) -> (r: Description)
        requires
            members_below(self.member_seq(), morphism@.len() as int),
        ensures
            members_sorted(r.members@),
            member_views(r.members@).to_multiset() == self.member_seq().map_values(
                |m: Member| morph_bindings(m.properties@, morphism@),
            ).to_multiset(),
    {
        let ghost target = self.members@.map_values(|m: Member| morph_bindings(m.properties@, morphism@));
        let mut members: Vec<Member> = Vec::new();
        let mut i: usize = 0;
        while i < self.members.len()
            invariant
                i <= self.members@.len(),
                members_below(self.members@, morphism@.len() as int),
                target == self.members@.map_values(|m: Member| morph_bindings(m.properties@, morphism@)),
                member_views(members@) =~= target.take(i as int),
            decreases self.members@.len() - i,
        {
            let m = &self.members[i];
            let mut properties: Vec<Binding> = Vec::new();
            let mut j: usize = 0;
            while j < m.properties.len()
                invariant
                    j <= m.properties@.len(),
                    i < self.members@.len(),
                    *m == self.members@[i as int],
                    members_below(self.members@, morphism@.len() as int),
                    properties@ =~= morph_bindings(m.properties@, morphism@).take(j as int),
                decreases m.properties@.len() - j,
            {
                let Signed(sign, (a, b)) = m.properties[j];
                assert(reference_below(self.members@[i as int].properties@[j as int].1.0, morphism@.len() as int));
                let a2 = match a {
                    Reference::Group(x) => {
                        #[verifier::truncate]
                        let y = morphism[x as usize] as u32;
                        Reference::Group(y)
                    },
                    _ => a,
                };
                let b2 = match b {
                    Reference::Group(x) => {
                        #[verifier::truncate]
                        let y = morphism[x as usize] as u32;
                        Reference::Group(y)
                    },
                    _ => b,
                };
                properties.push(Signed(sign, (a2, b2)));
                j = j + 1;
            }
            proof {
                assert(morph_bindings(m.properties@, morphism@).take(j as int) =~= morph_bindings(m.properties@, morphism@));
            }
            members.push(Member::new(properties));
            proof {
                assert(target.take(i + 1) =~= target.take(i as int).push(target[i as int]));
            }
            i = i + 1;
        }
        proof {
            assert(target.take(i as int) =~= target);
        }
        let sorted = sort_members(members);
        Description::from_normalized_members(sorted)
    }
}

} // verus!
