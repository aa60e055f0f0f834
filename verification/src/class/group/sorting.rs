//! The order of group members: the lexicographic order of their bindings,
//! the one their derived `Ord` gives, and a verified sort by it.
use vstd::prelude::*;

use crate::class::{Class, Reference};
use crate::class::group::{Binding, Member};
use crate::sign::{Sign, Signed};

verus! {

/// Rank of a sign: positive before negative.
pub open spec fn sign_rank(s: Sign) -> int {
    match s {
        Sign::Positive => 0,
        Sign::Negative => 1,
    }
}

/// Order of classes: by group layer, group index, then member.
pub open spec fn class_lt(a: Class, b: Class) -> bool {
    ||| a.group.layer < b.group.layer
    ||| (a.group.layer == b.group.layer && a.group.index < b.group.index)
    ||| (a.group.layer == b.group.layer && a.group.index == b.group.index && a.member < b.member)
}

/// Rank of the variant of a reference.
pub open spec fn reference_rank(r: Reference) -> int {
    match r {
        Reference::Singleton(_) => 0,
        Reference::Class(_) => 1,
        Reference::Group(_) => 2,
    }
}

/// Order of references: by variant, then by content.
pub open spec fn reference_lt(a: Reference, b: Reference) -> bool {
    reference_rank(a) < reference_rank(b) || match (a, b) {
        (Reference::Singleton(x), Reference::Singleton(y)) => x.0 < y.0,
        (Reference::Class(x), Reference::Class(y)) => class_lt(x, y),
        (Reference::Group(x), Reference::Group(y)) => x < y,
        _ => false,
    }
}

/// Order of bindings: by sign, then by the first and the second reference.
pub open spec fn binding_lt(a: Binding, b: Binding) -> bool {
    ||| sign_rank(a.0) < sign_rank(b.0)
    ||| (a.0 == b.0 && reference_lt(a.1.0, b.1.0))
    ||| (a.0 == b.0 && a.1.0 == b.1.0 && reference_lt(a.1.1, b.1.1))
}

/// `a` and `b` agree before position `k`, where `a` comes first.
pub open spec fn bindings_lt_at(a: Seq<Binding>, b: Seq<Binding>, k: int) -> bool {
    &&& 0 <= k <= a.len()
    &&& k < b.len()
    &&& forall|j: int| 0 <= j < k ==> a[j] == b[j]
    &&& (k == a.len() || binding_lt(a[k], b[k]))
}

/// Lexicographic order of sequences of bindings: a proper prefix comes
/// first.
pub open spec fn bindings_lt(a: Seq<Binding>, b: Seq<Binding>) -> bool {
    exists|k: int| bindings_lt_at(a, b, k)
}

/// Order of members: that of their properties.
pub open spec fn member_lt(a: Member, b: Member) -> bool {
    bindings_lt(a.properties@, b.properties@)
}

/// The properties of each member.
pub open spec fn member_views(s: Seq<Member>) -> Seq<Seq<Binding>> {
    s.map_values(|m: Member| m.properties@)
}

/// Members in order: none is before one that precedes it.
pub open spec fn members_sorted(s: Seq<Member>) -> bool {
    forall|i: int, j: int| 0 <= i < j < s.len() ==> !member_lt(#[trigger] s[j], #[trigger] s[i])
}

proof fn lemma_binding_lt_strict(a: Binding, b: Binding, c: Binding)
    ensures
        !binding_lt(a, a),
        binding_lt(a, b) && binding_lt(b, c) ==> binding_lt(a, c),
{
}

proof fn lemma_bindings_lt_irreflexive(a: Seq<Binding>)
    ensures
        !bindings_lt(a, a),
{
    if bindings_lt(a, a) {
        let k = choose|k: int| bindings_lt_at(a, a, k);
        lemma_binding_lt_strict(a[k], a[k], a[k]);
    }
}

proof fn lemma_bindings_lt_transitive(a: Seq<Binding>, b: Seq<Binding>, c: Seq<Binding>)
    requires
        bindings_lt(a, b),
        bindings_lt(b, c),
    ensures
        bindings_lt(a, c),
{
    let k1 = choose|k: int| bindings_lt_at(a, b, k);
    let k2 = choose|k: int| bindings_lt_at(b, c, k);
    if k1 < k2 {
        assert(b[k1] == c[k1]);
        assert(bindings_lt_at(a, c, k1));
    } else if k2 < k1 {
        assert(a[k2] == b[k2]);
        assert(bindings_lt_at(a, c, k2));
    } else {
        if k1 < a.len() {
            lemma_binding_lt_strict(a[k1], b[k1], c[k1]);
        }
        assert(bindings_lt_at(a, c, k1));
    }
}

/// Strict order on references, as their derived `Ord` gives it.
pub fn reference_less(a: &Reference, b: &Reference) -> (r: bool)
    ensures
        r == reference_lt(*a, *b),
{
    match (a, b) {
        (Reference::Singleton(x), Reference::Singleton(y)) => x.0 < y.0,
        (Reference::Singleton(_), _) => true,
        (Reference::Class(x), Reference::Class(y)) => {
            x.group.layer < y.group.layer || (x.group.layer == y.group.layer && (x.group.index
                < y.group.index || (x.group.index == y.group.index && x.member < y.member)))
        },
        (Reference::Class(_), Reference::Group(_)) => true,
        (Reference::Group(x), Reference::Group(y)) => *x < *y,
        _ => false,
    }
}

/// Strict order on bindings, as their derived `Ord` gives it.
pub fn binding_less(a: &Binding, b: &Binding) -> (r: bool)
    ensures
        r == binding_lt(*a, *b),
{
    let Signed(sa, (a0, a1)) = a;
    let Signed(sb, (b0, b1)) = b;
    match (sa, sb) {
        (Sign::Positive, Sign::Negative) => true,
        (Sign::Negative, Sign::Positive) => false,
        _ => reference_less(a0, b0) || (*a0 == *b0 && reference_less(a1, b1)),
    }
}

/// Equality of bindings.
pub fn binding_equal(a: &Binding, b: &Binding) -> (r: bool)
    ensures
        r <==> *a == *b,
{
    a.0.same_as(&b.0) && a.1.0 == b.1.0 && a.1.1 == b.1.1
}

/// Lexicographic order on sequences of bindings.
pub fn bindings_less(a: &Vec<Binding>, b: &Vec<Binding>) -> (r: bool)
    ensures
        r == bindings_lt(a@, b@),
{
    let mut i: usize = 0;
    while i < a.len() && i < b.len()
        invariant
            i <= a@.len(),
            i <= b@.len(),
            forall|j: int| 0 <= j < i ==> a@[j] == b@[j],
        decreases a@.len() - i,
    {
        if binding_less(&a[i], &b[i]) {
            assert(bindings_lt_at(a@, b@, i as int));
            return true;
        }
        if !binding_equal(&a[i], &b[i]) {
            proof {
                assert forall|k: int| !bindings_lt_at(a@, b@, k) by {
                    if 0 <= k < i {
                        lemma_binding_lt_strict(a@[k], a@[k], a@[k]);
                    } else if k > i {
                        assert(!(a@[i as int] == b@[i as int]));
                    }
                }
            }
            return false;
        }
        i = i + 1;
    }
    if i == a.len() && i < b.len() {
        assert(bindings_lt_at(a@, b@, i as int));
        true
    } else {
        proof {
            assert forall|k: int| !bindings_lt_at(a@, b@, k) by {
                if 0 <= k < i {
                    lemma_binding_lt_strict(a@[k], a@[k], a@[k]);
                }
            }
        }
        false
    }
}

/// The empty sequence holds nothing.
pub proof fn lemma_empty_to_multiset<A>(s: Seq<A>)
    requires
        s.len() == 0,
    ensures
        s.to_multiset() =~= vstd::multiset::Multiset::empty(),
{
    vstd::seq_lib::to_multiset_len(s);
    vstd::multiset::lemma_multiset_empty_len(s.to_multiset());
}

/// Inserts `x` into the sorted `r` after every member that does not
/// come after it.
fn insert_member(r: &mut Vec<Member>, x: Member)
    requires
        members_sorted(old(r)@),
    ensures
        members_sorted(final(r)@),
        final(r)@.to_multiset() == old(r)@.to_multiset().insert(x),
        member_views(final(r)@).to_multiset() == member_views(old(r)@).to_multiset().insert(x.properties@),
{
    let mut p: usize = 0;
    while p < r.len() && !bindings_less(&x.properties, &r[p].properties)
        invariant
            p <= r@.len(),
            forall|i: int| 0 <= i < p ==> !member_lt(x, #[trigger] r@[i]),
        decreases r@.len() - p,
    {
        p = p + 1;
    }
    let ghost r0 = r@;
    r.insert(p, x);
    proof {
        vstd::seq_lib::to_multiset_insert(r0, p as int, x);
        assert(member_views(r@) =~= member_views(r0).insert(p as int, x.properties@));
        vstd::seq_lib::to_multiset_insert(member_views(r0), p as int, x.properties@);
        assert forall|i: int, j: int| 0 <= i < j < r@.len() implies !member_lt(#[trigger] r@[j], #[trigger] r@[i]) by {
            if j < p {
                assert(r@[i] == r0[i] && r@[j] == r0[j]);
            } else if j == p {
                assert(r@[i] == r0[i]);
            } else if i == p {
                let y = r0[j - 1];
                assert(r@[j] == y);
                assert(member_lt(x, r0[p as int]));
                if member_lt(y, x) {
                    lemma_bindings_lt_transitive(y.properties@, x.properties@, r0[p as int].properties@);
                    if j - 1 == p {
                        lemma_bindings_lt_irreflexive(y.properties@);
                    } else {
                        assert(!member_lt(r0[j - 1], r0[p as int]));
                    }
                }
            } else if i < p {
                assert(r@[i] == r0[i] && r@[j] == r0[j - 1]);
            } else {
                assert(r@[i] == r0[i - 1] && r@[j] == r0[j - 1]);
            }
        }
    }
}

/// Sorts members by their derived order.
pub fn sort_members(v: Vec<Member>) -> (r: Vec<Member>)
    ensures
        members_sorted(r@),
        r@.to_multiset() == v@.to_multiset(),
        member_views(r@).to_multiset() == member_views(v@).to_multiset(),
{
    let mut v = v;
    let ghost v0 = v@;
    let mut r: Vec<Member> = Vec::new();
    proof {
        assert(v@.subrange(0, v@.len() as int) =~= v@);
        lemma_empty_to_multiset(r@);
        broadcast use vstd::multiset::group_multiset_axioms;
        assert(r@.to_multiset().add(v@.to_multiset()) =~= v0.to_multiset());
        lemma_empty_to_multiset(member_views(r@));
        assert(member_views(r@).to_multiset().add(member_views(v@).to_multiset()) =~= member_views(v0).to_multiset());
    }
    while v.len() > 0
        invariant
            members_sorted(r@),
            v@ =~= v0.subrange(0, v@.len() as int),
            v@.len() <= v0.len(),
            r@.to_multiset().add(v@.to_multiset()) == v0.to_multiset(),
            member_views(r@).to_multiset().add(member_views(v@).to_multiset()) == member_views(v0).to_multiset(),
        decreases v@.len(),
    {
        let ghost before = v@;
        let x = v.pop().unwrap();
        proof {
            assert(before =~= v@.push(x));
            vstd::seq_lib::to_multiset_build(v@, x);
            assert(member_views(before) =~= member_views(v@).push(x.properties@));
            vstd::seq_lib::to_multiset_build(member_views(v@), x.properties@);
            assert(v@ =~= v0.subrange(0, v@.len() as int));
        }
        let ghost r_before = r@;
        insert_member(&mut r, x);
        proof {
            broadcast use vstd::multiset::group_multiset_axioms;
            assert(r@.to_multiset().add(v@.to_multiset()) =~= r_before.to_multiset().add(before.to_multiset()));
            assert(member_views(r@).to_multiset().add(member_views(v@).to_multiset()) =~= member_views(r_before).to_multiset().add(member_views(before).to_multiset()));
        }
    }
    proof {
        broadcast use vstd::multiset::group_multiset_axioms;
        lemma_empty_to_multiset(v@);
        assert(r@.to_multiset().add(v@.to_multiset()) =~= r@.to_multiset());
        lemma_empty_to_multiset(member_views(v@));
        assert(member_views(r@).to_multiset().add(member_views(v@).to_multiset()) =~= member_views(r@).to_multiset());
    }
    r
}

} // verus!
