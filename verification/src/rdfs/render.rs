//! How rendered rules write IRIs: relative to a base IRI, or compacted
//! with a prefix.
use vstd::prelude::*;
use vstd::string::{StrSliceExecFns, StringExecFns};

use crate::rdfs::parsing::{is_iri, is_iri_reference};
use crate::rdfs::{IriBuf, IriRefBuf};

verus! {

/// Whether `a` comes before `b`, comparing characters from index `i` on
/// (by code point; a proper prefix comes first).
pub open spec fn text_lt_from(a: Seq<char>, b: Seq<char>, i: int) -> bool
    decreases a.len() - i,
{
    if i < 0 || i >= a.len() {
        i < b.len()
    } else if i >= b.len() {
        false
    } else if a[i] != b[i] {
        a[i] < b[i]
    } else {
        text_lt_from(a, b, i + 1)
    }
}

/// Lexicographic order of texts, by code point, as `String`s are ordered.
pub open spec fn text_lt(a: Seq<char>, b: Seq<char>) -> bool {
    text_lt_from(a, b, 0)
}

proof fn lemma_text_lt_from_total(a: Seq<char>, b: Seq<char>, i: int)
    requires
        0 <= i,
        i <= a.len(),
        i <= b.len(),
        a.subrange(0, i) == b.subrange(0, i),
    ensures
        a != b ==> text_lt_from(a, b, i) || text_lt_from(b, a, i),
        !(text_lt_from(a, b, i) && text_lt_from(b, a, i)),
    decreases a.len() - i,
{
    if i < a.len() && i < b.len() && a[i] == b[i] {
        assert(a.subrange(0, i + 1) =~= a.subrange(0, i).push(a[i]));
        assert(b.subrange(0, i + 1) =~= b.subrange(0, i).push(b[i]));
        lemma_text_lt_from_total(a, b, i + 1);
    } else if i == a.len() && i == b.len() {
        assert(a =~= a.subrange(0, i));
        assert(b =~= b.subrange(0, i));
    }
}

/// Distinct texts are ordered one way exactly.
pub proof fn lemma_text_lt_total(a: Seq<char>, b: Seq<char>)
    ensures
        a != b ==> text_lt(a, b) || text_lt(b, a),
        !(text_lt(a, b) && text_lt(b, a)),
{
    assert(a.subrange(0, 0) =~= b.subrange(0, 0));
    lemma_text_lt_from_total(a, b, 0);
}

/// Whether `a` comes before `b`.
fn text_less(a: &str, b: &str) -> (r: bool)
    ensures
        r == text_lt(a@, b@),
{
    let n = a.unicode_len();
    let m = b.unicode_len();
    let mut i: usize = 0;
    while i < n && i < m
        invariant
            n == a@.len(),
            m == b@.len(),
            i <= n,
            i <= m,
            text_lt_from(a@, b@, i as int) == text_lt(a@, b@),
        decreases n - i,
    {
        let x = a.get_char(i);
        let y = b.get_char(i);
        if x != y {
            return x < y;
        }
        i = i + 1;
    }
    i < m
}

/// `str::strip_prefix`: what follows `p` in `s`, if `s` starts with `p`.
#[verifier::external_body]
fn strip_prefix<'a>(s: &'a str, p: &str) -> (r: Option<&'a str>)
    ensures
        r matches Some(rest) ==> s@ == p@ + rest@,
        r is None ==> !p@.is_prefix_of(s@),
{
    s.strip_prefix(p)
}

/// The IRI `iri` written relative to the IRI `base`.
pub uninterp spec fn relative_iri_ref(iri: Seq<char>, base: Seq<char>) -> Seq<char>;

/// `iref::Iri::relative_to`: the IRI `iri` as a reference relative to
/// `base` (both read by `iref::Iri::new`); the result is an IRI reference.
#[verifier::external_body]
fn relative_to(iri: &str, base: &str) -> (r: String)
    requires
        is_iri(iri@),
        is_iri(base@),
    ensures
        r@ == relative_iri_ref(iri@, base@),
        is_iri_reference(r@),
{
    String::from(iref::Iri::new(iri).unwrap().relative_to(iref::Iri::new(base).unwrap()))
}

/// `From<iref::IriBuf> for iref::IriRefBuf`: an IRI taken as an IRI
/// reference, unchanged; the source shows that every IRI is one.
#[verifier::external_body]
fn iri_as_reference(iri: &str) -> (r: String)
    requires
        is_iri(iri@),
    ensures
        r@ == iri@,
        is_iri_reference(r@),
{
    String::from(iref::IriRefBuf::from(iref::IriBuf::new(iri.to_owned()).unwrap()))
}

/// Base IRI and prefixes used to write IRIs.
pub struct Context {
    base_iri: Option<IriBuf>,
    prefixes: Vec<(String, String)>,
}

/// The prefix each IRI prefix value is written with, each declaration
/// replacing the earlier ones of its value.
pub open spec fn value_map(b: Seq<(String, String)>) -> Map<Seq<char>, Seq<char>>
    decreases b.len(),
{
    if b.len() == 0 {
        Map::empty()
    } else {
        value_map(b.drop_last()).insert(b.last().0@, b.last().1@)
    }
}

/// Whether the declared value `v` starts `iri`.
pub open spec fn candidate(prefixes: Map<Seq<char>, Seq<char>>, iri: Seq<char>, v: Seq<char>) -> bool {
    prefixes.dom().contains(v) && v.is_prefix_of(iri)
}

/// `iri` written with the prefix declared for `v`.
pub open spec fn compact_with(prefixes: Map<Seq<char>, Seq<char>>, iri: Seq<char>, v: Seq<char>) -> Seq<char> {
    prefixes[v] + seq![':'] + iri.subrange(v.len() as int, iri.len() as int)
}

/// How `iri` is written: with the prefix of the first declared value
/// (in the order of texts) that starts it, or as it is.
pub open spec fn compacted(prefixes: Map<Seq<char>, Seq<char>>, iri: Seq<char>, r: Seq<char>) -> bool {
    ||| exists|v: Seq<char>|
        #[trigger] candidate(prefixes, iri, v) && (forall|w: Seq<char>| #[trigger] candidate(prefixes, iri, w) ==> !text_lt(w, v))
            && r == compact_with(prefixes, iri, v)
    ||| (forall|w: Seq<char>| !#[trigger] candidate(prefixes, iri, w)) && r == iri
}

/// At most one declared value starting an IRI comes first.
pub proof fn lemma_first_candidate_unique(prefixes: Map<Seq<char>, Seq<char>>, iri: Seq<char>, v: Seq<char>, u: Seq<char>)
    requires
        candidate(prefixes, iri, v),
        candidate(prefixes, iri, u),
        forall|w: Seq<char>| #[trigger] candidate(prefixes, iri, w) ==> !text_lt(w, v),
        forall|w: Seq<char>| #[trigger] candidate(prefixes, iri, w) ==> !text_lt(w, u),
    ensures
        v == u,
{
    lemma_text_lt_total(v, u);
}

pub proof fn lemma_value_map_unbound_after(b: Seq<(String, String)>, i: int, k: Seq<char>)
    requires
        0 <= i <= b.len(),
        forall|t: int| i <= t < b.len() ==> (#[trigger] b[t]).0@ != k,
    ensures
        value_map(b).dom().contains(k) == value_map(b.subrange(0, i)).dom().contains(k),
        value_map(b).dom().contains(k) ==> value_map(b)[k] == value_map(b.subrange(0, i))[k],
    decreases b.len() - i,
{
    if i < b.len() {
        let c = b.drop_last();
        assert forall|t: int| i <= t < c.len() implies (#[trigger] c[t]).0@ != k by {
            assert(c[t] == b[t]);
        }
        assert(b.last() == b[b.len() - 1]);
        lemma_value_map_unbound_after(c, i, k);
        assert(c.subrange(0, i) =~= b.subrange(0, i));
    } else {
        assert(b.subrange(0, i) =~= b);
    }
}

/// Every declared value is that of an entry, and an entry's value is
/// declared with the prefix of the last entry of that value.
pub proof fn lemma_value_map_entries(b: Seq<(String, String)>)
    ensures
        forall|k: Seq<char>| #[trigger] value_map(b).dom().contains(k) ==> exists|t: int| 0 <= t < b.len() && b[t].0@ == k,
        forall|t: int| 0 <= t < b.len() ==> value_map(b).dom().contains(#[trigger] b[t].0@),
    decreases b.len(),
{
    if b.len() > 0 {
        let c = b.drop_last();
        lemma_value_map_entries(c);
        assert forall|k: Seq<char>| #[trigger] value_map(b).dom().contains(k) implies exists|t: int| 0 <= t < b.len() && b[t].0@ == k by {
            if k != b.last().0@ {
                assert(value_map(c).dom().contains(k));
                let t = choose|t: int| 0 <= t < c.len() && c[t].0@ == k;
                assert(c[t] == b.subrange(0, b.len() - 1)[t]);
                assert(b[t].0@ == k);
            } else {
                assert(b[b.len() - 1].0@ == k);
            }
        }
        assert forall|t: int| 0 <= t < b.len() implies value_map(b).dom().contains(#[trigger] b[t].0@) by {
            if t < b.len() - 1 {
                assert(b[t] == c[t]);
            }
        }
    }
}

impl Context {
    /// The base IRI.
    pub closed spec fn base(&self) -> Option<Seq<char>> {
        match self.base_iri {
            Some(b) => Some(b@),
            None => None,
        }
    }

    /// The prefix each declared value is written with.
    pub closed spec fn prefixes(&self) -> Map<Seq<char>, Seq<char>> {
        value_map(self.prefixes@)
    }

    /// No base IRI and no prefix.
    pub fn new() -> (r: Context)
        ensures
            r.base() is None,
            r.prefixes() == Map::<Seq<char>, Seq<char>>::empty(),
    {
        Context { base_iri: None, prefixes: Vec::new() }
    }

    pub fn set_base_iri(&mut self, iri: Option<IriBuf>)
        ensures
            final(self).base() == (match iri {
                Some(b) => Some(b@),
                None => None::<Seq<char>>,
            }),
            final(self).prefixes() == old(self).prefixes(),
    {
        self.base_iri = iri;
    }

    /// Writes IRIs starting with `value` with `prefix`.
    pub fn declare_prefix(&mut self, prefix: String, value: String)
        ensures
            final(self).prefixes() == old(self).prefixes().insert(value@, prefix@),
            final(self).base() == old(self).base(),
    {
        let ghost b0 = self.prefixes@;
        self.prefixes.push((value, prefix));
        proof {
            assert(self.prefixes@.drop_last() =~= b0);
        }
    }

    /// `iri` as a reference relative to the base IRI, if there is one.
    pub fn iri_ref(&self, iri: &IriBuf) -> (r: IriRefBuf)
        ensures
            r@ == (match self.base() {
                Some(b) => relative_iri_ref(iri@, b),
                None => iri@,
            }),
    {
        proof {
            use_type_invariant(iri);
        }
        match &self.base_iri {
            Some(b) => {
                proof {
                    use_type_invariant(b);
                }
                IriRefBuf::from_checked(relative_to(iri.as_str(), b.as_str()))
            },
            None => IriRefBuf::from_checked(iri_as_reference(iri.as_str())),
        }
    }

    /// `iri` written with the prefix of the first declared value (in the
    /// order of texts) that starts it, or as it is.
    pub fn compact_iri(&self, iri: &IriBuf) -> (r: String)
        ensures
            compacted(self.prefixes(), iri@, r@),
    {
        let b = &self.prefixes;
        let s = iri.as_str();
        let mut best: Option<usize> = None;
        let mut i = b.len();
        while i > 0
            invariant
                i <= b@.len(),
                b == &self.prefixes,
                s@ == iri@,
                match best {
                    Some(t) => i <= t < b@.len() && b@[t as int].0@.is_prefix_of(iri@)
                        && value_map(b@).dom().contains(b@[t as int].0@)
                        && value_map(b@)[b@[t as int].0@] == b@[t as int].1@
                        && (forall|u: int| i <= u < b@.len() && (#[trigger] b@[u]).0@.is_prefix_of(iri@) ==> !text_lt(b@[u].0@, b@[t as int].0@)),
                    None => forall|u: int| i <= u < b@.len() ==> !(#[trigger] b@[u]).0@.is_prefix_of(iri@),
                },
            decreases i,
        {
            let j = i - 1;
            let stripped = strip_prefix(s, b[j].0.as_str());
            if stripped.is_some() {
                proof {
                    assert(b@[j as int].0@.is_prefix_of(iri@)) by {
                        assert(iri@.subrange(0, b@[j as int].0@.len() as int) =~= b@[j as int].0@);
                    }
                }
                let better = match best {
                    Some(t) => text_less(b[j].0.as_str(), b[t].0.as_str()),
                    None => true,
                };
                if better {
                    proof {
                        let v = b@[j as int].0@;
                        lemma_text_lt_total(v, v);
                        assert forall|u: int| j < u < b@.len() implies (#[trigger] b@[u]).0@ != v by {
                            if b@[u].0@ == v {
                                let t = best->0;
                                lemma_text_lt_total(v, v);
                            }
                        }
                        lemma_value_map_unbound_after(b@, j + 1, v);
                        assert(b@.subrange(0, j + 1).drop_last() =~= b@.subrange(0, j as int));
                        assert(b@.subrange(0, j + 1).last() == b@[j as int]);
                        assert forall|u: int| j <= u < b@.len() && (#[trigger] b@[u]).0@.is_prefix_of(iri@) implies !text_lt(b@[u].0@, v) by {
                            if u > j {
                                let t = best->0;
                                if text_lt(b@[u].0@, v) {
                                    lemma_text_lt_transitive(b@[u].0@, v, b@[t as int].0@);
                                }
                            }
                        }
                    }
                    best = Some(j);
                }
            }
            i = j;
        }
        proof {
            lemma_value_map_entries(b@);
        }
        match best {
            Some(t) => {
                let n = s.unicode_len();
                let rest = s.substring_char(b[t].0.as_str().unicode_len(), n);
                let r = b[t].1.clone().concat(":").concat(rest);
                proof {
                    let v = b@[t as int].0@;
                    reveal_strlit(":");
                    assert(candidate(value_map(b@), iri@, v));
                    assert forall|w: Seq<char>| #[trigger] candidate(value_map(b@), iri@, w) implies !text_lt(w, v) by {
                        let u = choose|u: int| 0 <= u < b@.len() && b@[u].0@ == w;
                        assert(b@[u].0@.is_prefix_of(iri@));
                    }
                    assert(r@ =~= compact_with(value_map(b@), iri@, v));
                }
                r
            },
            None => {
                proof {
                    assert forall|w: Seq<char>| !#[trigger] candidate(value_map(b@), iri@, w) by {
                        if candidate(value_map(b@), iri@, w) {
                            let u = choose|u: int| 0 <= u < b@.len() && b@[u].0@ == w;
                            assert(!b@[u].0@.is_prefix_of(iri@));
                        }
                    }
                }
                s.to_owned()
            },
        }
    }
}

pub proof fn lemma_text_lt_transitive(a: Seq<char>, b: Seq<char>, c: Seq<char>)
    requires
        text_lt(a, b),
        text_lt(b, c),
    ensures
        text_lt(a, c),
{
    lemma_text_lt_from_transitive(a, b, c, 0);
}

proof fn lemma_text_lt_from_transitive(a: Seq<char>, b: Seq<char>, c: Seq<char>, i: int)
    requires
        0 <= i,
        text_lt_from(a, b, i),
        text_lt_from(b, c, i),
    ensures
        text_lt_from(a, c, i),
    decreases a.len() - i,
{
    if i < a.len() && i < b.len() && i < c.len() && a[i] == b[i] && b[i] == c[i] {
        lemma_text_lt_from_transitive(a, b, c, i + 1);
    }
}

impl Default for Context {
    fn default() -> (r: Context)
        ensures
            r.base() is None,
            r.prefixes() == Map::<Seq<char>, Seq<char>>::empty(),
    {
        Context::new()
    }
}

} // verus!
