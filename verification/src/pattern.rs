//! Triple patterns and their canonical forms.
use vstd::prelude::*;

use crate::containers::{
    substitution_clone, substitution_entries, substitution_get, substitution_insert,
    substitution_len, substitution_new, substitution_or_insert,
};
use crate::id::Id;
use crate::triple::Triple;

verus! {

/// Identifier or variable.
#[derive(Debug, Clone, Copy, PartialEq, Eq, Hash, PartialOrd, Ord)]
pub enum IdOrVar<T = Id> {
    Id(T),
    Var(usize),
}

impl<T> IdOrVar<T> {
    pub fn map<U>(self, f: impl Fn(T) -> U) -> (r: IdOrVar<U>)
        requires
            self matches IdOrVar::Id(t) ==> f.requires((t,)),
        ensures
            match self {
                IdOrVar::Id(t) => r matches IdOrVar::Id(u) && f.ensures((t,), u),
                IdOrVar::Var(x) => r == IdOrVar::<U>::Var(x),
            },
    {
        match self {
            IdOrVar::Id(t) => IdOrVar::Id(f(t)),
            IdOrVar::Var(x) => IdOrVar::Var(x),
        }
    }

    pub fn into_wrapping_iter(self) -> (r: IdOrVarIter<T>)
        ensures
            match self {
                IdOrVar::Id(t) => r == IdOrVarIter::<T>::Id(t),
                IdOrVar::Var(x) => r == IdOrVarIter::<T>::Var(Some(x)),
            },
    {
        match self {
            IdOrVar::Id(iter) => IdOrVarIter::Id(iter),
            IdOrVar::Var(x) => IdOrVarIter::Var(Some(x)),
        }
    }

    pub fn is_id_or(&self, f: impl FnOnce(usize) -> bool) -> (r: bool)
        requires
            *self matches IdOrVar::Var(x) ==> f.requires((x,)),
        ensures
            match *self {
                IdOrVar::Id(_) => r,
                IdOrVar::Var(x) => f.ensures((x,), r),
            },
    {
        match self {
            IdOrVar::Id(_) => true,
            IdOrVar::Var(x) => f(*x),
        }
    }

    pub fn from_id(value: T) -> (r: IdOrVar<T>)
        ensures
            r == IdOrVar::Id(value),
    {
        IdOrVar::Id(value)
    }
}

/// Whether `v` matches `id` under `s`, and the substitution afterwards.
pub open spec fn id_or_var_bind(v: IdOrVar, s: Map<usize, Id>, id: Id) -> (bool, Map<usize, Id>) {
    match v {
        IdOrVar::Id(i) => (i == id, s),
        IdOrVar::Var(x) => if s.contains_key(x) {
            (s[x] == id, s)
        } else {
            (true, s.insert(x, id))
        },
    }
}

/// Whether `p` matches `t` under `s`, and the substitution afterwards
/// (positions are bound from subject to object, stopping at the first
/// mismatch).
pub open spec fn pattern_bind(p: Pattern, s: Map<usize, Id>, t: Triple) -> (bool, Map<usize, Id>) {
    let (b0, s0) = id_or_var_bind(p.0, s, t.0);
    if !b0 {
        (false, s0)
    } else {
        let (b1, s1) = id_or_var_bind(p.1, s0, t.1);
        if !b1 {
            (false, s1)
        } else {
            id_or_var_bind(p.2, s1, t.2)
        }
    }
}

impl IdOrVar {
    /// Matches the given identifier, binding the variable if needed.
    pub fn matching(&self, substitution: &mut PatternSubstitution, id: Id) -> (r: bool)
        ensures
            (r, final(substitution)@) == id_or_var_bind(*self, old(substitution)@, id),
    {
        match self {
            IdOrVar::Id(i) => *i == id,
            IdOrVar::Var(x) => substitution.bind(*x, id),
        }
    }

    /// Instantiates the identifier or variable with the given substitution.
    pub fn instantiate(&self, substitution: &PatternSubstitution) -> (r: Option<Id>)
        ensures
            r == (match *self {
                IdOrVar::Id(i) => Some(i),
                IdOrVar::Var(x) => if substitution@.contains_key(x) {
                    Some(substitution@[x])
                } else {
                    None
                },
            }),
    {
        match self {
            IdOrVar::Id(id) => Some(*id),
            IdOrVar::Var(x) => substitution.get(*x),
        }
    }
}

/// Triple pattern.
#[derive(Debug, Clone, Copy, PartialEq, Eq, Hash, PartialOrd, Ord)]
pub struct Pattern<T = Id>(pub IdOrVar<T>, pub IdOrVar<T>, pub IdOrVar<T>);

impl<T> Pattern<T> {
    pub fn new(s: IdOrVar<T>, p: IdOrVar<T>, o: IdOrVar<T>) -> (r: Pattern<T>)
        ensures
            r == Pattern(s, p, o),
    {
        Pattern(s, p, o)
    }
}

impl Pattern {
    /// The pattern matching exactly the given triple.
    pub fn from_triple(t: Triple) -> (r: Pattern)
        ensures
            r == Pattern(IdOrVar::Id(t.0), IdOrVar::Id(t.1), IdOrVar::Id(t.2)),
    {
        Pattern(IdOrVar::Id(t.0), IdOrVar::Id(t.1), IdOrVar::Id(t.2))
    }

    /// Matches the given triple, extending the substitution.
    pub fn matching(&self, substitution: &mut PatternSubstitution, t: Triple) -> (r: bool)
        ensures
            (r, final(substitution)@) == pattern_bind(*self, old(substitution)@, t),
    {
        self.0.matching(substitution, t.0) && self.1.matching(substitution, t.1)
            && self.2.matching(substitution, t.2)
    }

    /// Instantiates the pattern with the given substitution.
    pub fn instantiate(&self, substitution: &PatternSubstitution) -> (r: Option<Triple>)
        ensures
            r == (match (
                id_or_var_value(self.0, substitution@),
                id_or_var_value(self.1, substitution@),
                id_or_var_value(self.2, substitution@),
            ) {
                (Some(s), Some(p), Some(o)) => Some(Triple(s, p, o)),
                _ => None,
            }),
    {
        let s = self.0.instantiate(substitution)?;
        let p = self.1.instantiate(substitution)?;
        let o = self.2.instantiate(substitution)?;
        Some(Triple(s, p, o))
    }

    /// Converts a canonical pattern back to a pattern, using variables 0, 1
    /// and 2 for the subject, predicate and object positions.
    pub fn from_canonical(value: Canonical) -> (r: Pattern)
        ensures
            r == pattern_of_canonical(value),
    {
        let s = match value.subject().cloned() {
            PatternSubject::Any => IdOrVar::Var(0),
            PatternSubject::Given(id) => IdOrVar::Id(id),
        };
        let p = match value.predicate().cloned() {
            PatternPredicate::Any => IdOrVar::Var(1),
            PatternPredicate::SameAsSubject => IdOrVar::Var(0),
            PatternPredicate::Given(id) => IdOrVar::Id(id),
        };
        let o = match value.object().cloned() {
            PatternObject::Any => IdOrVar::Var(2),
            PatternObject::SameAsSubject => IdOrVar::Var(0),
            PatternObject::SameAsPredicate => IdOrVar::Var(1),
            PatternObject::Given(id) => IdOrVar::Id(id),
        };
        Pattern(s, p, o)
    }
}

/// Value of an identifier or variable under a substitution, if any.
pub open spec fn id_or_var_value(v: IdOrVar, s: Map<usize, Id>) -> Option<Id> {
    match v {
        IdOrVar::Id(i) => Some(i),
        IdOrVar::Var(x) => if s.contains_key(x) {
            Some(s[x])
        } else {
            None
        },
    }
}

/// Pattern of a canonical pattern, with variables 0, 1, 2.
pub open spec fn pattern_of_canonical(c: Canonical) -> Pattern {
    Pattern(
        match canonical_subject(c) {
            PatternSubject::Any => IdOrVar::Var(0),
            PatternSubject::Given(id) => IdOrVar::Id(id),
        },
        match canonical_predicate(c) {
            PatternPredicate::Any => IdOrVar::Var(1),
            PatternPredicate::SameAsSubject => IdOrVar::Var(0),
            PatternPredicate::Given(id) => IdOrVar::Id(id),
        },
        match canonical_object(c) {
            PatternObject::Any => IdOrVar::Var(2),
            PatternObject::SameAsSubject => IdOrVar::Var(0),
            PatternObject::SameAsPredicate => IdOrVar::Var(1),
            PatternObject::Given(id) => IdOrVar::Id(id),
        },
    )
}

/// The canonical form of a pattern.
pub open spec fn canonical_of_pattern<T>(pattern: Pattern<T>) -> Canonical<T> {
    match pattern.0 {
        IdOrVar::Id(s) => Canonical::GivenSubject(s, spec_given_subject(pattern.1, pattern.2)),
        IdOrVar::Var(s) => Canonical::AnySubject(spec_any_subject(s, pattern.1, pattern.2)),
    }
}

/// Iterator over identifiers or a single variable.
#[derive(Debug, Clone)]
pub enum IdOrVarIter<T = Id> {
    Id(T),
    Var(Option<usize>),
}

/// What an iterator over the items of `v` or over a single variable has
/// left to yield.
pub open spec fn id_or_var_iter_items<U>(it: IdOrVarIter<Vec<U>>) -> Seq<IdOrVar<U>> {
    match it {
        IdOrVarIter::Id(v) => v@.map_values(|u: U| IdOrVar::Id(u)),
        IdOrVarIter::Var(Some(x)) => seq![IdOrVar::Var(x)],
        IdOrVarIter::Var(None) => Seq::empty(),
    }
}

impl<U> IdOrVarIter<Vec<U>> {
    /// Yields the next item: the wrapped items in order, or the variable
    /// once; then nothing.
    pub fn next(&mut self) -> (r: Option<IdOrVar<U>>)
        ensures
            id_or_var_iter_items(*old(self)).len() == 0 ==> r is None && id_or_var_iter_items(*final(self))
                == id_or_var_iter_items(*old(self)),
            id_or_var_iter_items(*old(self)).len() > 0 ==> r == Some(id_or_var_iter_items(*old(self))[0])
                && id_or_var_iter_items(*final(self)) == id_or_var_iter_items(*old(self)).drop_first(),
    {
        match self {
            IdOrVarIter::Id(v) => {
                if v.len() == 0 {
                    None
                } else {
                    let ghost before = v@;
                    let u = v.remove(0);
                    proof {
                        assert(v@.map_values(|u: U| IdOrVar::Id(u)) =~= before.map_values(|u: U| IdOrVar::Id(u)).drop_first());
                    }
                    Some(IdOrVar::Id(u))
                }
            },
            IdOrVarIter::Var(x) => match x {
                Some(y) => {
                    let v = *y;
                    *x = None;
                    proof {
                        assert(id_or_var_iter_items(*self) =~= id_or_var_iter_items(*old(self)).drop_first());
                    }
                    Some(IdOrVar::Var(v))
                },
                None => None,
            },
        }
    }

    /// Everything the iterator has left to yield, in order.
    pub fn into_vec(self) -> (r: Vec<IdOrVar<U>>)
        ensures
            r@ == id_or_var_iter_items(self),
    {
        let mut it = self;
        let mut out: Vec<IdOrVar<U>> = Vec::new();
        let ghost all = id_or_var_iter_items(self);
        loop
            invariant
                all == id_or_var_iter_items(self),
                all == out@ + id_or_var_iter_items(it),
            decreases id_or_var_iter_items(it).len(),
        {
            let ghost before = id_or_var_iter_items(it);
            match it.next() {
                Some(item) => {
                    out.push(item);
                    proof {
                        assert(all =~= out@ + id_or_var_iter_items(it));
                    }
                },
                None => {
                    proof {
                        assert(id_or_var_iter_items(it).len() == 0);
                        assert(out@ =~= all);
                    }
                    return out;
                },
            }
        }
    }
}

/// Canonical triple pattern.
#[derive(Debug, Clone, Copy, PartialEq, Eq, Hash, PartialOrd, Ord)]
pub enum Canonical<T = Id> {
    AnySubject(AnySubject<T>),
    GivenSubject(T, GivenSubject<T>),
}

/// Subject constraint of a canonical pattern.
pub open spec fn canonical_subject<T>(c: Canonical<T>) -> PatternSubject<T> {
    match c {
        Canonical::AnySubject(_) => PatternSubject::Any,
        Canonical::GivenSubject(id, _) => PatternSubject::Given(id),
    }
}

/// Predicate constraint of a canonical pattern.
pub open spec fn canonical_predicate<T>(c: Canonical<T>) -> PatternPredicate<T> {
    match c {
        Canonical::AnySubject(t) => match t {
            AnySubject::AnyPredicate(_) => PatternPredicate::Any,
            AnySubject::SameAsSubject(_) => PatternPredicate::SameAsSubject,
            AnySubject::GivenPredicate(id, _) => PatternPredicate::Given(id),
        },
        Canonical::GivenSubject(_, t) => match t {
            GivenSubject::AnyPredicate(_) => PatternPredicate::Any,
            GivenSubject::GivenPredicate(id, _) => PatternPredicate::Given(id),
        },
    }
}

/// Object constraint of a canonical pattern.
pub open spec fn canonical_object<T>(c: Canonical<T>) -> PatternObject<T> {
    match c {
        Canonical::AnySubject(t) => match t {
            AnySubject::AnyPredicate(o) => match o {
                AnySubjectAnyPredicate::AnyObject => PatternObject::Any,
                AnySubjectAnyPredicate::SameAsSubject => PatternObject::SameAsSubject,
                AnySubjectAnyPredicate::SameAsPredicate => PatternObject::SameAsPredicate,
                AnySubjectAnyPredicate::GivenObject(id) => PatternObject::Given(id),
            },
            AnySubject::SameAsSubject(o) => any_subject_given_predicate_object(o),
            AnySubject::GivenPredicate(_, o) => any_subject_given_predicate_object(o),
        },
        Canonical::GivenSubject(_, t) => match t {
            GivenSubject::AnyPredicate(o) => match o {
                GivenSubjectAnyPredicate::AnyObject => PatternObject::Any,
                GivenSubjectAnyPredicate::SameAsPredicate => PatternObject::SameAsPredicate,
                GivenSubjectAnyPredicate::GivenObject(id) => PatternObject::Given(id),
            },
            GivenSubject::GivenPredicate(_, o) => match o {
                GivenSubjectGivenPredicate::AnyObject => PatternObject::Any,
                GivenSubjectGivenPredicate::GivenObject(id) => PatternObject::Given(id),
            },
        },
    }
}

pub open spec fn any_subject_given_predicate_object<T>(o: AnySubjectGivenPredicate<T>) -> PatternObject<T> {
    match o {
        AnySubjectGivenPredicate::AnyObject => PatternObject::Any,
        AnySubjectGivenPredicate::SameAsSubject => PatternObject::SameAsSubject,
        AnySubjectGivenPredicate::GivenObject(id) => PatternObject::Given(id),
    }
}

/// Whether a triple matches the subject constraint.
pub open spec fn subject_matches(s: PatternSubject, t: Triple) -> bool {
    match s {
        PatternSubject::Any => true,
        PatternSubject::Given(id) => t.0 == id,
    }
}

/// Whether a triple matches the predicate constraint.
pub open spec fn predicate_matches(p: PatternPredicate, t: Triple) -> bool {
    match p {
        PatternPredicate::Any => true,
        PatternPredicate::SameAsSubject => t.1 == t.0,
        PatternPredicate::Given(id) => t.1 == id,
    }
}

/// Whether a triple matches the object constraint.
pub open spec fn object_matches(o: PatternObject, t: Triple) -> bool {
    match o {
        PatternObject::Any => true,
        PatternObject::SameAsSubject => t.2 == t.0,
        PatternObject::SameAsPredicate => t.2 == t.1,
        PatternObject::Given(id) => t.2 == id,
    }
}

/// Whether a triple matches a canonical pattern.
pub open spec fn canonical_matches(c: Canonical, t: Triple) -> bool {
    &&& subject_matches(canonical_subject(c), t)
    &&& predicate_matches(canonical_predicate(c), t)
    &&& object_matches(canonical_object(c), t)
}

/// Whether a triple matches a pattern under some substitution of its
/// variables.
pub open spec fn pattern_matches(p: Pattern, t: Triple) -> bool {
    pattern_bind(p, Map::empty(), t).0
}

impl<T> Canonical<T> {
    /// The canonical pattern matching exactly the given triple.
    pub fn from_triple(s: T, p: T, o: T) -> (r: Canonical<T>)
        ensures
            r == Canonical::GivenSubject(
                s,
                GivenSubject::GivenPredicate(p, GivenSubjectGivenPredicate::GivenObject(o)),
            ),
    {
        Canonical::GivenSubject(
            s,
            GivenSubject::GivenPredicate(p, GivenSubjectGivenPredicate::GivenObject(o)),
        )
    }

    /// Canonical pattern where `None` stands for "any".
    pub fn from_option_triple(s: Option<T>, p: Option<T>, o: Option<T>) -> (r: Canonical<T>)
        ensures
            canonical_subject(r) == (match s {
                Some(s) => PatternSubject::Given(s),
                None => PatternSubject::Any,
            }),
            canonical_predicate(r) == (match p {
                Some(p) => PatternPredicate::Given(p),
                None => PatternPredicate::Any,
            }),
            canonical_object(r) == (match o {
                Some(o) => PatternObject::Given(o),
                None => PatternObject::Any,
            }),
    {
        match s {
            Some(s) => Canonical::GivenSubject(s, GivenSubject::from_option_triple(p, o)),
            None => Canonical::AnySubject(AnySubject::from_option_triple(p, o)),
        }
    }

    pub fn from_pattern(pattern: Pattern<T>) -> (r: Canonical<T>)
        ensures
            r == canonical_of_pattern(pattern),
    {
        match pattern.0 {
            IdOrVar::Id(s) => Canonical::GivenSubject(s, GivenSubject::from_pattern(pattern.1, pattern.2)),
            IdOrVar::Var(s) => Canonical::AnySubject(AnySubject::from_pattern(s, pattern.1, pattern.2)),
        }
    }

    pub fn subject(&self) -> (r: PatternSubject<&T>)
        ensures
            match canonical_subject(*self) {
                PatternSubject::Any => r == PatternSubject::<&T>::Any,
                PatternSubject::Given(id) => r matches PatternSubject::Given(x) && *x == id,
            },
    {
        match self {
            Canonical::AnySubject(_) => PatternSubject::Any,
            Canonical::GivenSubject(id, _) => PatternSubject::Given(id),
        }
    }

    pub fn predicate(&self) -> (r: PatternPredicate<&T>)
        ensures
            match canonical_predicate(*self) {
                PatternPredicate::Any => r == PatternPredicate::<&T>::Any,
                PatternPredicate::SameAsSubject => r == PatternPredicate::<&T>::SameAsSubject,
                PatternPredicate::Given(id) => r matches PatternPredicate::Given(x) && *x == id,
            },
    {
        match self {
            Canonical::AnySubject(t) => t.predicate(),
            Canonical::GivenSubject(_, t) => t.predicate(),
        }
    }

    pub fn object(&self) -> (r: PatternObject<&T>)
        ensures
            match canonical_object(*self) {
                PatternObject::Any => r == PatternObject::<&T>::Any,
                PatternObject::SameAsSubject => r == PatternObject::<&T>::SameAsSubject,
                PatternObject::SameAsPredicate => r == PatternObject::<&T>::SameAsPredicate,
                PatternObject::Given(id) => r matches PatternObject::Given(x) && *x == id,
            },
    {
        match self {
            Canonical::AnySubject(t) => t.object(),
            Canonical::GivenSubject(_, t) => t.object(),
        }
    }
}

impl Canonical {
    /// Subject constraint, by value.
    pub fn subject_id(&self) -> (r: Option<Id>)
        ensures
            r == (match canonical_subject(*self) {
                PatternSubject::Given(id) => Some(id),
                PatternSubject::Any => None,
            }),
    {
        match self {
            Canonical::AnySubject(_) => None,
            Canonical::GivenSubject(id, _) => Some(*id),
        }
    }

    /// Predicate constraint, by value.
    pub fn predicate_constraint(&self) -> (r: PatternPredicate)
        ensures
            r == canonical_predicate(*self),
    {
        self.predicate().cloned()
    }

    /// Object constraint, by value.
    pub fn object_constraint(&self) -> (r: PatternObject)
        ensures
            r == canonical_object(*self),
    {
        self.object().cloned()
    }

    /// Whether the triple matches the pattern.
    pub fn matches_triple(&self, t: Triple) -> (r: bool)
        ensures
            r == canonical_matches(*self, t),
    {
        let subject_ok = match self.subject_id() {
            Some(id) => t.0 == id,
            None => true,
        };
        subject_ok && self.predicate_constraint().filter_triple(t) && self.object_constraint().filter_triple(t)
    }
}

/// Canonical form of the predicate and object of a pattern whose subject is
/// a given identifier.
pub open spec fn spec_given_subject<T>(p: IdOrVar<T>, o: IdOrVar<T>) -> GivenSubject<T> {
    match p {
        IdOrVar::Id(p) => GivenSubject::GivenPredicate(
            p,
            match o {
                IdOrVar::Id(o) => GivenSubjectGivenPredicate::GivenObject(o),
                IdOrVar::Var(_) => GivenSubjectGivenPredicate::AnyObject,
            },
        ),
        IdOrVar::Var(p) => GivenSubject::AnyPredicate(
            match o {
                IdOrVar::Id(o) => GivenSubjectAnyPredicate::GivenObject(o),
                IdOrVar::Var(o) => if p == o {
                    GivenSubjectAnyPredicate::SameAsPredicate
                } else {
                    GivenSubjectAnyPredicate::AnyObject
                },
            },
        ),
    }
}

/// Canonical form of the predicate and object of a pattern whose subject is
/// the variable `s`.
pub open spec fn spec_any_subject<T>(s: usize, p: IdOrVar<T>, o: IdOrVar<T>) -> AnySubject<T> {
    match p {
        IdOrVar::Id(p) => AnySubject::GivenPredicate(p, spec_any_subject_given_predicate(s, o)),
        IdOrVar::Var(p) => if p == s {
            AnySubject::SameAsSubject(spec_any_subject_given_predicate(s, o))
        } else {
            AnySubject::AnyPredicate(
                match o {
                    IdOrVar::Id(o) => AnySubjectAnyPredicate::GivenObject(o),
                    IdOrVar::Var(o) => if o == s {
                        AnySubjectAnyPredicate::SameAsSubject
                    } else if o == p {
                        AnySubjectAnyPredicate::SameAsPredicate
                    } else {
                        AnySubjectAnyPredicate::AnyObject
                    },
                },
            )
        },
    }
}

pub open spec fn spec_any_subject_given_predicate<T>(s: usize, o: IdOrVar<T>) -> AnySubjectGivenPredicate<T> {
    match o {
        IdOrVar::Id(o) => AnySubjectGivenPredicate::GivenObject(o),
        IdOrVar::Var(o) => if o == s {
            AnySubjectGivenPredicate::SameAsSubject
        } else {
            AnySubjectGivenPredicate::AnyObject
        },
    }
}

/// Subject constraint.
#[derive(Debug, Clone, Copy, PartialEq, Eq, Hash, PartialOrd, Ord)]
pub enum PatternSubject<T = Id> {
    Any,
    Given(T),
}

impl<T> PatternSubject<T> {
    pub fn id(&self) -> (r: Option<&T>)
        ensures
            match *self {
                PatternSubject::Any => r == Option::<&T>::None,
                PatternSubject::Given(id) => r matches Some(x) && *x == id,
            },
    {
        match self {
            PatternSubject::Any => None,
            PatternSubject::Given(id) => Some(id),
        }
    }

    pub fn into_id(self) -> (r: Option<T>)
        ensures
            r == (match self {
                PatternSubject::Any => None,
                PatternSubject::Given(id) => Some(id),
            }),
    {
        match self {
            PatternSubject::Any => None,
            PatternSubject::Given(id) => Some(id),
        }
    }
}

impl<'a, T: Copy> PatternSubject<&'a T> {
    pub fn cloned(self) -> (r: PatternSubject<T>)
        ensures
            match self {
                PatternSubject::Any => r == PatternSubject::<T>::Any,
                PatternSubject::Given(x) => r == PatternSubject::Given(*x),
            },
    {
        match self {
            PatternSubject::Any => PatternSubject::Any,
            PatternSubject::Given(t) => PatternSubject::Given(*t),
        }
    }
}

/// Predicate constraint.
#[derive(Debug, Clone, Copy, PartialEq, Eq, Hash, PartialOrd, Ord)]
pub enum PatternPredicate<T = Id> {
    Any,
    SameAsSubject,
    Given(T),
}

impl<T> PatternPredicate<T> {
    pub fn id(&self) -> (r: Option<&T>)
        ensures
            match *self {
                PatternPredicate::Given(id) => r matches Some(x) && *x == id,
                _ => r == Option::<&T>::None,
            },
    {
        match self {
            PatternPredicate::Any => None,
            PatternPredicate::SameAsSubject => None,
            PatternPredicate::Given(id) => Some(id),
        }
    }

    pub fn into_id(self) -> (r: Option<T>)
        ensures
            r == (match self {
                PatternPredicate::Given(id) => Some(id),
                _ => None,
            }),
    {
        match self {
            PatternPredicate::Any => None,
            PatternPredicate::SameAsSubject => None,
            PatternPredicate::Given(id) => Some(id),
        }
    }
}

impl<'a, T: Copy> PatternPredicate<&'a T> {
    pub fn cloned(self) -> (r: PatternPredicate<T>)
        ensures
            match self {
                PatternPredicate::Any => r == PatternPredicate::<T>::Any,
                PatternPredicate::SameAsSubject => r == PatternPredicate::<T>::SameAsSubject,
                PatternPredicate::Given(x) => r == PatternPredicate::Given(*x),
            },
    {
        match self {
            PatternPredicate::Any => PatternPredicate::Any,
            PatternPredicate::SameAsSubject => PatternPredicate::SameAsSubject,
            PatternPredicate::Given(t) => PatternPredicate::Given(*t),
        }
    }
}

impl PatternPredicate {
    pub fn filter_triple(&self, triple: Triple) -> (r: bool)
        ensures
            r == predicate_matches(*self, triple),
    {
        match self {
            PatternPredicate::Any => true,
            PatternPredicate::SameAsSubject => triple.1 == triple.0,
            PatternPredicate::Given(id) => triple.1 == *id,
        }
    }
}

/// Object constraint.
#[derive(Debug, Clone, Copy, PartialEq, Eq, Hash, PartialOrd, Ord)]
pub enum PatternObject<T = Id> {
    Any,
    SameAsSubject,
    SameAsPredicate,
    Given(T),
}

impl<T> PatternObject<T> {
    pub fn id(&self) -> (r: Option<&T>)
        ensures
            match *self {
                PatternObject::Given(id) => r matches Some(x) && *x == id,
                _ => r == Option::<&T>::None,
            },
    {
        match self {
            PatternObject::Given(id) => Some(id),
            _ => None,
        }
    }

    pub fn into_id(self) -> (r: Option<T>)
        ensures
            r == (match self {
                PatternObject::Given(id) => Some(id),
                _ => None,
            }),
    {
        match self {
            PatternObject::Given(id) => Some(id),
            _ => None,
        }
    }
}

impl<'a, T: Copy> PatternObject<&'a T> {
    pub fn cloned(self) -> (r: PatternObject<T>)
        ensures
            match self {
                PatternObject::Any => r == PatternObject::<T>::Any,
                PatternObject::SameAsSubject => r == PatternObject::<T>::SameAsSubject,
                PatternObject::SameAsPredicate => r == PatternObject::<T>::SameAsPredicate,
                PatternObject::Given(x) => r == PatternObject::Given(*x),
            },
    {
        match self {
            PatternObject::Any => PatternObject::Any,
            PatternObject::SameAsSubject => PatternObject::SameAsSubject,
            PatternObject::SameAsPredicate => PatternObject::SameAsPredicate,
            PatternObject::Given(t) => PatternObject::Given(*t),
        }
    }
}

impl PatternObject {
    pub fn filter_triple(&self, triple: Triple) -> (r: bool)
        ensures
            r == object_matches(*self, triple),
    {
        match self {
            PatternObject::Any => true,
            PatternObject::SameAsSubject => triple.2 == triple.0,
            PatternObject::SameAsPredicate => triple.2 == triple.1,
            PatternObject::Given(id) => triple.2 == *id,
        }
    }
}

#[derive(Debug, Clone, Copy, PartialEq, Eq, Hash, PartialOrd, Ord)]
pub enum AnySubject<T = Id> {
    AnyPredicate(AnySubjectAnyPredicate<T>),
    SameAsSubject(AnySubjectGivenPredicate<T>),
    GivenPredicate(T, AnySubjectGivenPredicate<T>),
}

impl<T> AnySubject<T> {
    pub fn from_option_triple(p: Option<T>, o: Option<T>) -> (r: AnySubject<T>)
        ensures
            r == (match p {
                Some(p) => AnySubject::GivenPredicate(
                    p,
                    match o {
                        Some(o) => AnySubjectGivenPredicate::GivenObject(o),
                        None => AnySubjectGivenPredicate::AnyObject,
                    },
                ),
                None => AnySubject::AnyPredicate(
                    match o {
                        Some(o) => AnySubjectAnyPredicate::GivenObject(o),
                        None => AnySubjectAnyPredicate::AnyObject,
                    },
                ),
            }),
    {
        match p {
            Some(p) => AnySubject::GivenPredicate(p, AnySubjectGivenPredicate::from_option(o)),
            None => AnySubject::AnyPredicate(AnySubjectAnyPredicate::from_option(o)),
        }
    }

    pub fn from_pattern(s: usize, p: IdOrVar<T>, o: IdOrVar<T>) -> (r: AnySubject<T>)
        ensures
            r == spec_any_subject(s, p, o),
    {
        match p {
            IdOrVar::Id(p) => AnySubject::GivenPredicate(p, AnySubjectGivenPredicate::from_pattern(s, o)),
            IdOrVar::Var(p) => {
                if p == s {
                    AnySubject::SameAsSubject(AnySubjectGivenPredicate::from_pattern(s, o))
                } else {
                    AnySubject::AnyPredicate(AnySubjectAnyPredicate::from_pattern(s, p, o))
                }
            },
        }
    }

    pub fn predicate(&self) -> (r: PatternPredicate<&T>)
        ensures
            match *self {
                AnySubject::AnyPredicate(_) => r == PatternPredicate::<&T>::Any,
                AnySubject::SameAsSubject(_) => r == PatternPredicate::<&T>::SameAsSubject,
                AnySubject::GivenPredicate(id, _) => r matches PatternPredicate::Given(x) && *x == id,
            },
    {
        match self {
            AnySubject::AnyPredicate(_) => PatternPredicate::Any,
            AnySubject::SameAsSubject(_) => PatternPredicate::SameAsSubject,
            AnySubject::GivenPredicate(id, _) => PatternPredicate::Given(id),
        }
    }

    pub fn object(&self) -> (r: PatternObject<&T>)
        ensures
            match canonical_object(Canonical::AnySubject(*self)) {
                PatternObject::Any => r == PatternObject::<&T>::Any,
                PatternObject::SameAsSubject => r == PatternObject::<&T>::SameAsSubject,
                PatternObject::SameAsPredicate => r == PatternObject::<&T>::SameAsPredicate,
                PatternObject::Given(id) => r matches PatternObject::Given(x) && *x == id,
            },
    {
        match self {
            AnySubject::AnyPredicate(t) => t.object(),
            AnySubject::SameAsSubject(t) => t.object(),
            AnySubject::GivenPredicate(_, t) => t.object(),
        }
    }
}

#[derive(Debug, Clone, Copy, PartialEq, Eq, Hash, PartialOrd, Ord)]
pub enum AnySubjectAnyPredicate<T = Id> {
    AnyObject,
    SameAsSubject,
    SameAsPredicate,
    GivenObject(T),
}

impl<T> AnySubjectAnyPredicate<T> {
    pub fn from_option(o: Option<T>) -> (r: AnySubjectAnyPredicate<T>)
        ensures
            r == (match o {
                Some(o) => AnySubjectAnyPredicate::GivenObject(o),
                None => AnySubjectAnyPredicate::AnyObject,
            }),
    {
        match o {
            Some(o) => AnySubjectAnyPredicate::GivenObject(o),
            None => AnySubjectAnyPredicate::AnyObject,
        }
    }

    pub fn from_pattern(s: usize, p: usize, o: IdOrVar<T>) -> (r: AnySubjectAnyPredicate<T>)
        ensures
            r == (match o {
                IdOrVar::Id(o) => AnySubjectAnyPredicate::GivenObject(o),
                IdOrVar::Var(o) => if o == s {
                    AnySubjectAnyPredicate::SameAsSubject
                } else if o == p {
                    AnySubjectAnyPredicate::SameAsPredicate
                } else {
                    AnySubjectAnyPredicate::AnyObject
                },
            }),
    {
        match o {
            IdOrVar::Id(o) => AnySubjectAnyPredicate::GivenObject(o),
            IdOrVar::Var(o) => {
                if o == s {
                    AnySubjectAnyPredicate::SameAsSubject
                } else if o == p {
                    AnySubjectAnyPredicate::SameAsPredicate
                } else {
                    AnySubjectAnyPredicate::AnyObject
                }
            },
        }
    }

    pub fn object(&self) -> (r: PatternObject<&T>)
        ensures
            match *self {
                AnySubjectAnyPredicate::AnyObject => r == PatternObject::<&T>::Any,
                AnySubjectAnyPredicate::SameAsSubject => r == PatternObject::<&T>::SameAsSubject,
                AnySubjectAnyPredicate::SameAsPredicate => r == PatternObject::<&T>::SameAsPredicate,
                AnySubjectAnyPredicate::GivenObject(id) => r matches PatternObject::Given(x) && *x == id,
            },
    {
        match self {
            AnySubjectAnyPredicate::AnyObject => PatternObject::Any,
            AnySubjectAnyPredicate::SameAsSubject => PatternObject::SameAsSubject,
            AnySubjectAnyPredicate::SameAsPredicate => PatternObject::SameAsPredicate,
            AnySubjectAnyPredicate::GivenObject(id) => PatternObject::Given(id),
        }
    }
}

#[derive(Debug, Clone, Copy, PartialEq, Eq, Hash, PartialOrd, Ord)]
pub enum AnySubjectGivenPredicate<T = Id> {
    AnyObject,
    SameAsSubject,
    GivenObject(T),
}

impl<T> AnySubjectGivenPredicate<T> {
    pub fn from_option(o: Option<T>) -> (r: AnySubjectGivenPredicate<T>)
        ensures
            r == (match o {
                Some(o) => AnySubjectGivenPredicate::GivenObject(o),
                None => AnySubjectGivenPredicate::AnyObject,
            }),
    {
        match o {
            Some(o) => AnySubjectGivenPredicate::GivenObject(o),
            None => AnySubjectGivenPredicate::AnyObject,
        }
    }

    pub fn from_pattern(s: usize, o: IdOrVar<T>) -> (r: AnySubjectGivenPredicate<T>)
        ensures
            r == spec_any_subject_given_predicate(s, o),
    {
        match o {
            IdOrVar::Id(o) => AnySubjectGivenPredicate::GivenObject(o),
            IdOrVar::Var(o) => {
                if o == s {
                    AnySubjectGivenPredicate::SameAsSubject
                } else {
                    AnySubjectGivenPredicate::AnyObject
                }
            },
        }
    }

    pub fn object(&self) -> (r: PatternObject<&T>)
        ensures
            match any_subject_given_predicate_object(*self) {
                PatternObject::Any => r == PatternObject::<&T>::Any,
                PatternObject::SameAsSubject => r == PatternObject::<&T>::SameAsSubject,
                PatternObject::SameAsPredicate => r == PatternObject::<&T>::SameAsPredicate,
                PatternObject::Given(id) => r matches PatternObject::Given(x) && *x == id,
            },
    {
        match self {
            AnySubjectGivenPredicate::AnyObject => PatternObject::Any,
            AnySubjectGivenPredicate::SameAsSubject => PatternObject::SameAsSubject,
            AnySubjectGivenPredicate::GivenObject(id) => PatternObject::Given(id),
        }
    }
}

#[derive(Debug, Clone, Copy, PartialEq, Eq, Hash, PartialOrd, Ord)]
pub enum GivenSubject<T = Id> {
    AnyPredicate(GivenSubjectAnyPredicate<T>),
    GivenPredicate(T, GivenSubjectGivenPredicate<T>),
}

impl<T> GivenSubject<T> {
    pub fn from_option_triple(p: Option<T>, o: Option<T>) -> (r: GivenSubject<T>)
        ensures
            r == (match p {
                Some(p) => GivenSubject::GivenPredicate(
                    p,
                    match o {
                        Some(o) => GivenSubjectGivenPredicate::GivenObject(o),
                        None => GivenSubjectGivenPredicate::AnyObject,
                    },
                ),
                None => GivenSubject::AnyPredicate(
                    match o {
                        Some(o) => GivenSubjectAnyPredicate::GivenObject(o),
                        None => GivenSubjectAnyPredicate::AnyObject,
                    },
                ),
            }),
    {
        match p {
            Some(p) => GivenSubject::GivenPredicate(p, GivenSubjectGivenPredicate::from_option(o)),
            None => GivenSubject::AnyPredicate(GivenSubjectAnyPredicate::from_option(o)),
        }
    }

    pub fn from_pattern(p: IdOrVar<T>, o: IdOrVar<T>) -> (r: GivenSubject<T>)
        ensures
            r == spec_given_subject(p, o),
    {
        match p {
            IdOrVar::Id(p) => GivenSubject::GivenPredicate(p, GivenSubjectGivenPredicate::from_pattern(o)),
            IdOrVar::Var(p) => GivenSubject::AnyPredicate(GivenSubjectAnyPredicate::from_pattern(p, o)),
        }
    }

    pub fn predicate(&self) -> (r: PatternPredicate<&T>)
        ensures
            match *self {
                GivenSubject::AnyPredicate(_) => r == PatternPredicate::<&T>::Any,
                GivenSubject::GivenPredicate(id, _) => r matches PatternPredicate::Given(x) && *x == id,
            },
    {
        match self {
            GivenSubject::AnyPredicate(_) => PatternPredicate::Any,
            GivenSubject::GivenPredicate(id, _) => PatternPredicate::Given(id),
        }
    }

    pub fn object(&self) -> (r: PatternObject<&T>)
        ensures
            match *self {
                GivenSubject::AnyPredicate(o) => match o {
                    GivenSubjectAnyPredicate::AnyObject => r == PatternObject::<&T>::Any,
                    GivenSubjectAnyPredicate::SameAsPredicate => r == PatternObject::<&T>::SameAsPredicate,
                    GivenSubjectAnyPredicate::GivenObject(id) => r matches PatternObject::Given(x) && *x == id,
                },
                GivenSubject::GivenPredicate(_, o) => match o {
                    GivenSubjectGivenPredicate::AnyObject => r == PatternObject::<&T>::Any,
                    GivenSubjectGivenPredicate::GivenObject(id) => r matches PatternObject::Given(x) && *x == id,
                },
            },
    {
        match self {
            GivenSubject::AnyPredicate(t) => t.object(),
            GivenSubject::GivenPredicate(_, t) => t.object(),
        }
    }
}

#[derive(Debug, Clone, Copy, PartialEq, Eq, Hash, PartialOrd, Ord)]
pub enum GivenSubjectAnyPredicate<T = Id> {
    AnyObject,
    SameAsPredicate,
    GivenObject(T),
}

impl<T> GivenSubjectAnyPredicate<T> {
    pub fn from_option(o: Option<T>) -> (r: GivenSubjectAnyPredicate<T>)
        ensures
            r == (match o {
                Some(o) => GivenSubjectAnyPredicate::GivenObject(o),
                None => GivenSubjectAnyPredicate::AnyObject,
            }),
    {
        match o {
            Some(o) => GivenSubjectAnyPredicate::GivenObject(o),
            None => GivenSubjectAnyPredicate::AnyObject,
        }
    }

    pub fn from_pattern(p: usize, o: IdOrVar<T>) -> (r: GivenSubjectAnyPredicate<T>)
        ensures
            r == (match o {
                IdOrVar::Id(o) => GivenSubjectAnyPredicate::GivenObject(o),
                IdOrVar::Var(o) => if p == o {
                    GivenSubjectAnyPredicate::SameAsPredicate
                } else {
                    GivenSubjectAnyPredicate::AnyObject
                },
            }),
    {
        match o {
            IdOrVar::Id(o) => GivenSubjectAnyPredicate::GivenObject(o),
            IdOrVar::Var(o) => {
                if p == o {
                    GivenSubjectAnyPredicate::SameAsPredicate
                } else {
                    GivenSubjectAnyPredicate::AnyObject
                }
            },
        }
    }

    pub fn object(&self) -> (r: PatternObject<&T>)
        ensures
            match *self {
                GivenSubjectAnyPredicate::AnyObject => r == PatternObject::<&T>::Any,
                GivenSubjectAnyPredicate::SameAsPredicate => r == PatternObject::<&T>::SameAsPredicate,
                GivenSubjectAnyPredicate::GivenObject(id) => r matches PatternObject::Given(x) && *x == id,
            },
    {
        match self {
            GivenSubjectAnyPredicate::AnyObject => PatternObject::Any,
            GivenSubjectAnyPredicate::SameAsPredicate => PatternObject::SameAsPredicate,
            GivenSubjectAnyPredicate::GivenObject(id) => PatternObject::Given(id),
        }
    }
}

#[derive(Debug, Clone, Copy, PartialEq, Eq, Hash, PartialOrd, Ord)]
pub enum GivenSubjectGivenPredicate<T = Id> {
    AnyObject,
    GivenObject(T),
}

impl<T> GivenSubjectGivenPredicate<T> {
    pub fn from_option(o: Option<T>) -> (r: GivenSubjectGivenPredicate<T>)
        ensures
            r == (match o {
                Some(o) => GivenSubjectGivenPredicate::GivenObject(o),
                None => GivenSubjectGivenPredicate::AnyObject,
            }),
    {
        match o {
            Some(o) => GivenSubjectGivenPredicate::GivenObject(o),
            None => GivenSubjectGivenPredicate::AnyObject,
        }
    }

    pub fn from_pattern(o: IdOrVar<T>) -> (r: GivenSubjectGivenPredicate<T>)
        ensures
            r == (match o {
                IdOrVar::Id(o) => GivenSubjectGivenPredicate::GivenObject(o),
                IdOrVar::Var(_) => GivenSubjectGivenPredicate::AnyObject,
            }),
    {
        match o {
            IdOrVar::Id(o) => GivenSubjectGivenPredicate::GivenObject(o),
            IdOrVar::Var(_) => GivenSubjectGivenPredicate::AnyObject,
        }
    }

    pub fn object(&self) -> (r: PatternObject<&T>)
        ensures
            match *self {
                GivenSubjectGivenPredicate::AnyObject => r == PatternObject::<&T>::Any,
                GivenSubjectGivenPredicate::GivenObject(id) => r matches PatternObject::Given(x) && *x == id,
            },
    {
        match self {
            GivenSubjectGivenPredicate::AnyObject => PatternObject::Any,
            GivenSubjectGivenPredicate::GivenObject(id) => PatternObject::Given(id),
        }
    }
}

/// Variable substitution built while matching patterns.
pub struct PatternSubstitution(im::HashMap<usize, Id>);

impl View for PatternSubstitution {
    type V = Map<usize, Id>;

    closed spec fn view(&self) -> Map<usize, Id> {
        substitution_entries(self.0)
    }
}

impl PatternSubstitution {
    pub fn new() -> (r: PatternSubstitution)
        ensures
            r@ == Map::<usize, Id>::empty(),
    {
        PatternSubstitution(substitution_new())
    }

    pub fn duplicate(&self) -> (r: PatternSubstitution)
        ensures
            r@ == self@,
    {
        PatternSubstitution(substitution_clone(&self.0))
    }

    pub fn contains(&self, x: usize) -> (r: bool)
        ensures
            r == self@.contains_key(x),
    {
        substitution_get(&self.0, x).is_some()
    }

    pub fn get(&self, x: usize) -> (r: Option<Id>)
        ensures
            r == (if self@.contains_key(x) {
                Some(self@[x])
            } else {
                None
            }),
    {
        substitution_get(&self.0, x)
    }

    /// Bind the variable `x` to the given identifier, unless it is already
    /// bound to a different identifier.
    ///
    /// Returns whether the binding succeeded.
    pub fn bind(&mut self, x: usize, id: Id) -> (r: bool)
        ensures
            (r, final(self)@) == id_or_var_bind(IdOrVar::Var(x), old(self)@, id),
    {
        substitution_or_insert(&mut self.0, x, id) == id
    }

    pub fn get_or_insert_with(&mut self, x: usize, f: impl FnOnce() -> Id) -> (r: Id)
        requires
            !old(self)@.contains_key(x) ==> f.requires(()),
        ensures
            old(self)@.contains_key(x) ==> r == old(self)@[x] && final(self)@ == old(self)@,
            !old(self)@.contains_key(x) ==> f.ensures((), r) && final(self)@ == old(self)@.insert(x, r),
    {
        match substitution_get(&self.0, x) {
            Some(id) => id,
            None => {
                let id = f();
                substitution_insert(&mut self.0, x, id);
                id
            },
        }
    }

    /// Variables `0..len` in order, with their binding if any, where `len` is
    /// the number of bound variables.
    pub fn to_vec(&self) -> (r: Vec<Option<Id>>)
        ensures
            r@.len() == self@.len(),
            forall|i: int| 0 <= i < r@.len() ==> r@[i] == (if self@.contains_key(i as usize) {
                Some(self@[i as usize])
            } else {
                None
            }),
    {
        let len = substitution_len(&self.0);
        let mut result: Vec<Option<Id>> = Vec::with_capacity(len);
        let mut i: usize = 0;
        while i < len
            invariant
                i <= len,
                len == self@.len(),
                result@.len() == i,
                forall|j: int| 0 <= j < i ==> result@[j] == (if self@.contains_key(j as usize) {
                    Some(self@[j as usize])
                } else {
                    None
                }),
            decreases len - i,
        {
            result.push(self.get(i));
            i = i + 1;
        }
        result
    }

    pub fn into_vec(self) -> (r: Vec<Option<Id>>)
        ensures
            r@.len() == self@.len(),
            forall|i: int| 0 <= i < r@.len() ==> r@[i] == (if self@.contains_key(i as usize) {
                Some(self@[i as usize])
            } else {
                None
            }),
    {
        self.to_vec()
    }
}

/// Converting a pattern to its canonical form preserves the triples it
/// matches: a triple matches `p` under some binding of its variables exactly
/// when it matches the canonical form of `p`.
pub proof fn lemma_canonical_matches(p: Pattern, t: Triple)
    ensures
        pattern_matches(p, t) <==> canonical_matches(
            match p.0 {
                IdOrVar::Id(s) => Canonical::GivenSubject(s, spec_given_subject(p.1, p.2)),
                IdOrVar::Var(s) => Canonical::AnySubject(spec_any_subject(s, p.1, p.2)),
            },
            t,
        ),
{
}

/// The canonical form of the pattern of a canonical pattern is the pattern
/// itself.
pub proof fn lemma_canonical_round_trip(c: Canonical)
    ensures
        ({
            let p = pattern_of_canonical(c);
            c == (match p.0 {
                IdOrVar::Id(s) => Canonical::GivenSubject(s, spec_given_subject(p.1, p.2)),
                IdOrVar::Var(s) => Canonical::AnySubject(spec_any_subject(s, p.1, p.2)),
            })
        }),
{
}

/// Whether `q` is `p` with its variables renamed one to one: the same
/// identifiers at the same places, and variables at the same places, two of
/// them equal in one exactly when equal in the other.
pub open spec fn same_up_to_renaming(p: Pattern, q: Pattern) -> bool {
    let ps = seq![p.0, p.1, p.2];
    let qs = seq![q.0, q.1, q.2];
    &&& forall|i: int| 0 <= i < 3 ==> ((#[trigger] ps[i]) is Id <==> qs[i] is Id) && (ps[i] is Id ==> ps[i] == qs[i])
    &&& forall|i: int, j: int|
        0 <= i < 3 && 0 <= j < 3 && (#[trigger] ps[i]) is Var && (#[trigger] ps[j]) is Var ==> (ps[i] == ps[j] <==> qs[i]
            == qs[j])
}

/// A pattern put in canonical form and back is the pattern up to a
/// renaming of its variables.
pub proof fn lemma_canonical_pattern_round_trip(p: Pattern)
    ensures
        same_up_to_renaming(p, pattern_of_canonical(canonical_of_pattern(p))),
{
    let q = pattern_of_canonical(canonical_of_pattern(p));
    let ps = seq![p.0, p.1, p.2];
    let qs = seq![q.0, q.1, q.2];
    assert(ps[0] == p.0 && ps[1] == p.1 && ps[2] == p.2);
    assert(qs[0] == q.0 && qs[1] == q.1 && qs[2] == q.2);
}

} // verus!
