//! How the resources of a sub-module stand for the resources of the
//! composition it belongs to.
use vstd::prelude::*;

use crate::containers::{id_map_entries, id_map_get, id_map_insert, id_map_new, IdMap};
use crate::dataset::graph::{fact_sign, has_triple_at};
use crate::dataset::standard::{lacks_triple, Standard};
use crate::dataset::Contradiction;
use crate::id::Id;
use crate::pattern::{
    AnySubject, AnySubjectAnyPredicate, AnySubjectGivenPredicate, Canonical, GivenSubject,
    GivenSubjectAnyPredicate, GivenSubjectGivenPredicate,
};
use crate::sign::{Sign, Signed};
use crate::triple::{Quad, Triple};

verus! {

/// The identifier `id` is mapped to by `m`, if it is.
pub open spec fn mapped(m: Map<u32, Id>, id: Id) -> Option<Id> {
    if m.contains_key(id.0) {
        Some(m[id.0])
    } else {
        None
    }
}

/// Correspondence between sub-module-local and composition-global
/// identifiers.
pub struct Interface {
    /// From local identifier to global identifier.
    local_to_global: IdMap,
    /// From global identifier to local identifier.
    global_to_local: IdMap,
}

impl Interface {
    /// The global identifier of each local identifier.
    pub closed spec fn globals(&self) -> Map<u32, Id> {
        id_map_entries(self.local_to_global)
    }

    /// The local identifier of each global identifier.
    pub closed spec fn locals(&self) -> Map<u32, Id> {
        id_map_entries(self.global_to_local)
    }

    pub fn new() -> (r: Interface)
        ensures
            r.globals() == Map::<u32, Id>::empty(),
            r.locals() == Map::<u32, Id>::empty(),
    {
        Interface { local_to_global: id_map_new(), global_to_local: id_map_new() }
    }

    /// The global identifier of a local identifier, if any.
    pub fn global_id(&self, local_id: Id) -> (r: Option<Id>)
        ensures
            r == mapped(self.globals(), local_id),
    {
        id_map_get(&self.local_to_global, local_id.0)
    }

    /// The local identifier of a global identifier, if any.
    pub fn local_id(&self, global_id: Id) -> (r: Option<Id>)
        ensures
            r == mapped(self.locals(), global_id),
    {
        id_map_get(&self.global_to_local, global_id.0)
    }

    /// Records that `local_id` and `global_id` stand for each other.
    pub fn set_global_id(&mut self, local_id: Id, global_id: Id)
        ensures
            final(self).globals() == old(self).globals().insert(local_id.0, global_id),
            final(self).locals() == old(self).locals().insert(global_id.0, local_id),
    {
        id_map_insert(&mut self.local_to_global, local_id.0, global_id);
        id_map_insert(&mut self.global_to_local, global_id.0, local_id);
    }

    /// The global identifier of `local_id`, given by `f` and recorded if
    /// there was none.
    pub fn get_or_insert_global(&mut self, local_id: Id, f: impl FnOnce() -> Id) -> (r: Id)
        requires
            f.requires(()),
        ensures
            match mapped(old(self).globals(), local_id) {
                Some(g) => r == g && final(self).globals() == old(self).globals() && final(self).locals()
                    == old(self).locals(),
                None => {
                    &&& f.ensures((), r)
                    &&& final(self).globals() == old(self).globals().insert(local_id.0, r)
                    &&& final(self).locals() == old(self).locals().insert(r.0, local_id)
                },
            },
    {
        match id_map_get(&self.local_to_global, local_id.0) {
            Some(global_id) => global_id,
            None => {
                let global_id = f();
                self.set_global_id(local_id, global_id);
                global_id
            },
        }
    }

    /// The global identifier of `local_id`, given by `f` and recorded if
    /// there was none; an error of `f` is handed back, nothing recorded.
    pub fn get_or_try_insert_global<E>(&mut self, local_id: Id, f: impl FnOnce(Id) -> Result<Id, E>) -> (r: Result<Id, E>)
        requires
            f.requires((local_id,)),
        ensures
            match mapped(old(self).globals(), local_id) {
                Some(g) => r == Ok::<Id, E>(g) && final(self).globals() == old(self).globals() && final(self).locals()
                    == old(self).locals(),
                None => {
                    &&& f.ensures((local_id,), r)
                    &&& match r {
                        Ok(g) => final(self).globals() == old(self).globals().insert(local_id.0, g)
                            && final(self).locals() == old(self).locals().insert(g.0, local_id),
                        Err(_) => final(self).globals() == old(self).globals() && final(self).locals()
                            == old(self).locals(),
                    }
                },
            },
    {
        match id_map_get(&self.local_to_global, local_id.0) {
            Some(global_id) => Ok(global_id),
            None => {
                match f(local_id) {
                    Ok(global_id) => {
                        self.set_global_id(local_id, global_id);
                        Ok(global_id)
                    },
                    Err(e) => Err(e),
                }
            },
        }
    }
}

/// Source of fresh global resources.
pub trait ResourceGenerator {
    fn new_resource(&mut self) -> Id;
}

/// Whether `after` keeps every entry of `before`, adding entries only for
/// the given keys.
pub open spec fn grows_by(before: Map<u32, Id>, after: Map<u32, Id>, keys: Set<u32>) -> bool {
    &&& forall|k: u32| #[trigger] before.contains_key(k) ==> after.contains_key(k) && after[k] == before[k]
    &&& forall|k: u32| #[trigger] after.contains_key(k) ==> before.contains_key(k) || keys.contains(k)
}

impl Interface {
    /// The global form of a local identifier: the recorded one, or a new
    /// resource of `generator`, then recorded.
    pub fn id_into_global<G: ResourceGenerator>(&mut self, id: Id, generator: &mut G) -> (r: Id)
        ensures
            mapped(final(self).globals(), id) == Some(r),
            grows_by(old(self).globals(), final(self).globals(), set![id.0]),
            mapped(old(self).globals(), id) is Some ==> final(self).globals() == old(self).globals(),
    {
        match id_map_get(&self.local_to_global, id.0) {
            Some(global_id) => global_id,
            None => {
                let global_id = generator.new_resource();
                self.set_global_id(id, global_id);
                global_id
            },
        }
    }

    /// The global form of a local triple.
    pub fn triple_into_global<G: ResourceGenerator>(&mut self, t: Triple, generator: &mut G) -> (r: Triple)
        ensures
            mapped(final(self).globals(), t.0) == Some(r.0),
            mapped(final(self).globals(), t.1) == Some(r.1),
            mapped(final(self).globals(), t.2) == Some(r.2),
            grows_by(old(self).globals(), final(self).globals(), set![t.0.0, t.1.0, t.2.0]),
    {
        let s = self.id_into_global(t.0, generator);
        let p = self.id_into_global(t.1, generator);
        let o = self.id_into_global(t.2, generator);
        Triple(s, p, o)
    }

    /// The global form of a local quad.
    pub fn quad_into_global<G: ResourceGenerator>(&mut self, q: Quad, generator: &mut G) -> (r: Quad)
        ensures
            mapped(final(self).globals(), q.0) == Some(r.0),
            mapped(final(self).globals(), q.1) == Some(r.1),
            mapped(final(self).globals(), q.2) == Some(r.2),
            match q.3 {
                Some(g) => r.3 matches Some(h) && mapped(final(self).globals(), g) == Some(h),
                None => r.3 is None,
            },
            grows_by(
                old(self).globals(),
                final(self).globals(),
                match q.3 {
                    Some(g) => set![q.0.0, q.1.0, q.2.0, g.0],
                    None => set![q.0.0, q.1.0, q.2.0],
                },
            ),
    {
        let t = self.triple_into_global(Triple(q.0, q.1, q.2), generator);
        match q.3 {
            Some(g) => {
                let h = self.id_into_global(g, generator);
                Quad(t.0, t.1, t.2, Some(h))
            },
            None => Quad(t.0, t.1, t.2, None),
        }
    }
}

/// Source of fresh global resources that may fail, given the local
/// resource each stands for.
pub trait TryResourceGenerator {
    type Error;

    fn try_new_resource(&mut self, local_id: Id) -> Result<Id, Self::Error>;
}

impl Interface {
    /// The global form of a local identifier: the recorded one, or a new
    /// resource of `generator`, then recorded; an error of `generator` is
    /// handed back, nothing recorded.
    pub fn try_id_into_global<G: TryResourceGenerator>(&mut self, id: Id, generator: &mut G) -> (r: Result<Id, G::Error>)
        ensures
            r matches Ok(g) ==> mapped(final(self).globals(), id) == Some(g),
            mapped(old(self).globals(), id) matches Some(g) ==> r == Ok::<Id, G::Error>(g),
            grows_by(old(self).globals(), final(self).globals(), set![id.0]),
            r is Err || mapped(old(self).globals(), id) is Some ==> final(self).globals() == old(self).globals(),
    {
        match id_map_get(&self.local_to_global, id.0) {
            Some(global_id) => Ok(global_id),
            None => match generator.try_new_resource(id) {
                Ok(global_id) => {
                    self.set_global_id(id, global_id);
                    Ok(global_id)
                },
                Err(e) => Err(e),
            },
        }
    }

    /// The global form of a local triple, or the first error of `generator`.
    pub fn try_triple_into_global<G: TryResourceGenerator>(&mut self, t: Triple, generator: &mut G) -> (r: Result<
        Triple,
        G::Error,
    >)
        ensures
            r matches Ok(u) ==> mapped(final(self).globals(), t.0) == Some(u.0) && mapped(final(self).globals(), t.1)
                == Some(u.1) && mapped(final(self).globals(), t.2) == Some(u.2),
            grows_by(old(self).globals(), final(self).globals(), set![t.0.0, t.1.0, t.2.0]),
            mapped(old(self).globals(), t.0) is Some && mapped(old(self).globals(), t.1) is Some && mapped(
                old(self).globals(),
                t.2,
            ) is Some ==> r == Ok::<Triple, G::Error>(
                Triple(
                    mapped(old(self).globals(), t.0).unwrap(),
                    mapped(old(self).globals(), t.1).unwrap(),
                    mapped(old(self).globals(), t.2).unwrap(),
                ),
            ) && final(self).globals() == old(self).globals(),
            r is Err ==> mapped(old(self).globals(), t.0) is None || mapped(old(self).globals(), t.1) is None
                || mapped(old(self).globals(), t.2) is None,
    {
        let s = self.try_id_into_global(t.0, generator)?;
        let p = self.try_id_into_global(t.1, generator)?;
        let o = self.try_id_into_global(t.2, generator)?;
        Ok(Triple(s, p, o))
    }

    /// The global form of a local quad, or the first error of `generator`.
    pub fn try_quad_into_global<G: TryResourceGenerator>(&mut self, q: Quad, generator: &mut G) -> (r: Result<
        Quad,
        G::Error,
    >)
        ensures
            r matches Ok(u) ==> mapped(final(self).globals(), q.0) == Some(u.0) && mapped(final(self).globals(), q.1)
                == Some(u.1) && mapped(final(self).globals(), q.2) == Some(u.2) && match q.3 {
                Some(g) => u.3 matches Some(h) && mapped(final(self).globals(), g) == Some(h),
                None => u.3 is None,
            },
            grows_by(
                old(self).globals(),
                final(self).globals(),
                match q.3 {
                    Some(g) => set![q.0.0, q.1.0, q.2.0, g.0],
                    None => set![q.0.0, q.1.0, q.2.0],
                },
            ),
            mapped(old(self).globals(), q.0) is Some && mapped(old(self).globals(), q.1) is Some && mapped(
                old(self).globals(),
                q.2,
            ) is Some && (q.3 matches Some(g) ==> mapped(old(self).globals(), g) is Some) ==> final(self).globals()
                == old(self).globals() && r == Ok::<Quad, G::Error>(
                Quad(
                    mapped(old(self).globals(), q.0).unwrap(),
                    mapped(old(self).globals(), q.1).unwrap(),
                    mapped(old(self).globals(), q.2).unwrap(),
                    match q.3 {
                        Some(g) => mapped(old(self).globals(), g),
                        None => None,
                    },
                ),
            ),
            r is Err ==> mapped(old(self).globals(), q.0) is None || mapped(old(self).globals(), q.1) is None
                || mapped(old(self).globals(), q.2) is None || (q.3 matches Some(g) && mapped(old(self).globals(), g)
                is None),
    {
        let t = self.try_triple_into_global(Triple(q.0, q.1, q.2), generator)?;
        match q.3 {
            Some(g) => {
                let h = self.try_id_into_global(g, generator)?;
                Ok(Quad(t.0, t.1, t.2, Some(h)))
            },
            None => Ok(Quad(t.0, t.1, t.2, None)),
        }
    }
}

/// Conversion of global values into local ones, when every identifier
/// they hold has a local counterpart.
pub trait IntoLocal: Sized {
    /// The local form under the global-to-local map `m`, if any.
    spec fn spec_into_local(self, m: Map<u32, Id>) -> Option<Self>;

    fn into_local(self, interface: &Interface) -> (r: Option<Self>)
        ensures
            r == self.spec_into_local(interface.locals()),
    ;
}

impl IntoLocal for Id {
    open spec fn spec_into_local(self, m: Map<u32, Id>) -> Option<Id> {
        mapped(m, self)
    }

    fn into_local(self, interface: &Interface) -> (r: Option<Id>) {
        interface.local_id(self)
    }
}

impl<T: IntoLocal> IntoLocal for Option<T> {
    open spec fn spec_into_local(self, m: Map<u32, Id>) -> Option<Option<T>> {
        match self {
            Some(t) => match t.spec_into_local(m) {
                Some(u) => Some(Some(u)),
                None => None,
            },
            None => Some(None),
        }
    }

    fn into_local(self, interface: &Interface) -> (r: Option<Option<T>>) {
        match self {
            Some(t) => match t.into_local(interface) {
                Some(u) => Some(Some(u)),
                None => None,
            },
            None => Some(None),
        }
    }
}

impl<T: IntoLocal> IntoLocal for Signed<T> {
    open spec fn spec_into_local(self, m: Map<u32, Id>) -> Option<Signed<T>> {
        match self.1.spec_into_local(m) {
            Some(u) => Some(Signed(self.0, u)),
            None => None,
        }
    }

    fn into_local(self, interface: &Interface) -> (r: Option<Signed<T>>) {
        let Signed(sign, t) = self;
        match t.into_local(interface) {
            Some(u) => Some(Signed(sign, u)),
            None => None,
        }
    }
}

impl IntoLocal for Triple {
    open spec fn spec_into_local(self, m: Map<u32, Id>) -> Option<Triple> {
        match (mapped(m, self.0), mapped(m, self.1), mapped(m, self.2)) {
            (Some(s), Some(p), Some(o)) => Some(Triple(s, p, o)),
            _ => None,
        }
    }

    fn into_local(self, interface: &Interface) -> (r: Option<Triple>) {
        match (interface.local_id(self.0), interface.local_id(self.1), interface.local_id(self.2)) {
            (Some(s), Some(p), Some(o)) => Some(Triple(s, p, o)),
            _ => None,
        }
    }
}

impl IntoLocal for Quad {
    open spec fn spec_into_local(self, m: Map<u32, Id>) -> Option<Quad> {
        match (mapped(m, self.0), mapped(m, self.1), mapped(m, self.2), self.3.spec_into_local(m)) {
            (Some(s), Some(p), Some(o), Some(g)) => Some(Quad(s, p, o, g)),
            _ => None,
        }
    }

    fn into_local(self, interface: &Interface) -> (r: Option<Quad>) {
        let g = match self.3.into_local(interface) {
            Some(g) => g,
            None => return None,
        };
        match (interface.local_id(self.0), interface.local_id(self.1), interface.local_id(self.2)) {
            (Some(s), Some(p), Some(o)) => Some(Quad(s, p, o, g)),
            _ => None,
        }
    }
}

impl IntoLocal for AnySubjectAnyPredicate {
    open spec fn spec_into_local(self, m: Map<u32, Id>) -> Option<AnySubjectAnyPredicate> {
        match self {
            AnySubjectAnyPredicate::GivenObject(o) => match mapped(m, o) {
                Some(lo) => Some(AnySubjectAnyPredicate::GivenObject(lo)),
                None => None,
            },
            _ => Some(self),
        }
    }

    fn into_local(self, interface: &Interface) -> (r: Option<AnySubjectAnyPredicate>) {
        match self {
            AnySubjectAnyPredicate::AnyObject => Some(AnySubjectAnyPredicate::AnyObject),
            AnySubjectAnyPredicate::SameAsSubject => Some(AnySubjectAnyPredicate::SameAsSubject),
            AnySubjectAnyPredicate::SameAsPredicate => Some(AnySubjectAnyPredicate::SameAsPredicate),
            AnySubjectAnyPredicate::GivenObject(o) => match interface.local_id(o) {
                Some(lo) => Some(AnySubjectAnyPredicate::GivenObject(lo)),
                None => None,
            },
        }
    }
}

impl IntoLocal for AnySubjectGivenPredicate {
    open spec fn spec_into_local(self, m: Map<u32, Id>) -> Option<AnySubjectGivenPredicate> {
        match self {
            AnySubjectGivenPredicate::GivenObject(o) => match mapped(m, o) {
                Some(lo) => Some(AnySubjectGivenPredicate::GivenObject(lo)),
                None => None,
            },
            _ => Some(self),
        }
    }

    fn into_local(self, interface: &Interface) -> (r: Option<AnySubjectGivenPredicate>) {
        match self {
            AnySubjectGivenPredicate::AnyObject => Some(AnySubjectGivenPredicate::AnyObject),
            AnySubjectGivenPredicate::SameAsSubject => Some(AnySubjectGivenPredicate::SameAsSubject),
            AnySubjectGivenPredicate::GivenObject(o) => match interface.local_id(o) {
                Some(lo) => Some(AnySubjectGivenPredicate::GivenObject(lo)),
                None => None,
            },
        }
    }
}

impl IntoLocal for GivenSubjectAnyPredicate {
    open spec fn spec_into_local(self, m: Map<u32, Id>) -> Option<GivenSubjectAnyPredicate> {
        match self {
            GivenSubjectAnyPredicate::GivenObject(o) => match mapped(m, o) {
                Some(lo) => Some(GivenSubjectAnyPredicate::GivenObject(lo)),
                None => None,
            },
            _ => Some(self),
        }
    }

    fn into_local(self, interface: &Interface) -> (r: Option<GivenSubjectAnyPredicate>) {
        match self {
            GivenSubjectAnyPredicate::AnyObject => Some(GivenSubjectAnyPredicate::AnyObject),
            GivenSubjectAnyPredicate::SameAsPredicate => Some(GivenSubjectAnyPredicate::SameAsPredicate),
            GivenSubjectAnyPredicate::GivenObject(o) => match interface.local_id(o) {
                Some(lo) => Some(GivenSubjectAnyPredicate::GivenObject(lo)),
                None => None,
            },
        }
    }
}

impl IntoLocal for GivenSubjectGivenPredicate {
    open spec fn spec_into_local(self, m: Map<u32, Id>) -> Option<GivenSubjectGivenPredicate> {
        match self {
            GivenSubjectGivenPredicate::GivenObject(o) => match mapped(m, o) {
                Some(lo) => Some(GivenSubjectGivenPredicate::GivenObject(lo)),
                None => None,
            },
            _ => Some(self),
        }
    }

    fn into_local(self, interface: &Interface) -> (r: Option<GivenSubjectGivenPredicate>) {
        match self {
            GivenSubjectGivenPredicate::AnyObject => Some(GivenSubjectGivenPredicate::AnyObject),
            GivenSubjectGivenPredicate::GivenObject(o) => match interface.local_id(o) {
                Some(lo) => Some(GivenSubjectGivenPredicate::GivenObject(lo)),
                None => None,
            },
        }
    }
}

impl IntoLocal for AnySubject {
    open spec fn spec_into_local(self, m: Map<u32, Id>) -> Option<AnySubject> {
        match self {
            AnySubject::AnyPredicate(o) => match o.spec_into_local(m) {
                Some(lo) => Some(AnySubject::AnyPredicate(lo)),
                None => None,
            },
            AnySubject::SameAsSubject(o) => match o.spec_into_local(m) {
                Some(lo) => Some(AnySubject::SameAsSubject(lo)),
                None => None,
            },
            AnySubject::GivenPredicate(p, o) => match (mapped(m, p), o.spec_into_local(m)) {
                (Some(lp), Some(lo)) => Some(AnySubject::GivenPredicate(lp, lo)),
                _ => None,
            },
        }
    }

    fn into_local(self, interface: &Interface) -> (r: Option<AnySubject>) {
        match self {
            AnySubject::AnyPredicate(o) => match o.into_local(interface) {
                Some(lo) => Some(AnySubject::AnyPredicate(lo)),
                None => None,
            },
            AnySubject::SameAsSubject(o) => match o.into_local(interface) {
                Some(lo) => Some(AnySubject::SameAsSubject(lo)),
                None => None,
            },
            AnySubject::GivenPredicate(p, o) => match (interface.local_id(p), o.into_local(interface)) {
                (Some(lp), Some(lo)) => Some(AnySubject::GivenPredicate(lp, lo)),
                _ => None,
            },
        }
    }
}

impl IntoLocal for GivenSubject {
    open spec fn spec_into_local(self, m: Map<u32, Id>) -> Option<GivenSubject> {
        match self {
            GivenSubject::AnyPredicate(o) => match o.spec_into_local(m) {
                Some(lo) => Some(GivenSubject::AnyPredicate(lo)),
                None => None,
            },
            GivenSubject::GivenPredicate(p, o) => match (mapped(m, p), o.spec_into_local(m)) {
                (Some(lp), Some(lo)) => Some(GivenSubject::GivenPredicate(lp, lo)),
                _ => None,
            },
        }
    }

    fn into_local(self, interface: &Interface) -> (r: Option<GivenSubject>) {
        match self {
            GivenSubject::AnyPredicate(o) => match o.into_local(interface) {
                Some(lo) => Some(GivenSubject::AnyPredicate(lo)),
                None => None,
            },
            GivenSubject::GivenPredicate(p, o) => match (interface.local_id(p), o.into_local(interface)) {
                (Some(lp), Some(lo)) => Some(GivenSubject::GivenPredicate(lp, lo)),
                _ => None,
            },
        }
    }
}

impl IntoLocal for Canonical {
    open spec fn spec_into_local(self, m: Map<u32, Id>) -> Option<Canonical> {
        match self {
            Canonical::AnySubject(po) => match po.spec_into_local(m) {
                Some(lpo) => Some(Canonical::AnySubject(lpo)),
                None => None,
            },
            Canonical::GivenSubject(s, po) => match (mapped(m, s), po.spec_into_local(m)) {
                (Some(ls), Some(lpo)) => Some(Canonical::GivenSubject(ls, lpo)),
                _ => None,
            },
        }
    }

    fn into_local(self, interface: &Interface) -> (r: Option<Canonical>) {
        match self {
            Canonical::AnySubject(po) => match po.into_local(interface) {
                Some(lpo) => Some(Canonical::AnySubject(lpo)),
                None => None,
            },
            Canonical::GivenSubject(s, po) => match (interface.local_id(s), po.into_local(interface)) {
                (Some(ls), Some(lpo)) => Some(Canonical::GivenSubject(ls, lpo)),
                _ => None,
            },
        }
    }
}

/// Whether a global triple with the given sign would be new to the
/// sub-module's dataset: `Ok(false)` when the dataset already holds its
/// local form with that sign, a contradiction when it holds it with the
/// other sign, `Ok(true)` otherwise (also when some resource of the
/// triple has no local form).
pub fn filter_triple(interface: &Interface, dataset: &Standard, global_triple: Triple, sign: Sign) -> (r: Result<bool, Contradiction>)
    requires
        dataset.wf(),
    ensures
        match global_triple.spec_into_local(interface.locals()) {
            None => r == Ok::<bool, Contradiction>(true),
            Some(t) => match r {
                Ok(true) => forall|g: Option<Id>| lacks_triple(#[trigger] dataset.graph_view(g), t),
                Ok(false) => exists|g: Option<Id>| #[trigger] dataset.graph_view(g) matches Some(v) && exists|i: usize|
                    #[trigger] has_triple_at(v, i, t) && fact_sign(v[i]) == sign,
                Err(c) => c.0 == t && exists|g: Option<Id>| #[trigger] dataset.graph_view(g) matches Some(v) && exists|i: usize|
                    #[trigger] has_triple_at(v, i, t) && fact_sign(v[i]) != sign,
            },
        },
{
    match global_triple.into_local(interface) {
        Some(local_triple) => match dataset.find_triple(local_triple) {
            Some((g, i, fact)) => {
                proof {
                    assert(dataset.graph_view(g) matches Some(v) && has_triple_at(v, i as usize, local_triple));
                }
                if fact.0.0.same_as(&sign) {
                    Ok(false)
                } else {
                    Err(Contradiction(local_triple))
                }
            },
            None => Ok(true),
        },
        None => Ok(true),
    }
}

} // verus!
