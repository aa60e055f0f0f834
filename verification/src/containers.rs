//! Trusted specifications of the outside collections the library stores its
//! data in.
use vstd::prelude::*;

use crate::dataset::graph::{Fact as GraphFact, Resource as GraphResource};
use crate::id::Id;

verus! {

// ---------------------------------------------------------------------------
// `im::HashMap<usize, Id>`: pattern variable substitutions.

#[verifier::external_type_specification]
#[verifier::external_body]
#[verifier::reject_recursive_types(K)]
#[verifier::reject_recursive_types(V)]
#[verifier::reject_recursive_types(S)]
pub struct ExImHashMap<K, V, S>(im::HashMap<K, V, S>);

/// Bindings held by a substitution map.
pub uninterp spec fn substitution_entries(m: im::HashMap<usize, Id>) -> Map<usize, Id>;

/// `im::HashMap::new`: an empty map.
#[verifier::external_body]
pub(crate) fn substitution_new() -> (map: im::HashMap<usize, Id>)
    ensures
        substitution_entries(map) =~= Map::empty(),
{
    im::HashMap::new()
}

/// `Clone::clone` on `im::HashMap`: a map with the same bindings.
#[verifier::external_body]
pub(crate) fn substitution_clone(m: &im::HashMap<usize, Id>) -> (map: im::HashMap<usize, Id>)
    ensures
        substitution_entries(map) == substitution_entries(*m),
{
    m.clone()
}

/// `im::HashMap::get`: the binding of `x`, if any.
#[verifier::external_body]
pub(crate) fn substitution_get(m: &im::HashMap<usize, Id>, x: usize) -> (r: Option<Id>)
    ensures
        r == (if substitution_entries(*m).contains_key(x) {
            Some(substitution_entries(*m)[x])
        } else {
            None
        }),
{
    m.get(&x).copied()
}

/// `im::HashMap::insert`: binds `x` to `id`, replacing any previous binding.
#[verifier::external_body]
pub(crate) fn substitution_insert(m: &mut im::HashMap<usize, Id>, x: usize, id: Id)
    ensures
        substitution_entries(*final(m)) == substitution_entries(*old(m)).insert(x, id),
{
    m.insert(x, id);
}

/// `im::HashMap::entry(x).or_insert(id)`: binds `x` to `id` unless it is
/// already bound, and returns the binding of `x` afterwards.
#[verifier::external_body]
pub(crate) fn substitution_or_insert(m: &mut im::HashMap<usize, Id>, x: usize, id: Id) -> (r: Id)
    ensures
        substitution_entries(*old(m)).contains_key(x) ==> r == substitution_entries(*old(m))[x]
            && substitution_entries(*final(m)) == substitution_entries(*old(m)),
        !substitution_entries(*old(m)).contains_key(x) ==> r == id && substitution_entries(
            *final(m),
        ) == substitution_entries(*old(m)).insert(x, id),
{
    *m.entry(x).or_insert(id)
}

/// `im::HashMap::len`: the number of bindings.
#[verifier::external_body]
pub(crate) fn substitution_len(m: &im::HashMap<usize, Id>) -> (r: usize)
    ensures
        r == substitution_entries(*m).len(),
{
    m.len()
}

} // verus!

verus! {

// ---------------------------------------------------------------------------
// `slab::Slab<graph::Fact>`: the facts of a graph, by triple index.

#[verifier::external_type_specification]
#[verifier::external_body]
#[verifier::reject_recursive_types(T)]
pub struct ExSlab<T>(slab::Slab<T>);

/// Facts held by the slab, by key.
pub uninterp spec fn fact_slab_entries(s: slab::Slab<GraphFact>) -> Map<usize, GraphFact>;

/// Number of slots the slab has ever used (its entries vector's length):
/// every key is below it, and it only grows by one when an insertion does
/// not reuse a vacant slot.
pub uninterp spec fn fact_slab_slots(s: slab::Slab<GraphFact>) -> nat;

/// `slab::Slab::new`: an empty slab with no slot.
#[verifier::external_body]
pub(crate) fn fact_slab_new() -> (slab: slab::Slab<GraphFact>)
    ensures
        fact_slab_entries(slab) =~= Map::empty(),
        fact_slab_slots(slab) == 0,
{
    slab::Slab::new()
}

/// `slab::Slab::insert`: stores the fact at the next vacant key (a freed
/// slot, or a new slot at the end when no slot is free) and returns that
/// key.
#[verifier::external_body]
pub(crate) fn fact_slab_insert(s: &mut slab::Slab<GraphFact>, fact: GraphFact) -> (key: usize)
    requires
        fact_slab_slots(*old(s)) < usize::MAX || fact_slab_entries(*old(s)).len() < fact_slab_slots(*old(s)),
    ensures
        !fact_slab_entries(*old(s)).contains_key(key),
        key <= fact_slab_slots(*old(s)),
        key == fact_slab_slots(*old(s)) <==> fact_slab_entries(*old(s)).len() == fact_slab_slots(*old(s)),
        fact_slab_entries(*final(s)) == fact_slab_entries(*old(s)).insert(key, fact),
        fact_slab_slots(*final(s)) == (if key == fact_slab_slots(*old(s)) {
            fact_slab_slots(*old(s)) + 1
        } else {
            fact_slab_slots(*old(s))
        }),
{
    s.insert(fact)
}

/// `slab::Slab::get`: the fact at `key`, if any.
#[verifier::external_body]
pub(crate) fn fact_slab_get(s: &slab::Slab<GraphFact>, key: usize) -> (r: Option<&GraphFact>)
    ensures
        match r {
            Some(f) => fact_slab_entries(*s).contains_key(key) && *f == fact_slab_entries(*s)[key],
            None => !fact_slab_entries(*s).contains_key(key),
        },
{
    s.get(key)
}

/// `slab::Slab::try_remove`: removes and returns the fact at `key`, if any.
#[verifier::external_body]
pub(crate) fn fact_slab_try_remove(s: &mut slab::Slab<GraphFact>, key: usize) -> (r: Option<GraphFact>)
    ensures
        fact_slab_slots(*final(s)) == fact_slab_slots(*old(s)),
        fact_slab_entries(*old(s)).contains_key(key) ==> r == Some(fact_slab_entries(*old(s))[key])
            && fact_slab_entries(*final(s)) == fact_slab_entries(*old(s)).remove(key),
        !fact_slab_entries(*old(s)).contains_key(key) ==> r is None && fact_slab_entries(*final(s))
            == fact_slab_entries(*old(s)),
{
    s.try_remove(key)
}

/// `slab::Slab::iter`, keeping the keys: every key, in increasing order.
#[verifier::external_body]
pub(crate) fn fact_slab_keys(s: &slab::Slab<GraphFact>) -> (keys: Vec<usize>)
    ensures
        forall|i: int, j: int| 0 <= i < j < keys@.len() ==> keys@[i] < keys@[j],
        forall|k: usize| fact_slab_entries(*s).contains_key(k) <==> keys@.contains(k),
{
    s.iter().map(|(k, _)| k).collect()
}

/// `slab::Slab::len`: the number of stored facts.
#[verifier::external_body]
pub(crate) fn fact_slab_len(s: &slab::Slab<GraphFact>) -> (r: usize)
    ensures
        r == fact_slab_entries(*s).len(),
{
    s.len()
}

// ---------------------------------------------------------------------------
// `hashbrown::HashMap<u32, graph::Resource>`: the triple indexes of a graph,
// by resource.

/// Map from resource identifiers to their triple indexes.
#[verifier::external_body]
pub struct ResourceMap {
    inner: hashbrown::HashMap<u32, GraphResource>,
}

/// Entries of a resource map.
pub uninterp spec fn resource_map_entries(m: ResourceMap) -> Map<u32, GraphResource>;

/// `hashbrown::HashMap::new`: an empty map.
#[verifier::external_body]
pub(crate) fn resource_map_new() -> (map: ResourceMap)
    ensures
        resource_map_entries(map) =~= Map::empty(),
{
    ResourceMap { inner: hashbrown::HashMap::new() }
}

/// `hashbrown::HashMap::get`: the entry of `key`, if any.
#[verifier::external_body]
pub(crate) fn resource_map_get(m: &ResourceMap, key: u32) -> (r: Option<&GraphResource>)
    ensures
        match r {
            Some(v) => resource_map_entries(*m).contains_key(key) && *v == resource_map_entries(
                *m,
            )[key],
            None => !resource_map_entries(*m).contains_key(key),
        },
{
    m.inner.get(&key)
}

/// `hashbrown::HashMap::remove`: removes and returns the entry of `key`.
#[verifier::external_body]
pub(crate) fn resource_map_remove(m: &mut ResourceMap, key: u32) -> (r: Option<GraphResource>)
    ensures
        resource_map_entries(*final(m)) == resource_map_entries(*old(m)).remove(key),
        r == (if resource_map_entries(*old(m)).contains_key(key) {
            Some(resource_map_entries(*old(m))[key])
        } else {
            None
        }),
{
    m.inner.remove(&key)
}

/// `hashbrown::HashMap::insert`: sets the entry of `key`.
#[verifier::external_body]
pub(crate) fn resource_map_insert(m: &mut ResourceMap, key: u32, value: GraphResource)
    ensures
        resource_map_entries(*final(m)) == resource_map_entries(*old(m)).insert(key, value),
{
    m.inner.insert(key, value);
}

/// `hashbrown::HashMap::keys`: every key, each once, in the map's own
/// (unspecified) order.
#[verifier::external_body]
pub(crate) fn resource_map_keys(m: &ResourceMap) -> (keys: Vec<u32>)
    ensures
        keys@.no_duplicates(),
        forall|k: u32| resource_map_entries(*m).contains_key(k) <==> keys@.contains(k),
{
    m.inner.keys().copied().collect()
}

} // verus!

verus! {

// ---------------------------------------------------------------------------
// `hashbrown::HashMap<u32, Id>`: which resource a term (by vocabulary index)
// is interpreted as, or which resource a dependency's resource is imported
// as.

/// A key and the resource it maps to.
pub type IdEntry = (u32, Id);

/// Map from term indexes, or resource identifiers, to resource
/// identifiers.
#[verifier::external_body]
pub struct IdMap {
    inner: hashbrown::HashMap<u32, Id>,
}

/// Entries of an identifier map.
pub uninterp spec fn id_map_entries(m: IdMap) -> Map<u32, Id>;

/// `hashbrown::HashMap::new`: an empty map.
#[verifier::external_body]
pub(crate) fn id_map_new() -> (map: IdMap)
    ensures
        id_map_entries(map) =~= Map::empty(),
{
    IdMap { inner: hashbrown::HashMap::new() }
}

/// `hashbrown::HashMap::get`: the entry of `key`, if any.
#[verifier::external_body]
pub(crate) fn id_map_get(m: &IdMap, key: u32) -> (r: Option<Id>)
    ensures
        r == (if id_map_entries(*m).contains_key(key) {
            Some(id_map_entries(*m)[key])
        } else {
            None
        }),
{
    m.inner.get(&key).copied()
}

/// `hashbrown::HashMap::insert`: sets the entry of `key`.
#[verifier::external_body]
pub(crate) fn id_map_insert(m: &mut IdMap, key: u32, id: Id)
    ensures
        id_map_entries(*final(m)) == id_map_entries(*old(m)).insert(key, id),
{
    m.inner.insert(key, id);
}

/// `hashbrown::HashMap::iter`, copying the entries: every entry once, in
/// the map's own (unspecified) order.
#[verifier::external_body]
pub(crate) fn id_map_entries_vec(m: &IdMap) -> (entries: Vec<IdEntry>)
    ensures
        forall|a: int, b: int| 0 <= a < b < entries@.len() ==> entries@[a].0 != entries@[b].0,
        forall|e: IdEntry| entries@.contains(e) <==> (id_map_entries(*m).contains_key(e.0) && id_map_entries(*m)[e.0] == e.1),
{
    m.inner.iter().map(|(k, id)| (*k, *id)).collect()
}

// ---------------------------------------------------------------------------
// `hashbrown::HashSet<u32>`: the terms (by vocabulary index), or the
// resources, attached to a resource.

/// Set of indexes.
#[verifier::external_body]
pub struct KeySet {
    inner: hashbrown::HashSet<u32>,
}

/// Elements of an index set.
pub uninterp spec fn key_set_elements(s: KeySet) -> Set<u32>;

/// `hashbrown::HashSet::new`: an empty set.
#[verifier::external_body]
pub(crate) fn key_set_new() -> (set: KeySet)
    ensures
        key_set_elements(set) =~= Set::empty(),
{
    KeySet { inner: hashbrown::HashSet::new() }
}

/// `hashbrown::HashSet::contains`.
#[verifier::external_body]
pub(crate) fn key_set_contains(s: &KeySet, x: u32) -> (r: bool)
    ensures
        r == key_set_elements(*s).contains(x),
{
    s.inner.contains(&x)
}

/// `hashbrown::HashSet::insert`: adds `x`; true if it was not there.
#[verifier::external_body]
pub(crate) fn key_set_insert(s: &mut KeySet, x: u32) -> (r: bool)
    ensures
        key_set_elements(*final(s)) == key_set_elements(*old(s)).insert(x),
        r == !key_set_elements(*old(s)).contains(x),
{
    s.inner.insert(x)
}

/// `hashbrown::HashSet::remove`: removes `x`; true if it was there.
#[verifier::external_body]
pub(crate) fn key_set_remove(s: &mut KeySet, x: u32) -> (r: bool)
    ensures
        key_set_elements(*final(s)) == key_set_elements(*old(s)).remove(x),
        r == key_set_elements(*old(s)).contains(x),
{
    s.inner.remove(&x)
}

/// `hashbrown::HashSet::is_empty`.
#[verifier::external_body]
pub(crate) fn key_set_is_empty(s: &KeySet) -> (r: bool)
    ensures
        r == (key_set_elements(*s) =~= Set::<u32>::empty()),
{
    s.inner.is_empty()
}

/// `hashbrown::HashSet::iter`, copying the elements: every element once,
/// in the set's own (unspecified) order.
#[verifier::external_body]
pub(crate) fn key_set_to_vec(s: &KeySet) -> (r: Vec<u32>)
    ensures
        r@.no_duplicates(),
        forall|x: u32| key_set_elements(*s).contains(x) <==> r@.contains(x),
{
    s.inner.iter().copied().collect()
}

} // verus!

verus! {

// ---------------------------------------------------------------------------
// `hashbrown::HashMap<u32, graph::Graph>`: the named graphs of a dataset.

/// Map from graph names to graphs.
#[verifier::external_body]
pub struct GraphMap {
    inner: hashbrown::HashMap<u32, crate::dataset::graph::Graph>,
}

/// Entries of a graph map.
pub uninterp spec fn graph_map_entries(m: GraphMap) -> Map<u32, crate::dataset::graph::Graph>;

/// `hashbrown::HashMap::new`: an empty map.
#[verifier::external_body]
pub(crate) fn graph_map_new() -> (map: GraphMap)
    ensures
        graph_map_entries(map) =~= Map::empty(),
{
    GraphMap { inner: hashbrown::HashMap::new() }
}

/// `hashbrown::HashMap::get`: the graph named `key`, if any.
#[verifier::external_body]
pub(crate) fn graph_map_get(m: &GraphMap, key: u32) -> (r: Option<&crate::dataset::graph::Graph>)
    ensures
        match r {
            Some(g) => graph_map_entries(*m).contains_key(key) && *g == graph_map_entries(*m)[key],
            None => !graph_map_entries(*m).contains_key(key),
        },
{
    m.inner.get(&key)
}

/// `hashbrown::HashMap::remove`: removes and returns the graph named `key`.
#[verifier::external_body]
pub(crate) fn graph_map_remove(m: &mut GraphMap, key: u32) -> (r: Option<crate::dataset::graph::Graph>)
    ensures
        graph_map_entries(*final(m)) == graph_map_entries(*old(m)).remove(key),
        r == (if graph_map_entries(*old(m)).contains_key(key) {
            Some(graph_map_entries(*old(m))[key])
        } else {
            None
        }),
{
    m.inner.remove(&key)
}

/// `hashbrown::HashMap::insert`: names `graph` `key`, returning the graph
/// it replaces.
#[verifier::external_body]
pub(crate) fn graph_map_insert(m: &mut GraphMap, key: u32, graph: crate::dataset::graph::Graph) -> (r: Option<crate::dataset::graph::Graph>)
    ensures
        graph_map_entries(*final(m)) == graph_map_entries(*old(m)).insert(key, graph),
        r == (if graph_map_entries(*old(m)).contains_key(key) {
            Some(graph_map_entries(*old(m))[key])
        } else {
            None
        }),
{
    m.inner.insert(key, graph)
}

/// `hashbrown::HashMap::keys`: every graph name, each once, in the map's
/// own (unspecified) order.
#[verifier::external_body]
pub(crate) fn graph_map_keys(m: &GraphMap) -> (keys: Vec<u32>)
    ensures
        keys@.no_duplicates(),
        forall|k: u32| graph_map_entries(*m).contains_key(k) <==> keys@.contains(k),
{
    m.inner.keys().copied().collect()
}

} // verus!

verus! {

// ---------------------------------------------------------------------------
// `hashbrown::HashMap<u32, Class>` and `hashbrown::HashMap<Class, u32>`: the
// class of each classified resource, and a representative of each class.

/// Map from resources to their classes.
#[verifier::external_body]
pub struct ClassOfMap {
    inner: hashbrown::HashMap<u32, crate::class::Class>,
}

/// Entries of a class-of map.
pub uninterp spec fn class_of_entries(m: ClassOfMap) -> Map<u32, crate::class::Class>;

/// `hashbrown::HashMap::new`: an empty map.
#[verifier::external_body]
pub(crate) fn class_of_new() -> (map: ClassOfMap)
    ensures
        class_of_entries(map) =~= Map::empty(),
{
    ClassOfMap { inner: hashbrown::HashMap::new() }
}

/// `hashbrown::HashMap::get`: the class of the resource, if any.
#[verifier::external_body]
pub(crate) fn class_of_get(m: &ClassOfMap, key: u32) -> (r: Option<crate::class::Class>)
    ensures
        r == (if class_of_entries(*m).contains_key(key) {
            Some(class_of_entries(*m)[key])
        } else {
            None
        }),
{
    m.inner.get(&key).copied()
}

/// `hashbrown::HashMap::insert`: sets the class of the resource.
#[verifier::external_body]
pub(crate) fn class_of_insert(m: &mut ClassOfMap, key: u32, class: crate::class::Class)
    ensures
        class_of_entries(*final(m)) == class_of_entries(*old(m)).insert(key, class),
{
    m.inner.insert(key, class);
}

/// A resource and its class.
pub type ResourceClassEntry = (u32, crate::class::Class);

/// `hashbrown::HashMap::iter`, copying the entries: every entry once, in
/// the map's own (unspecified) order.
#[verifier::external_body]
pub(crate) fn class_of_entries_vec(m: &ClassOfMap) -> (entries: Vec<ResourceClassEntry>)
    ensures
        forall|a: int, b: int| 0 <= a < b < entries@.len() ==> entries@[a].0 != entries@[b].0,
        forall|e: ResourceClassEntry| entries@.contains(e) <==> (class_of_entries(*m).contains_key(e.0) && class_of_entries(*m)[e.0] == e.1),
{
    m.inner.iter().map(|(id, c)| (*id, *c)).collect()
}

/// Map from classes to representatives; a class is keyed by its group's
/// layer, its group's index and its member, as a tuple of integers.
#[verifier::external_body]
pub struct RepresentativeMap {
    inner: hashbrown::HashMap<(u32, u32, u32), u32>,
}

/// Entries of a representative map.
pub uninterp spec fn representative_entries(m: RepresentativeMap) -> Map<crate::class::Class, u32>;

/// `hashbrown::HashMap::new`: an empty map.
#[verifier::external_body]
pub(crate) fn representative_new() -> (map: RepresentativeMap)
    ensures
        representative_entries(map) =~= Map::empty(),
{
    RepresentativeMap { inner: hashbrown::HashMap::new() }
}

/// `hashbrown::HashMap::get`: the representative of the class, if any.
#[verifier::external_body]
pub(crate) fn representative_get(m: &RepresentativeMap, key: crate::class::Class) -> (r: Option<u32>)
    ensures
        r == (if representative_entries(*m).contains_key(key) {
            Some(representative_entries(*m)[key])
        } else {
            None
        }),
{
    m.inner.get(&(key.group.layer, key.group.index, key.member)).copied()
}

/// `hashbrown::HashMap::insert`: sets the representative of the class.
#[verifier::external_body]
pub(crate) fn representative_insert(m: &mut RepresentativeMap, key: crate::class::Class, id: u32)
    ensures
        representative_entries(*final(m)) == representative_entries(*old(m)).insert(key, id),
{
    m.inner.insert((key.group.layer, key.group.index, key.member), id);
}

/// A class and its representative.
pub type ClassEntry = (crate::class::Class, u32);

/// `hashbrown::HashMap::iter`, copying the entries: every entry once, in
/// the map's own (unspecified) order.
#[verifier::external_body]
pub(crate) fn representative_entries_vec(m: &RepresentativeMap) -> (entries: Vec<ClassEntry>)
    ensures
        forall|a: int, b: int| 0 <= a < b < entries@.len() ==> entries@[a].0 != entries@[b].0,
        forall|e: ClassEntry| entries@.contains(e) <==> (representative_entries(*m).contains_key(e.0) && representative_entries(*m)[e.0] == e.1),
{
    m.inner.iter().map(|((layer, index, member), id)| (crate::class::Class { group: crate::class::GroupId { layer: *layer, index: *index }, member: *member }, *id)).collect()
}

} // verus!

verus! {

// ---------------------------------------------------------------------------
// `indexmap::IndexSet<Description>`: the groups of a layer, numbered in
// insertion order.

#[verifier::external_type_specification]
#[verifier::external_body]
#[verifier::reject_recursive_types(T)]
#[verifier::reject_recursive_types(S)]
pub struct ExIndexSet<T, S>(indexmap::IndexSet<T, S>);

/// Descriptions held by the set, in insertion order, each by its members'
/// properties (what the derived `PartialEq` and `Hash` compare).
pub uninterp spec fn description_set_entries(s: indexmap::IndexSet<crate::class::group::Description>) -> Seq<
    Seq<Seq<crate::class::group::Binding>>,
>;

/// `indexmap::IndexSet::new`: an empty set.
#[verifier::external_body]
pub(crate) fn description_set_new() -> (set: indexmap::IndexSet<crate::class::group::Description>)
    ensures
        description_set_entries(set) == Seq::<Seq<Seq<crate::class::group::Binding>>>::empty(),
{
    indexmap::IndexSet::new()
}

/// `indexmap::IndexSet::insert_full`: the index of the equal description
/// already in the set (which is kept), or of `d` appended at the end; and
/// whether `d` was appended.
#[verifier::external_body]
pub(crate) fn description_set_insert_full(
    s: &mut indexmap::IndexSet<crate::class::group::Description>,
    d: crate::class::group::Description,
) -> (r: (usize, bool))
    ensures
        r.1 == !description_set_entries(*old(s)).contains(crate::class::classification::description_view(d)),
        r.1 ==> description_set_entries(*final(s)) == description_set_entries(*old(s)).push(crate::class::classification::description_view(d)),
        r.1 ==> r.0 == description_set_entries(*old(s)).len(),
        !r.1 ==> description_set_entries(*final(s)) == description_set_entries(*old(s)),
        !r.1 ==> r.0 < description_set_entries(*old(s)).len(),
        !r.1 ==> description_set_entries(*old(s))[r.0 as int] == crate::class::classification::description_view(d),
{
    s.insert_full(d)
}

/// `IntoIterator::into_iter` on `indexmap::IndexSet`, collected: the
/// descriptions in insertion order.
#[verifier::external_body]
pub(crate) fn description_set_into_vec(s: indexmap::IndexSet<crate::class::group::Description>) -> (r: Vec<crate::class::group::Description>)
    ensures
        r@.map_values(|d: crate::class::group::Description| crate::class::classification::description_view(d)) == description_set_entries(s),
{
    s.into_iter().collect()
}

} // verus!

verus! {

// ---------------------------------------------------------------------------
// `hashbrown::HashMap<u32, Vec<Id>>`: the resources of a dependency that
// a resource stands for.

/// Map from resource identifiers to lists of resource identifiers.
#[verifier::external_body]
pub struct IdsMap {
    inner: hashbrown::HashMap<u32, Vec<Id>>,
}

/// Entries of an identifier-list map.
pub uninterp spec fn ids_map_entries(m: IdsMap) -> Map<u32, Seq<Id>>;

/// `hashbrown::HashMap::new`: an empty map.
#[verifier::external_body]
pub(crate) fn ids_map_new() -> (map: IdsMap)
    ensures
        ids_map_entries(map) =~= Map::empty(),
{
    IdsMap { inner: hashbrown::HashMap::new() }
}

/// `hashbrown::HashMap::get`: the list of `key`, if any.
#[verifier::external_body]
pub(crate) fn ids_map_get(m: &IdsMap, key: u32) -> (r: Option<&Vec<Id>>)
    ensures
        match r {
            Some(v) => ids_map_entries(*m).contains_key(key) && v@ == ids_map_entries(*m)[key],
            None => !ids_map_entries(*m).contains_key(key),
        },
{
    m.inner.get(&key)
}

/// `hashbrown::HashMap::insert`: sets the list of `key`.
#[verifier::external_body]
pub(crate) fn ids_map_insert(m: &mut IdsMap, key: u32, ids: Vec<Id>)
    ensures
        ids_map_entries(*final(m)) == ids_map_entries(*old(m)).insert(key, ids@),
{
    m.inner.insert(key, ids);
}

} // verus!

verus! {

// ---------------------------------------------------------------------------
// `indexmap::IndexSet<Entailment>`: the entailments of a builder, numbered
// in insertion order.

/// Entailments held by the set, in insertion order, each by its rule and
/// substitution (what the derived `PartialEq` and `Hash` compare).
pub uninterp spec fn entailment_set_entries(s: indexmap::IndexSet<crate::cause::Entailment>) -> Seq<(Id, Seq<Id>)>;

/// `indexmap::IndexSet::new`: an empty set.
#[verifier::external_body]
pub(crate) fn entailment_set_new() -> (set: indexmap::IndexSet<crate::cause::Entailment>)
    ensures
        entailment_set_entries(set) == Seq::<(Id, Seq<Id>)>::empty(),
{
    indexmap::IndexSet::new()
}

/// `indexmap::IndexSet::insert_full`: the index of the equal entailment
/// already in the set (which is kept), or of `e` appended at the end; and
/// whether `e` was appended.
#[verifier::external_body]
pub(crate) fn entailment_set_insert_full(
    s: &mut indexmap::IndexSet<crate::cause::Entailment>,
    e: crate::cause::Entailment,
) -> (r: (usize, bool))
    ensures
        r.1 == !entailment_set_entries(*old(s)).contains(crate::cause::entailment_view(e)),
        r.1 ==> entailment_set_entries(*final(s)) == entailment_set_entries(*old(s)).push(crate::cause::entailment_view(e)),
        r.1 ==> r.0 == entailment_set_entries(*old(s)).len(),
        !r.1 ==> entailment_set_entries(*final(s)) == entailment_set_entries(*old(s)),
        !r.1 ==> r.0 < entailment_set_entries(*old(s)).len(),
        !r.1 ==> entailment_set_entries(*old(s))[r.0 as int] == crate::cause::entailment_view(e),
{
    s.insert_full(e)
}

/// `indexmap::IndexSet::get_index`: the entailment at the given position,
/// if there is one.
#[verifier::external_body]
pub(crate) fn entailment_set_get_index(
    s: &indexmap::IndexSet<crate::cause::Entailment>,
    i: usize,
) -> (r: Option<&crate::cause::Entailment>)
    ensures
        match r {
            Some(e) => i < entailment_set_entries(*s).len() && crate::cause::entailment_view(*e) == entailment_set_entries(*s)[i as int],
            None => i >= entailment_set_entries(*s).len(),
        },
{
    s.get_index(i)
}

} // verus!
