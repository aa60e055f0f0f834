//! Classification held in memory: groups by layer, and the class of each
//! classified resource.
use vstd::prelude::*;

use crate::class::group::{Binding, Description, GroupId, Member, bindings_fit, members_layer};
use crate::class::Class;
use crate::containers::{
    class_of_entries, class_of_entries_vec, class_of_get, class_of_insert, class_of_new,
    representative_entries, representative_entries_vec, representative_get, representative_insert,
    representative_new, ClassEntry, ClassOfMap, RepresentativeMap,
};
use crate::id::Id;

verus! {

/// Abstract value of a group description: the properties of each member.
pub open spec fn description_view(d: Description) -> Seq<Seq<Binding>> {
    d.members@.map_values(|m: Member| m.properties@)
}

fn bindings_eq(a: &Vec<Binding>, b: &Vec<Binding>) -> (r: bool)
    ensures
        r == (a@ == b@),
{
    if a.len() != b.len() {
        return false;
    }
    let mut j: usize = 0;
    while j < a.len()
        invariant
            a@.len() == b@.len(),
            j <= a@.len(),
            forall|t: int| 0 <= t < j ==> a@[t] == b@[t],
        decreases a@.len() - j,
    {
        let x = &a[j];
        let y = &b[j];
        if !(x.0.same_as(&y.0) && x.1.0 == y.1.0 && x.1.1 == y.1.1) {
            return false;
        }
        j = j + 1;
    }
    proof {
        assert(a@ =~= b@);
    }
    true
}

/// Whether the two descriptions have the same members.
pub fn description_eq(a: &Description, b: &Description) -> (r: bool)
    ensures
        r == (description_view(*a) == description_view(*b)),
{
    if a.members.len() != b.members.len() {
        proof {
            assert(description_view(*a).len() != description_view(*b).len());
        }
        return false;
    }
    let mut j: usize = 0;
    while j < a.members.len()
        invariant
            a.members@.len() == b.members@.len(),
            j <= a.members@.len(),
            forall|t: int| 0 <= t < j ==> a.members@[t].properties@ == b.members@[t].properties@,
        decreases a.members@.len() - j,
    {
        if !bindings_eq(&a.members[j].properties, &b.members[j].properties) {
            proof {
                assert(description_view(*a)[j as int] != description_view(*b)[j as int]);
            }
            return false;
        }
        j = j + 1;
    }
    proof {
        assert(description_view(*a) =~= description_view(*b));
    }
    true
}

/// The groups of one layer.
pub struct Layer {
    pub groups: Vec<Description>,
}

impl Layer {
    pub fn new(groups: Vec<Description>) -> (r: Layer)
        ensures
            r.groups@ == groups@,
    {
        Layer { groups }
    }
}

/// Classification held in memory.
pub struct LocalClassification {
    layers: Vec<Layer>,
    resource_classes: ClassOfMap,
    class_representatives: RepresentativeMap,
}

impl LocalClassification {
    /// The groups, by layer.
    pub closed spec fn layers(&self) -> Seq<Seq<Description>> {
        self.layers@.map_values(|l: Layer| l.groups@)
    }

    /// The class of each classified resource.
    pub closed spec fn resource_classes(&self) -> Map<u32, Class> {
        class_of_entries(self.resource_classes)
    }

    /// A representative of each class.
    pub closed spec fn representatives(&self) -> Map<Class, u32> {
        representative_entries(self.class_representatives)
    }

    /// Every class of a resource has a representative, a resource of that
    /// class.
    pub closed spec fn wf(&self) -> bool {
        &&& forall|l: int| 0 <= l < self.layers().len() ==> #[trigger] self.layers()[l].len() <= u32::MAX
        &&& forall|c: Class| #[trigger] self.representatives().contains_key(c) ==> self.resource_classes().contains_key(
            self.representatives()[c],
        ) && self.resource_classes()[self.representatives()[c]] == c
        &&& forall|id: u32| #[trigger] self.resource_classes().contains_key(id) ==> self.representatives().contains_key(
            self.resource_classes()[id],
        )
    }

    /// The classification of the given groups and resource classes (a
    /// resource given twice gets its last class).
    pub fn new(layers: Vec<Layer>, resource_classes: Vec<(Id, Class)>) -> (r: LocalClassification)
        requires
            forall|l: int| 0 <= l < layers@.len() ==> (#[trigger] layers@[l]).groups@.len() <= u32::MAX,
        ensures
            r.wf(),
            r.layers() == layers@.map_values(|l: Layer| l.groups@),
            forall|id: u32| #[trigger] r.resource_classes().contains_key(id) <==> exists|j: int|
                0 <= j < resource_classes@.len() && resource_classes@[j].0.0 == id,
            forall|j: int| 0 <= j < resource_classes@.len() ==> (forall|t: int| j < t < resource_classes@.len() ==> resource_classes@[t].0 != resource_classes@[j].0)
                ==> r.resource_classes()[resource_classes@[j].0.0] == #[trigger] resource_classes@[j].1,
    {
        let mut classes = class_of_new();
        let mut j: usize = 0;
        while j < resource_classes.len()
            invariant
                j <= resource_classes@.len(),
                forall|id: u32| #[trigger] class_of_entries(classes).contains_key(id) <==> exists|t: int|
                    0 <= t < j && resource_classes@[t].0.0 == id,
                forall|t: int| 0 <= t < j ==> (forall|u: int| t < u < j ==> resource_classes@[u].0 != resource_classes@[t].0)
                    ==> class_of_entries(classes)[resource_classes@[t].0.0] == #[trigger] resource_classes@[t].1,
            decreases resource_classes@.len() - j,
        {
            let (id, c) = resource_classes[j];
            class_of_insert(&mut classes, id.0, c);
            j = j + 1;
        }
        let entries = class_of_entries_vec(&classes);
        let mut reps = representative_new();
        let mut k: usize = 0;
        while k < entries.len()
            invariant
                k <= entries@.len(),
                forall|e: (u32, Class)| entries@.contains(e) <==> (class_of_entries(classes).contains_key(e.0) && class_of_entries(classes)[e.0] == e.1),
                forall|c: Class| #[trigger] representative_entries(reps).contains_key(c) ==> class_of_entries(classes).contains_key(
                    representative_entries(reps)[c],
                ) && class_of_entries(classes)[representative_entries(reps)[c]] == c,
                forall|t: int| 0 <= t < k ==> representative_entries(reps).contains_key(#[trigger] entries@[t].1),
            decreases entries@.len() - k,
        {
            let (id, c) = entries[k];
            proof {
                assert(entries@.contains(entries@[k as int]));
            }
            representative_insert(&mut reps, c, id);
            k = k + 1;
        }
        let r = LocalClassification { layers, resource_classes: classes, class_representatives: reps };
        proof {
            assert forall|id: u32| #[trigger] r.resource_classes().contains_key(id) implies r.representatives().contains_key(
                r.resource_classes()[id],
            ) by {
                let e = (id, class_of_entries(classes)[id]);
                assert(entries@.contains(e));
                let t = choose|t: int| 0 <= t < entries@.len() && entries@[t] == e;
                assert(representative_entries(reps).contains_key(entries@[t].1));
            }
        }
        r
    }

    /// The class of the resource, if it is classified.
    pub fn resource_class(&self, id: Id) -> (r: Option<Class>)
        ensures
            r == (if self.resource_classes().contains_key(id.0) {
                Some(self.resource_classes()[id.0])
            } else {
                None
            }),
    {
        class_of_get(&self.resource_classes, id.0)
    }

    /// The representative of the class, if any.
    pub fn class_representative(&self, class: Class) -> (r: Option<Id>)
        requires
            self.wf(),
        ensures
            match r {
                Some(id) => self.representatives().contains_key(class) && id.0 == self.representatives()[class]
                    && self.resource_classes().contains_key(id.0) && self.resource_classes()[id.0] == class,
                None => !self.representatives().contains_key(class) && forall|x: u32|
                    #[trigger] self.resource_classes().contains_key(x) ==> self.resource_classes()[x] != class,
            },
    {
        match representative_get(&self.class_representatives, class) {
            Some(id) => Some(Id(id)),
            None => None,
        }
    }

    /// Every class with its representative, in no particular order.
    pub fn classes(&self) -> (r: Vec<(Class, Id)>)
        ensures
            forall|a: int, b: int| 0 <= a < b < r@.len() ==> r@[a].0 != r@[b].0,
            forall|e: (Class, Id)| #[trigger] r@.contains(e) <==> (self.representatives().contains_key(e.0)
                && self.representatives()[e.0] == e.1.0),
    {
        let entries = representative_entries_vec(&self.class_representatives);
        let mut r: Vec<(Class, Id)> = Vec::new();
        let mut j: usize = 0;
        while j < entries.len()
            invariant
                j <= entries@.len(),
                r@.len() == j,
                forall|t: int| 0 <= t < j ==> #[trigger] r@[t] == (entries@[t].0, Id(entries@[t].1)),
            decreases entries@.len() - j,
        {
            let (c, id) = entries[j];
            r.push((c, Id(id)));
            j = j + 1;
        }
        proof {
            assert forall|e: (Class, Id)| #[trigger] r@.contains(e) <==> (self.representatives().contains_key(e.0)
                && self.representatives()[e.0] == e.1.0) by {
                if r@.contains(e) {
                    let t = choose|t: int| 0 <= t < r@.len() && r@[t] == e;
                    assert(entries@.contains(entries@[t]));
                }
                let ce: ClassEntry = (e.0, e.1.0);
                if self.representatives().contains_key(e.0) && self.representatives()[e.0] == e.1.0 {
                    assert(entries@.contains(ce));
                    let t = choose|t: int| 0 <= t < entries@.len() && entries@[t] == ce;
                    assert(r@[t] == e);
                }
            }
        }
        r
    }

    /// The group with the given identifier, if any.
    pub fn group(&self, id: GroupId) -> (r: Option<&Description>)
        ensures
            match r {
                Some(d) => id.layer < self.layers().len() && id.index < self.layers()[id.layer as int].len()
                    && *d == self.layers()[id.layer as int][id.index as int],
                None => !(id.layer < self.layers().len() && id.index < self.layers()[id.layer as int].len()),
            },
    {
        if (id.layer as usize) < self.layers.len() {
            let layer = &self.layers[id.layer as usize];
            if (id.index as usize) < layer.groups.len() {
                Some(&layer.groups[id.index as usize])
            } else {
                None
            }
        } else {
            None
        }
    }

    /// The identifier of the group with the given description, if any: it
    /// is looked for in the layer of the description.
    pub fn find_group_id(&self, description: &Description) -> (r: Option<GroupId>)
        requires
            self.wf(),
            forall|j: int| 0 <= j < description.members@.len() ==> bindings_fit(#[trigger] description.members@[j].properties@),
        ensures
            ({
                let l = members_layer(description.members@);
                match r {
                    Some(g) => {
                        &&& g.layer == l
                        &&& l < self.layers().len()
                        &&& g.index < self.layers()[l].len()
                        &&& description_view(self.layers()[l][g.index as int]) == description_view(*description)
                        &&& forall|t: int| 0 <= t < g.index ==> description_view(#[trigger] self.layers()[l][t]) != description_view(*description)
                    },
                    None => l < self.layers().len() ==> forall|t: int|
                        0 <= t < self.layers()[l].len() ==> description_view(#[trigger] self.layers()[l][t]) != description_view(*description),
                }
            }),
    {
        let l = description.layer();
        if (l as usize) < self.layers.len() {
            let layer = &self.layers[l as usize];
            proof {
                assert(self.layers()[l as int] == layer.groups@);
                assert(self.layers()[l as int].len() <= u32::MAX);
            }
            let mut i: usize = 0;
            while i < layer.groups.len()
                invariant
                    i <= layer.groups@.len(),
                    l < self.layers@.len(),
                    *layer == self.layers@[l as int],
                    l == members_layer(description.members@),
                    self.layers()[l as int] == layer.groups@,
                    layer.groups@.len() <= u32::MAX,
                    forall|t: int| 0 <= t < i ==> description_view(#[trigger] layer.groups@[t]) != description_view(*description),
                decreases layer.groups@.len() - i,
            {
                if description_eq(&layer.groups[i], description) {
                    proof {
                        assert forall|t: int| 0 <= t < i implies description_view(#[trigger] self.layers()[l as int][t])
                            != description_view(*description) by {
                            assert(self.layers()[l as int][t] == layer.groups@[t]);
                        }
                        assert(self.layers().len() == self.layers@.len());
                        assert((i as u32) as int == i);
                        assert(self.layers()[l as int][i as int] == layer.groups@[i as int]);
                    }
                    return Some(GroupId::new(l, i as u32));
                }
                i = i + 1;
            }
            proof {
                assert forall|t: int| 0 <= t < self.layers()[l as int].len() implies description_view(#[trigger] self.layers()[l as int][t])
                    != description_view(*description) by {
                    assert(self.layers()[l as int][t] == layer.groups@[t]);
                }
            }
            None
        } else {
            None
        }
    }
}

/// Whether group `i` of layer `l` is listed.
pub open spec fn listed(r: Seq<(GroupId, &Description)>, l: int, i: int) -> bool {
    exists|a: int| 0 <= a < r.len() && r[a].0 == group_id(l, i)
}

/// Identifier of group `i` of layer `l`.
pub open spec fn group_id(l: int, i: int) -> GroupId {
    GroupId { layer: l as u32, index: i as u32 }
}

impl LocalClassification {
    /// Every group with its identifier, layer by layer.
    pub fn groups(&self) -> (r: Vec<(GroupId, &Description)>)
        requires
            self.wf(),
            self.layers().len() <= u32::MAX,
        ensures
            forall|a: int| 0 <= a < r@.len() ==> {
                let (g, d) = #[trigger] r@[a];
                &&& g.layer < self.layers().len()
                &&& g.index < self.layers()[g.layer as int].len()
                &&& *d == self.layers()[g.layer as int][g.index as int]
            },
            forall|a: int, b: int| 0 <= a < b < r@.len() ==> group_lt(r@[a].0, r@[b].0),
            forall|l: int, i: int| 0 <= l < self.layers().len() && 0 <= i < self.layers()[l].len() ==> #[trigger] listed(r@, l, i),
    {
        let mut r: Vec<(GroupId, &Description)> = Vec::new();
        let mut l: usize = 0;
        while l < self.layers.len()
            invariant
                self.wf(),
                self.layers().len() <= u32::MAX,
                l <= self.layers@.len(),
                forall|a: int| 0 <= a < r@.len() ==> {
                    let (g, d) = #[trigger] r@[a];
                    &&& g.layer < l
                    &&& g.index < self.layers()[g.layer as int].len()
                    &&& *d == self.layers()[g.layer as int][g.index as int]
                },
                forall|a: int, b: int| 0 <= a < b < r@.len() ==> group_lt(r@[a].0, r@[b].0),
                forall|m: int, j: int| 0 <= m < l && 0 <= j < self.layers()[m].len() ==> #[trigger] listed(r@, m, j),
            decreases self.layers@.len() - l,
        {
            let layer = &self.layers[l];
            proof {
                assert(self.layers()[l as int] == layer.groups@);
                assert(self.layers()[l as int].len() <= u32::MAX);
            }
            let mut i: usize = 0;
            while i < layer.groups.len()
                invariant
                    self.wf(),
                    self.layers().len() <= u32::MAX,
                    l < self.layers@.len(),
                    self.layers()[l as int] == layer.groups@,
                    layer.groups@.len() <= u32::MAX,
                    i <= layer.groups@.len(),
                    forall|a: int| 0 <= a < r@.len() ==> {
                        let (g, d) = #[trigger] r@[a];
                        &&& (g.layer < l || (g.layer == l && g.index < i))
                        &&& g.index < self.layers()[g.layer as int].len()
                        &&& *d == self.layers()[g.layer as int][g.index as int]
                    },
                    forall|a: int, b: int| 0 <= a < b < r@.len() ==> group_lt(r@[a].0, r@[b].0),
                    forall|m: int, j: int| 0 <= m < l && 0 <= j < self.layers()[m].len() ==> #[trigger] listed(r@, m, j),
                    forall|j: int| 0 <= j < i ==> #[trigger] listed(r@, l as int, j),
                decreases layer.groups@.len() - i,
            {
                let ghost r0 = r@;
                r.push((GroupId::new(l as u32, i as u32), &layer.groups[i]));
                proof {
                    assert(r@[r0.len() as int].0 == group_id(l as int, i as int));
                    assert forall|m: int, j: int| 0 <= m < l && 0 <= j < self.layers()[m].len() implies #[trigger] listed(r@, m, j) by {
                        assert(listed(r0, m, j));
                        let a = choose|a: int| 0 <= a < r0.len() && r0[a].0 == group_id(m, j);
                        assert(r@[a] == r0[a]);
                    }
                    assert forall|j: int| 0 <= j < i + 1 implies #[trigger] listed(r@, l as int, j) by {
                        if j < i {
                            assert(listed(r0, l as int, j));
                            let a = choose|a: int| 0 <= a < r0.len() && r0[a].0 == group_id(l as int, j);
                            assert(r@[a] == r0[a]);
                        } else {
                            assert(r@[r0.len() as int].0 == group_id(l as int, j));
                        }
                    }
                }
                i = i + 1;
            }
            proof {
                assert forall|m: int, j: int| 0 <= m < l + 1 && 0 <= j < self.layers()[m].len() implies #[trigger] listed(r@, m, j) by {
                    if m == l {
                        assert(listed(r@, l as int, j));
                    }
                }
            }
            l = l + 1;
        }
        r
    }
}

/// Order of group identifiers: by layer, then by index.
pub open spec fn group_lt(a: GroupId, b: GroupId) -> bool {
    a.layer < b.layer || (a.layer == b.layer && a.index < b.index)
}

} // verus!
