//! Pieces of the inference engine: rule paths, and the groups and classes
//! built layer by layer when anonymous nodes are classified.
use vstd::prelude::*;

pub mod builder;
pub mod components;
pub mod formula;
pub mod rule;
pub mod scc;
pub mod system;

use crate::class::classification::description_view;
use crate::class::group::{Binding, Description, GroupId};
use crate::containers::{description_set_entries, description_set_insert_full, description_set_into_vec, description_set_new};

pub use crate::semantics::{MaybeTrusted, Trust};

verus! {

/// Position of a pattern in a rule.
#[derive(Debug, Clone, Copy, PartialEq, Eq, Structural, PartialOrd, Ord, Hash)]
pub struct Path {
    pub rule: usize,
    pub pattern: usize,
}

impl Path {
    pub fn new(rule: usize, pattern: usize) -> (r: Path)
        ensures
            r.rule == rule,
            r.pattern == pattern,
    {
        Path { rule, pattern }
    }
}

/// Class of an anonymous node within the groups of its layer.
#[derive(Debug, Clone, Copy, PartialEq, Eq, Structural)]
pub struct LayerClass {
    pub group: usize,
    pub member: u32,
}

impl LayerClass {
    pub fn new(group: usize, member: u32) -> (r: LayerClass)
        ensures
            r.group == group,
            r.member == member,
    {
        LayerClass { group, member }
    }
}

/// The distinct groups of a layer, numbered in the order they are first
/// inserted.
pub struct LayerGroups {
    layer: u32,
    set: indexmap::IndexSet<Description>,
}

impl LayerGroups {
    /// The layer.
    pub closed spec fn layer(&self) -> u32 {
        self.layer
    }

    /// The groups, in numbering order.
    pub closed spec fn groups(&self) -> Seq<Seq<Seq<Binding>>> {
        description_set_entries(self.set)
    }

    /// No group is given twice.
    pub closed spec fn wf(&self) -> bool {
        self.groups().no_duplicates()
    }

    pub fn new(layer: u32) -> (r: LayerGroups)
        ensures
            r.wf(),
            r.layer() == layer,
            r.groups() == Seq::<Seq<Seq<Binding>>>::empty(),
    {
        LayerGroups { layer, set: description_set_new() }
    }

    /// The identifier of the group: the number of the equal group already
    /// inserted, or the next number.
    pub fn insert(&mut self, description: Description) -> (r: GroupId)
        requires
            old(self).wf(),
            old(self).groups().len() < u32::MAX,
        ensures
            final(self).wf(),
            final(self).layer() == old(self).layer(),
            r.layer == old(self).layer(),
            r.index < final(self).groups().len(),
            final(self).groups()[r.index as int] == description_view(description),
            final(self).groups() == if old(self).groups().contains(description_view(description)) {
                old(self).groups()
            } else {
                old(self).groups().push(description_view(description))
            },
    {
        let ghost v = description_view(description);
        let (i, _) = description_set_insert_full(&mut self.set, description);
        proof {
            if !old(self).groups().contains(v) {
                assert forall|a: int, b: int| 0 <= a < b < self.groups().len() implies self.groups()[a] != self.groups()[b] by {
                    if b == self.groups().len() - 1 {
                        assert(old(self).groups()[a] != v) by {
                            if old(self).groups()[a] == v {
                                assert(old(self).groups().contains(v));
                            }
                        }
                    }
                }
            }
        }
        GroupId::new(self.layer, i as u32)
    }

    /// The groups, in numbering order.
    pub fn into_vec(self) -> (r: Vec<Description>)
        ensures
            r@.map_values(|d: Description| description_view(d)) == self.groups(),
    {
        description_set_into_vec(self.set)
    }
}

} // verus!
