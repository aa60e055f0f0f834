//! Node classes: algebraic structures standing for anonymous (blank)
//! nodes, so that structurally identical blank nodes can be merged.
use vstd::prelude::*;

use crate::id::Id;

pub mod classification;
pub mod group;

pub use group::GroupId;

verus! {

/// Class: a member of a resource group.
#[derive(Debug, Clone, Copy, PartialEq, Eq, Structural, PartialOrd, Ord, Hash)]
pub struct Class {
    /// Resource group.
    pub group: GroupId,
    /// Group member.
    pub member: u32,
}

impl Class {
    pub fn new(group: GroupId, member: u32) -> (r: Class)
        ensures
            r.group == group,
            r.member == member,
    {
        Class { group, member }
    }
}

/// Group member or class reference.
#[derive(Debug, Clone, Copy, PartialEq, Eq, Structural, PartialOrd, Ord, Hash)]
pub enum Reference {
    Singleton(Id),
    Class(Class),
    Group(u32),
}

/// Layer of a reference: one above the layer of the group of a class,
/// zero otherwise.
pub open spec fn reference_layer(r: Reference) -> int {
    match r {
        Reference::Class(c) => c.group.layer + 1,
        _ => 0,
    }
}

/// Whether the layer of the reference fits in 32 bits.
pub open spec fn reference_layer_fits(r: Reference) -> bool {
    reference_layer(r) <= u32::MAX
}

impl Reference {
    pub fn layer(&self) -> (r: u32)
        requires
            reference_layer_fits(*self),
        ensures
            r == reference_layer(*self),
    {
        match self {
            Reference::Singleton(_) => 0,
            Reference::Group(_) => 0,
            Reference::Class(c) => c.group.layer + 1,
        }
    }
}

} // verus!
