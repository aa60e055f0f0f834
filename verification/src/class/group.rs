//! Resource groups: mutually recursive anonymous resources.
use vstd::prelude::*;

use crate::class::{reference_layer, reference_layer_fits, Reference};
use crate::sign::Signed;

pub mod normalization;
pub mod sorting;

verus! {

/// Group identifier: its layer, and its index in the layer.
#[derive(Debug, Clone, Copy, PartialEq, Eq, Structural, PartialOrd, Ord, Hash)]
pub struct GroupId {
    pub layer: u32,
    pub index: u32,
}

impl GroupId {
    pub fn new(layer: u32, index: u32) -> (r: GroupId)
        ensures
            r.layer == layer,
            r.index == index,
    {
        GroupId { layer, index }
    }
}

/// Where each member of a group went once the group was normalized.
pub enum MembersSubstitution {
    /// The group has a single member, which stays where it is.
    NonReflexive,
    /// The new position of each member.
    Reflexive(Vec<usize>),
}

impl MembersSubstitution {
    /// The new position of member `i`, if it is a member.
    pub fn get(&self, i: u32) -> (r: Option<u32>)
        ensures
            r == (match *self {
                MembersSubstitution::NonReflexive => if i == 0 {
                    Some(0u32)
                } else {
                    None
                },
                MembersSubstitution::Reflexive(s) => if i < s@.len() {
                    Some(s@[i as int] as u32)
                } else {
                    None
                },
            }),
    {
        match self {
            MembersSubstitution::NonReflexive => {
                if i == 0 {
                    Some(0)
                } else {
                    None
                }
            },
            MembersSubstitution::Reflexive(s) => {
                if (i as usize) < s.len() {
                    Some(s[i as usize] as u32)
                } else {
                    None
                }
            },
        }
    }
}

/// Property of a group member: a signed pair of references.
pub type Binding = Signed<(Reference, Reference)>;

/// Layer of a binding: the highest layer of its two references.
pub open spec fn binding_layer(b: Binding) -> int {
    let (x, y) = b.1;
    if reference_layer(x) < reference_layer(y) {
        reference_layer(y)
    } else {
        reference_layer(x)
    }
}

/// Highest layer of the bindings (zero when there is none).
pub open spec fn bindings_layer(s: Seq<Binding>) -> int
    decreases s.len(),
{
    if s.len() == 0 {
        0
    } else {
        let l = bindings_layer(s.drop_last());
        if l < binding_layer(s.last()) {
            binding_layer(s.last())
        } else {
            l
        }
    }
}

/// Whether every reference of the bindings has a layer fitting in 32 bits.
pub open spec fn bindings_fit(s: Seq<Binding>) -> bool {
    forall|j: int| 0 <= j < s.len() ==> reference_layer_fits(#[trigger] s[j].1.0) && reference_layer_fits(s[j].1.1)
}

/// Group member: its properties.
#[derive(Debug, Clone, PartialEq, Eq, PartialOrd, Ord, Hash)]
pub struct Member {
    /// Resource properties.
    pub properties: Vec<Binding>,
}

impl Member {
    pub fn new(properties: Vec<Binding>) -> (r: Member)
        ensures
            r.properties@ == properties@,
    {
        Member { properties }
    }

    /// Number of properties.
    pub fn len(&self) -> (r: usize)
        ensures
            r == self.properties@.len(),
    {
        self.properties.len()
    }

    pub fn is_empty(&self) -> (r: bool)
        ensures
            r <==> self.properties@.len() == 0,
    {
        self.properties.len() == 0
    }

    /// Highest layer of the references of the member.
    pub fn layer(&self) -> (r: u32)
        requires
            bindings_fit(self.properties@),
        ensures
            r == bindings_layer(self.properties@),
    {
        let mut layer: u32 = 0;
        let mut j: usize = 0;
        while j < self.properties.len()
            invariant
                j <= self.properties@.len(),
                bindings_fit(self.properties@),
                layer == bindings_layer(self.properties@.take(j as int)),
            decreases self.properties@.len() - j,
        {
            let Signed(_, (a, b)) = self.properties[j];
            proof {
                assert(self.properties@.take(j + 1).drop_last() =~= self.properties@.take(j as int));
                assert(reference_layer_fits(self.properties@[j as int].1.0));
            }
            let la = a.layer();
            let lb = b.layer();
            let m = if la < lb {
                lb
            } else {
                la
            };
            if layer < m {
                layer = m;
            }
            j = j + 1;
        }
        proof {
            assert(self.properties@.take(j as int) =~= self.properties@);
        }
        layer
    }

    /// Adds a property.
    pub fn add(&mut self, binding: Binding)
        ensures
            final(self).properties@ == old(self).properties@.push(binding),
    {
        self.properties.push(binding)
    }
}

/// Resource group: mutually recursive resources.
#[derive(Debug, Clone, PartialEq, Eq, PartialOrd, Ord, Hash)]
pub struct Description {
    /// Group members.
    pub members: Vec<Member>,
}

/// Highest layer of the members (zero when there is none).
pub open spec fn members_layer(s: Seq<Member>) -> int
    decreases s.len(),
{
    if s.len() == 0 {
        0
    } else {
        let l = members_layer(s.drop_last());
        let m = bindings_layer(s.last().properties@);
        if l < m {
            m
        } else {
            l
        }
    }
}

/// Puts a group of several members in normal form (canonical labelling),
/// giving the group and the new position of each member.
pub trait GroupNormalizer {
    fn normalize(&mut self, members: Vec<Member>) -> (Description, Vec<usize>);
}

impl Description {
    /// The group of the given members in normal form, with the new position
    /// of each member: a single member stays as it is; several are put in
    /// normal form by `normalizer`.
    pub fn new<N: GroupNormalizer>(members: Vec<Member>, normalizer: &mut N) -> (r: (Description, MembersSubstitution))
        ensures
            members@.len() == 1 ==> r.0.members@ == members@ && r.1 == MembersSubstitution::NonReflexive,
            members@.len() != 1 ==> r.1 is Reflexive,
    {
        if members.len() == 1 {
            let mut members = members;
            let member = members.pop().unwrap();
            (Description::non_reflexive(member), MembersSubstitution::NonReflexive)
        } else {
            let (normal_form, substitution) = normalizer.normalize(members);
            (normal_form, MembersSubstitution::Reflexive(substitution))
        }
    }

    /// The group of the given single member.
    pub fn non_reflexive(member: Member) -> (r: Description)
        ensures
            r.members@ == seq![member],
    {
        let mut members = Vec::new();
        members.push(member);
        Description::from_normalized_members(members)
    }

    /// The group of the given members, already in normal form.
    pub fn from_normalized_members(members: Vec<Member>) -> (r: Description)
        ensures
            r.members@ == members@,
    {
        Description { members }
    }

    /// Highest layer of the references of the members.
    pub fn layer(&self) -> (r: u32)
        requires
            forall|j: int| 0 <= j < self.members@.len() ==> bindings_fit(#[trigger] self.members@[j].properties@),
        ensures
            r == members_layer(self.members@),
    {
        let mut layer: u32 = 0;
        let mut j: usize = 0;
        while j < self.members.len()
            invariant
                j <= self.members@.len(),
                forall|t: int| 0 <= t < self.members@.len() ==> bindings_fit(#[trigger] self.members@[t].properties@),
                layer == members_layer(self.members@.take(j as int)),
            decreases self.members@.len() - j,
        {
            proof {
                assert(self.members@.take(j + 1).drop_last() =~= self.members@.take(j as int));
                assert(bindings_fit(self.members@[j as int].properties@));
            }
            let m = self.members[j].layer();
            if layer < m {
                layer = m;
            }
            j = j + 1;
        }
        proof {
            assert(self.members@.take(j as int) =~= self.members@);
        }
        layer
    }
}

} // verus!
