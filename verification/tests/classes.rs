use inferdf::class::classification::{Layer, LocalClassification};
use inferdf::class::group::normalization::{AnonymousReference, ColorPicker, NonNormalizedDescription, Pigment};
use inferdf::class::group::sorting::{binding_less, bindings_less, reference_less, sort_members};
use inferdf::class::group::{Description, GroupId, GroupNormalizer, Member, MembersSubstitution};
use inferdf::class::{Class, Reference};
use inferdf::inference::LayerGroups;
use inferdf::{Id, Sign, Signed};

fn member(props: Vec<(Sign, Reference, Reference)>) -> Member {
    Member::new(props.into_iter().map(|(s, a, b)| Signed(s, (a, b))).collect())
}

#[test]
fn class_layers() {
    let c = Class::new(GroupId::new(2, 5), 1);
    assert_eq!(Reference::Class(c).layer(), 3);
    assert_eq!(Reference::Singleton(Id(4)).layer(), 0);
    assert_eq!(Reference::Group(0).layer(), 0);
    let m = member(vec![
        (Sign::Positive, Reference::Singleton(Id(1)), Reference::Class(c)),
        (Sign::Negative, Reference::Group(0), Reference::Singleton(Id(2))),
    ]);
    assert_eq!(m.len(), 2);
    assert!(!m.is_empty());
    assert_eq!(m.layer(), 3);
    let d = Description::non_reflexive(m);
    assert_eq!(d.layer(), 3);
    assert_eq!(Description::from_normalized_members(vec![]).layer(), 0);
}

#[test]
fn member_add() {
    let mut m = Member::new(vec![]);
    assert!(m.is_empty());
    m.add(Signed(Sign::Positive, (Reference::Group(0), Reference::Group(1))));
    assert_eq!(m.len(), 1);
}

#[test]
fn members_substitution() {
    assert_eq!(MembersSubstitution::NonReflexive.get(0), Some(0));
    assert_eq!(MembersSubstitution::NonReflexive.get(1), None);
    let s = MembersSubstitution::Reflexive(vec![2, 0, 1]);
    assert_eq!(s.get(0), Some(2));
    assert_eq!(s.get(2), Some(1));
    assert_eq!(s.get(3), None);
}

#[test]
fn reference_order_follows_derived_order() {
    let refs = vec![
        Reference::Singleton(Id(1)),
        Reference::Singleton(Id(2)),
        Reference::Class(Class::new(GroupId::new(0, 0), 1)),
        Reference::Class(Class::new(GroupId::new(0, 1), 0)),
        Reference::Class(Class::new(GroupId::new(1, 0), 0)),
        Reference::Group(0),
        Reference::Group(3),
    ];
    for a in &refs {
        for b in &refs {
            assert_eq!(reference_less(a, b), a < b);
        }
    }
    let x = Signed(Sign::Positive, (Reference::Group(1), Reference::Group(0)));
    let y = Signed(Sign::Negative, (Reference::Group(0), Reference::Group(0)));
    assert_eq!(binding_less(&x, &y), x < y);
    assert_eq!(binding_less(&y, &x), y < x);
    assert!(bindings_less(&vec![x], &vec![x, y]));
    assert!(!bindings_less(&vec![x, y], &vec![x]));
    assert!(!bindings_less(&vec![x], &vec![x]));
}

#[test]
fn members_sort_like_derived_order() {
    let a = member(vec![(Sign::Negative, Reference::Group(0), Reference::Group(0))]);
    let b = member(vec![(Sign::Positive, Reference::Group(1), Reference::Group(0))]);
    let c = member(vec![]);
    let sorted = sort_members(vec![a.clone(), b.clone(), c.clone(), a.clone()]);
    let mut expected = vec![a.clone(), b, c, a];
    expected.sort();
    assert_eq!(sorted, expected);
}

#[test]
fn neighbors_are_sorted_and_unique() {
    let m0 = member(vec![
        (Sign::Positive, Reference::Group(2), Reference::Group(1)),
        (Sign::Positive, Reference::Group(1), Reference::Singleton(Id(7))),
    ]);
    let m1 = member(vec![(Sign::Positive, Reference::Singleton(Id(7)), Reference::Singleton(Id(8)))]);
    let m2 = member(vec![(Sign::Negative, Reference::Group(0), Reference::Group(0))]);
    let d = NonNormalizedDescription::new(vec![m0, m1, m2]);
    assert_eq!(*d.elements(), 3);
    assert_eq!(d.neighbor_lists(), &vec![vec![1, 2], vec![], vec![0]]);
    let cache = d.initialize_cache();
    assert!(cache.stack.is_empty());
    assert_eq!(cache.map, vec![0, 0, 0]);
}

#[test]
fn coloring_forgets_member_numbers() {
    let m0 = member(vec![
        (Sign::Positive, Reference::Group(1), Reference::Singleton(Id(7))),
        (Sign::Negative, Reference::Singleton(Id(3)), Reference::Group(0)),
    ]);
    let m1 = member(vec![
        (Sign::Negative, Reference::Singleton(Id(3)), Reference::Group(1)),
        (Sign::Positive, Reference::Group(0), Reference::Singleton(Id(7))),
    ]);
    let d = NonNormalizedDescription::new(vec![m0, m1]);
    let colors = d.initial_coloring();
    assert_eq!(colors.len(), 2);
    assert_eq!(colors[0], colors[1]);
    let expected = vec![
        Pigment(Signed(Sign::Positive, (AnonymousReference::Group, AnonymousReference::Singleton(Id(7))))),
        Pigment(Signed(Sign::Negative, (AnonymousReference::Singleton(Id(3)), AnonymousReference::Group))),
    ];
    assert_eq!(colors[0].pigments(), &expected);
}

#[test]
fn color_picker_sorts() {
    let mut p = ColorPicker::with_capacity(2);
    p.insert(Signed(Sign::Negative, (Reference::Group(0), Reference::Group(1))));
    p.insert(Signed(Sign::Positive, (Reference::Singleton(Id(1)), Reference::Group(1))));
    let c = p.pick();
    let mut pigments = c.pigments().clone();
    pigments.sort();
    assert_eq!(c.pigments(), &pigments);
    assert_eq!(pigments.len(), 2);
}

#[test]
fn morphism_renames_and_sorts() {
    let m0 = member(vec![(Sign::Positive, Reference::Group(1), Reference::Singleton(Id(9)))]);
    let m1 = member(vec![(Sign::Negative, Reference::Group(0), Reference::Group(1))]);
    let d = NonNormalizedDescription::new(vec![m0, m1]);
    let r = d.apply_morphism(&vec![1, 0]);
    let e0 = member(vec![(Sign::Positive, Reference::Group(0), Reference::Singleton(Id(9)))]);
    let e1 = member(vec![(Sign::Negative, Reference::Group(1), Reference::Group(0))]);
    let mut expected = vec![e0, e1];
    expected.sort();
    assert_eq!(r.members, expected);
}

#[test]
fn layer_groups_number_distinct_groups() {
    let mut groups = LayerGroups::new(4);
    let d1 = Description::non_reflexive(member(vec![]));
    let d2 = Description::non_reflexive(member(vec![(Sign::Positive, Reference::Group(0), Reference::Group(0))]));
    assert_eq!(groups.insert(d1.clone()), GroupId::new(4, 0));
    assert_eq!(groups.insert(d2.clone()), GroupId::new(4, 1));
    assert_eq!(groups.insert(d1.clone()), GroupId::new(4, 0));
    assert_eq!(groups.into_vec(), vec![d1, d2]);
}

#[test]
fn local_classification_lookups() {
    let desc = Description::non_reflexive(member(vec![(Sign::Positive, Reference::Group(0), Reference::Singleton(Id(1)))]));
    let other = Description::non_reflexive(member(vec![]));
    let class = Class::new(GroupId::new(0, 0), 0);
    let c = LocalClassification::new(vec![Layer::new(vec![desc.clone()])], vec![(Id(7), class)]);
    assert_eq!(c.resource_class(Id(7)), Some(class));
    assert_eq!(c.resource_class(Id(8)), None);
    assert_eq!(c.class_representative(class), Some(Id(7)));
    assert_eq!(c.class_representative(Class::new(GroupId::new(0, 1), 0)), None);
    assert_eq!(c.group(GroupId::new(0, 0)), Some(&desc));
    assert_eq!(c.group(GroupId::new(1, 0)), None);
    assert_eq!(c.find_group_id(&desc), Some(GroupId::new(0, 0)));
    assert_eq!(c.find_group_id(&other), None);
    assert_eq!(c.classes(), vec![(class, Id(7))]);
    assert_eq!(c.groups().len(), 1);
}

/// Puts members in the reverse order, as a stand-in normal form.
struct Reversing;

impl GroupNormalizer for Reversing {
    fn normalize(&mut self, mut members: Vec<Member>) -> (Description, Vec<usize>) {
        let n = members.len();
        members.reverse();
        (Description::from_normalized_members(members), (0..n).rev().collect())
    }
}

#[test]
fn description_of_one_member_needs_no_normal_form() {
    let m = member(vec![(Sign::Positive, Reference::Singleton(Id(1)), Reference::Singleton(Id(2)))]);
    let (d, s) = Description::new(vec![m], &mut Reversing);
    assert_eq!(d.members.len(), 1);
    assert!(matches!(s, MembersSubstitution::NonReflexive));
    let a = member(vec![]);
    let b = member(vec![(Sign::Negative, Reference::Singleton(Id(3)), Reference::Singleton(Id(3)))]);
    let (d, s) = Description::new(vec![a, b], &mut Reversing);
    assert_eq!(d.members.len(), 2);
    assert_eq!(s.get(0), Some(1));
    assert_eq!(s.get(1), Some(0));
}
