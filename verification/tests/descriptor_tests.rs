use shard_ecs::{
    fnv1a_hash_32, fnv1a_hash_16_xor, ArchetypeDescriptor, ComponentDescriptor,
    ComponentGroupDescriptor, ComponentTypeId,
};

fn desc(id: u16, size: u16, align: u16) -> ComponentDescriptor {
    ComponentDescriptor::new(ComponentTypeId::from_u16(id), size, align)
}

fn desc_a() -> ComponentDescriptor {
    desc(1, 8, 8)
}

fn desc_b() -> ComponentDescriptor {
    desc(2, 8, 8)
}

fn desc_c() -> ComponentDescriptor {
    desc(3, 8, 8)
}

fn group_of(descs: &[ComponentDescriptor]) -> ComponentGroupDescriptor {
    ComponentGroupDescriptor::new(descs)
}

#[test]
fn test_fnv1a_known_values() {
    assert_eq!(fnv1a_hash_32(&[]), 0x811c9dc5);
    assert_eq!(fnv1a_hash_32(b"a"), 0xe40c292c);
    assert_eq!(fnv1a_hash_32(b"Position"), 0xe27f342a);
    assert_eq!(fnv1a_hash_16_xor(b"Position"), 54869);
}

#[test]
fn test_archetype_id_of_pair() {
    let group = group_of(&[desc_a(), desc_b()]);
    assert!(group.is_valid());
    assert_eq!(group.archetype().archetype_id().into_u32(), 144146710);
    // A single component's archetype id is the component id itself.
    let single = group_of(&[desc_a()]);
    assert_eq!(single.archetype().archetype_id().into_u32(), 1);
}

#[test]
fn test_archetype_descriptor_add_remove() {
    let group = group_of(&[desc_a(), desc_b()]);
    let descriptor: &ArchetypeDescriptor = group.archetype();
    assert_eq!(descriptor.has_component(ComponentTypeId::from_u16(1)), true);
    assert_eq!(descriptor.has_component(ComponentTypeId::from_u16(2)), true);
    let descriptor = descriptor.add_component(&desc_c()).unwrap();
    assert_eq!(descriptor.has_component(ComponentTypeId::from_u16(3)), true);
    assert_eq!(descriptor.has_component(ComponentTypeId::from_u16(1)), true);
    assert_eq!(descriptor.has_component(ComponentTypeId::from_u16(2)), true);
    let descriptor = descriptor.remove_component(ComponentTypeId::from_u16(2)).unwrap();
    assert_eq!(descriptor.has_component(ComponentTypeId::from_u16(2)), false);
    assert_eq!(descriptor.has_component(ComponentTypeId::from_u16(1)), true);
    assert_eq!(descriptor.has_component(ComponentTypeId::from_u16(3)), true);
    assert_eq!(descriptor.len(), 2);
}

#[test]
fn test_archetype_descriptor_contains() {
    let ab = group_of(&[desc_a(), desc_b()]);
    let a = group_of(&[desc_a()]);
    let b = group_of(&[desc_b()]);
    let c = group_of(&[desc_c()]);
    assert_eq!(ab.archetype().contains_subset(a.archetype()), true);
    assert_eq!(ab.archetype().contains_subset(b.archetype()), true);
    assert_eq!(ab.archetype().contains_subset(c.archetype()), false);
}

#[test]
fn test_archetype_descriptor_excludes() {
    let ab = group_of(&[desc_a(), desc_b()]);
    let a = group_of(&[desc_a()]);
    let b = group_of(&[desc_b()]);
    let c = group_of(&[desc_c()]);
    assert_eq!(ab.archetype().excludes_subset(c.archetype()), true);
    assert_eq!(ab.archetype().excludes_subset(a.archetype()), false);
    assert_eq!(ab.archetype().contains_subset(b.archetype()), true);
}

#[test]
fn test_compute_sorted_descriptors() {
    let group = group_of(&[desc_a(), desc_b(), desc_c()]);
    let result = group.archetype().components();
    assert_eq!(desc_a(), result[0]);
    assert_eq!(desc_b(), result[1]);
    assert_eq!(desc_c(), result[2]);
    let group = group_of(&[desc_b(), desc_c(), desc_a()]);
    let result = group.archetype().components();
    assert_eq!(desc_a(), result[0]);
    assert_eq!(desc_b(), result[1]);
    assert_eq!(desc_c(), result[2]);
}

#[test]
fn test_compute_sort_mappings() {
    let group = group_of(&[desc_a(), desc_b(), desc_c()]);
    assert_eq!(
        [group.unsorted_to_sorted(0), group.unsorted_to_sorted(1), group.unsorted_to_sorted(2)],
        [0, 1, 2]
    );
    assert_eq!(
        [group.sorted_to_unsorted(0), group.sorted_to_unsorted(1), group.sorted_to_unsorted(2)],
        [0, 1, 2]
    );

    let group = group_of(&[desc_b(), desc_c(), desc_a()]);
    assert_eq!(
        [group.unsorted_to_sorted(0), group.unsorted_to_sorted(1), group.unsorted_to_sorted(2)],
        [1, 2, 0]
    );
    assert_eq!(
        [group.sorted_to_unsorted(0), group.sorted_to_unsorted(1), group.sorted_to_unsorted(2)],
        [2, 0, 1]
    );
}

#[test]
fn test_component_group_descriptor() {
    let position = desc(fnv1a_hash_16_xor(b"Position"), 12, 4);
    let rotation = desc(fnv1a_hash_16_xor(b"Rotation"), 16, 4);
    assert!(group_of(&[position]).is_valid());
    assert!(group_of(&[position, position]).is_valid() == false);
    assert!(group_of(&[position, rotation]).is_valid());
}

#[test]
fn test_group_order_gives_same_archetype() {
    // The same component set in two declared orders: same id, same columns.
    let g1 = group_of(&[desc_a(), desc_b(), desc_c()]);
    let g2 = group_of(&[desc_c(), desc_a(), desc_b()]);
    assert!(g1.is_valid() && g2.is_valid());
    assert_eq!(
        g1.archetype().archetype_id().into_u32(),
        g2.archetype().archetype_id().into_u32()
    );
    assert_eq!(g1.archetype().components(), g2.archetype().components());
}

#[test]
fn test_group_rejects_bad_inputs() {
    // Empty groups are invalid.
    assert!(ComponentGroupDescriptor::new(&[]).is_valid() == false);
    // A group with an invalid component descriptor is invalid.
    let bad = ComponentDescriptor::invalid();
    assert!(group_of(&[desc_a(), bad]).is_valid() == false);
    // More than fourteen components is invalid.
    let mut many: Vec<ComponentDescriptor> = Vec::new();
    for i in 0..15u16 {
        many.push(desc(i + 1, 4, 4));
    }
    assert!(ComponentGroupDescriptor::new(many.as_slice()).is_valid() == false);
    // Exactly fourteen components is fine.
    many.pop();
    assert!(ComponentGroupDescriptor::new(many.as_slice()).is_valid());
}

#[test]
fn test_descriptor_add_limits() {
    // Adding a duplicate component fails.
    let ab = group_of(&[desc_a(), desc_b()]);
    assert!(ab.archetype().add_component(&desc_a()).is_none());
    // Removing from a single-component archetype fails.
    let a = group_of(&[desc_a()]);
    assert!(a.archetype().remove_component(ComponentTypeId::from_u16(1)).is_none());
    // Removing an absent component fails.
    assert!(ab.archetype().remove_component(ComponentTypeId::from_u16(3)).is_none());
    // A full archetype rejects one more component.
    let mut many: Vec<ComponentDescriptor> = Vec::new();
    for i in 0..14u16 {
        many.push(desc(i + 1, 4, 4));
    }
    let full = ComponentGroupDescriptor::new(many.as_slice());
    assert!(full.archetype().add_component(&desc(20, 4, 4)).is_none());
}

#[test]
fn component_group_descriptor_test_compute_sorted_descriptors() {
    let group = group_of(&[desc_a(), desc_b(), desc_c()]);
    let result = group.archetype().components();
    assert_eq!(desc_a(), result[0]);
    assert_eq!(desc_b(), result[1]);
    assert_eq!(desc_c(), result[2]);
}

#[test]
fn component_group_descriptor_test_compute_sort_mappings() {
    let group = group_of(&[desc_a(), desc_b(), desc_c()]);
    assert_eq!(
        [group.unsorted_to_sorted(0), group.unsorted_to_sorted(1), group.unsorted_to_sorted(2)],
        [0, 1, 2]
    );
    assert_eq!(
        [group.sorted_to_unsorted(0), group.sorted_to_unsorted(1), group.sorted_to_unsorted(2)],
        [0, 1, 2]
    );
    let group = group_of(&[desc_b(), desc_c(), desc_a()]);
    assert_eq!(
        [group.unsorted_to_sorted(0), group.unsorted_to_sorted(1), group.unsorted_to_sorted(2)],
        [1, 2, 0]
    );
    assert_eq!(
        [group.sorted_to_unsorted(0), group.sorted_to_unsorted(1), group.sorted_to_unsorted(2)],
        [2, 0, 1]
    );
}

#[test]
fn component_group_test_component_group_descriptor() {
    let position = desc(fnv1a_hash_16_xor(b"Position"), 12, 4);
    let rotation = desc(fnv1a_hash_16_xor(b"Rotation"), 16, 4);
    assert!(group_of(&[position]).is_valid());
    assert!(group_of(&[position, position]).is_valid() == false);
    assert!(group_of(&[position, rotation]).is_valid());
}
