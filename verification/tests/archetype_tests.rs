use shard_ecs::{
    Archetype, ComponentDescriptor, ComponentGroupDescriptor, ComponentTypeId, ComponentValue,
    Entity,
};

fn desc(id: u16, size: u16, align: u16) -> ComponentDescriptor {
    ComponentDescriptor::new(ComponentTypeId::from_u16(id), size, align)
}

fn cv(id: u16, size: u16, bytes: Vec<u8>) -> ComponentValue {
    ComponentValue::new(desc(id, size, 8), bytes).unwrap()
}

fn ab_table() -> Archetype {
    let group = ComponentGroupDescriptor::new(&[desc(1, 8, 8), desc(2, 8, 8)]);
    Archetype::new(group.archetype())
}

fn row(a: u64, b: u64) -> Vec<ComponentValue> {
    vec![cv(1, 8, a.to_le_bytes().to_vec()), cv(2, 8, b.to_le_bytes().to_vec())]
}

#[test]
fn test_archetype_constructors() {
    let group = ComponentGroupDescriptor::new(&[desc(1, 8, 8), desc(2, 8, 8)]);
    let table = Archetype::new(group.archetype());
    assert_eq!(table.len(), 0);
    assert_eq!(table.capacity(), 128);
    assert!(!table.is_full());
    let table = Archetype::with_capacity(group.archetype(), 4);
    assert_eq!(table.capacity(), 4);
    assert_eq!(table.descriptor().len(), 2);
}

#[test]
fn test_archetype_push_read() {
    let mut table = ab_table();
    let e0 = Entity::new(0, 0);
    let e1 = Entity::new(1, 0);
    assert_eq!(table.push_entity(e0, row(10, 20)), 0);
    assert_eq!(table.push_entity(e1, row(11, 21)), 1);
    assert_eq!(table.len(), 2);
    assert_eq!(table.entity_at(0), e0);
    assert_eq!(table.entity_at(1), e1);
    assert_eq!(
        table.get_component(0, ComponentTypeId::from_u16(1)).unwrap(),
        10u64.to_le_bytes().to_vec()
    );
    assert_eq!(
        table.get_component(1, ComponentTypeId::from_u16(2)).unwrap(),
        21u64.to_le_bytes().to_vec()
    );
    assert!(table.get_component(0, ComponentTypeId::from_u16(3)).is_none());
    let values = table.read_row(1);
    assert_eq!(values.len(), 2);
    assert_eq!(values[0].data().as_slice(), 11u64.to_le_bytes());
    assert_eq!(values[1].data().as_slice(), 21u64.to_le_bytes());
}

#[test]
fn test_archetype_swap_entities() {
    let mut table = ab_table();
    let e0 = Entity::new(0, 0);
    let e1 = Entity::new(1, 0);
    let e2 = Entity::new(2, 0);
    table.push_entity(e0, row(10, 20));
    table.push_entity(e1, row(11, 21));
    table.push_entity(e2, row(12, 22));
    table.swap_rows(0, 2);
    assert_eq!(table.entity_at(0), e2);
    assert_eq!(table.entity_at(2), e0);
    assert_eq!(
        table.get_component(0, ComponentTypeId::from_u16(1)).unwrap(),
        12u64.to_le_bytes().to_vec()
    );
    assert_eq!(
        table.get_component(2, ComponentTypeId::from_u16(2)).unwrap(),
        20u64.to_le_bytes().to_vec()
    );
    // Swapping the middle row with the last by swap_to_last.
    assert!(table.swap_to_last(1));
    assert_eq!(table.entity_at(1), e0);
    assert_eq!(table.entity_at(2), e1);
    // The last row is already last: no swap happens.
    assert!(!table.swap_to_last(2));
}

#[test]
fn test_archetype_swap_drop_and_remove() {
    let mut table = ab_table();
    let e0 = Entity::new(0, 0);
    let e1 = Entity::new(1, 0);
    let e2 = Entity::new(2, 0);
    table.push_entity(e0, row(10, 20));
    table.push_entity(e1, row(11, 21));
    table.push_entity(e2, row(12, 22));
    // Dropping a middle row moves the last row into its place.
    assert!(table.swap_drop(0));
    assert_eq!(table.len(), 2);
    assert_eq!(table.entity_at(0), e2);
    assert_eq!(
        table.get_component(0, ComponentTypeId::from_u16(1)).unwrap(),
        12u64.to_le_bytes().to_vec()
    );
    // Dropping the last row needs no swap.
    assert!(!table.swap_drop(1));
    assert_eq!(table.len(), 1);
    // Reading a row out by swap_remove returns its values.
    let (values, swapped) = table.swap_remove(0);
    assert!(!swapped);
    assert_eq!(values[0].data().as_slice(), 12u64.to_le_bytes());
    assert_eq!(values[1].data().as_slice(), 22u64.to_le_bytes());
    assert_eq!(table.len(), 0);
}

#[test]
fn test_archetype_read_components() {
    let mut table = ab_table();
    let e0 = Entity::new(0, 0);
    table.push_entity(e0, row(77, 88));
    let (entity, values) = table.pop_row();
    assert_eq!(entity, e0);
    assert_eq!(values[0].data().as_slice(), 77u64.to_le_bytes());
    assert_eq!(values[1].data().as_slice(), 88u64.to_le_bytes());
    assert_eq!(table.len(), 0);
}

#[test]
fn test_archetype_write_single() {
    let mut table = ab_table();
    table.push_entity(Entity::new(0, 0), row(1, 2));
    assert!(table.write_single_component(0, cv(2, 8, 99u64.to_le_bytes().to_vec())));
    assert_eq!(
        table.get_component(0, ComponentTypeId::from_u16(2)).unwrap(),
        99u64.to_le_bytes().to_vec()
    );
    // Writing an absent component changes nothing and reports failure.
    assert!(!table.write_single_component(0, cv(5, 8, 1u64.to_le_bytes().to_vec())));
    // A size mismatch with the stored column is refused.
    assert!(!table.write_single_component(0, cv(2, 4, vec![1, 2, 3, 4])));
}

#[test]
fn test_archetype_capacity_growth() {
    let group = ComponentGroupDescriptor::new(&[desc(1, 8, 8)]);
    let mut table = Archetype::with_capacity(group.archetype(), 0);
    assert_eq!(table.capacity(), 0);
    table.push_entity(Entity::new(0, 0), vec![cv(1, 8, 5u64.to_le_bytes().to_vec())]);
    // The first reservation uses the default floor.
    assert_eq!(table.capacity(), 128);
    let mut table = Archetype::with_capacity(group.archetype(), 1);
    table.push_entity(Entity::new(0, 0), vec![cv(1, 8, 5u64.to_le_bytes().to_vec())]);
    assert!(table.is_full());
    table.push_entity(Entity::new(1, 0), vec![cv(1, 8, 6u64.to_le_bytes().to_vec())]);
    // Growth doubles the declared capacity.
    assert_eq!(table.capacity(), 2);
}

#[test]
fn test_archetype_capacity_out_of_range() {
    let group = ComponentGroupDescriptor::new(&[desc(1, 8, 8)]);
    // A request above the largest admissible row count reserves nothing.
    let table = Archetype::with_capacity(group.archetype(), 16_777_216);
    assert_eq!(table.capacity(), 0);
    // The largest admissible request is honored as given.
    let table = Archetype::with_capacity(group.archetype(), 16_777_215);
    assert_eq!(table.capacity(), 16_777_215);
}
