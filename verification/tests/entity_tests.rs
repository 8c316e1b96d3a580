use shard_ecs::{ArchetypeIndex, Entity, EntityRegistry, IndexInArchetype};

#[test]
fn test_entity_handles() {
    let mut entity = Entity::new(8_000_000, 255);
    assert_eq!(entity.index(), 8_000_000);
    assert_eq!(entity.version(), 255);

    entity.set_version(20);
    assert_eq!(entity.version(), 20);
    assert_eq!(entity.index(), 8_000_000);

    assert_eq!(Entity::invalid().raw(), u32::MAX);
    assert!(!Entity::invalid().is_valid());
    assert!(entity.is_valid());
}

#[test]
fn test_index_in_archetype_bytes() {
    let idx = IndexInArchetype::new(0x00abcdef).unwrap();
    assert_eq!(idx.value(), 0x00abcdef);
    let bytes = idx.to_bytes();
    assert_eq!(bytes, [0xab, 0xcd, 0xef]);
    let back = IndexInArchetype::from_bytes(bytes).unwrap();
    assert_eq!(back.value(), 0x00abcdef);
    assert!(IndexInArchetype::new(16777215).is_none());
    assert!(ArchetypeIndex::new(65535).is_none());
}

#[test]
fn test_entity_register() {
    let mut register = EntityRegistry::new();
    let index_in_archetype = IndexInArchetype::new(1).unwrap();
    let archetype_index = ArchetypeIndex::new(1).unwrap();

    let entity = register.create_entity(index_in_archetype, archetype_index).unwrap();

    assert!(register.entity_entry(entity).is_some());

    assert!(register.destroy_entity(entity));
    assert!(register.entity_entry(entity).is_none());

    let entity = register.create_entity(index_in_archetype, archetype_index).unwrap();
    let entry = register.entity_entry(entity).unwrap();
    assert_eq!(entry.archetype_index(), archetype_index.value());
    assert_eq!(entry.index_in_archetype(), index_in_archetype.value());
    assert_eq!(entity.index(), 0);
    assert_eq!(entity.version(), 1);
}

#[test]
fn test_many_entities() {
    let mut registry = EntityRegistry::new();
    // Destroying the invalid entity fails.
    assert!(!registry.destroy_entity(Entity::invalid()));
    let index_in_archetype = IndexInArchetype::new(2).unwrap();
    let archetype_index = ArchetypeIndex::new(1).unwrap();

    let mut entities: Vec<Entity> = Vec::new();
    for _ in 0..1024 {
        entities.push(registry.create_entity(index_in_archetype, archetype_index).unwrap());
    }
    for e in entities.iter().rev() {
        let entry = registry.entity_entry(*e).unwrap();
        assert_eq!(entry.version(), 0);
        assert_eq!(entry.archetype_index(), 1);
        assert_eq!(entry.index_in_archetype(), 2);
        assert!(registry.destroy_entity(*e));
    }
    for e in entities.iter() {
        assert_eq!(registry.destroy_entity(*e), false);
        assert!(registry.entity_entry(*e).is_none());
    }

    assert!(!registry.destroy_entity(Entity::invalid()));

    let mut entities: Vec<Entity> = Vec::new();
    for _ in 0..1024 {
        entities.push(registry.create_entity(index_in_archetype, archetype_index).unwrap());
    }
    for entity in entities.iter().rev() {
        let entry = registry.entity_entry(*entity).unwrap();
        assert_ne!(entry.version(), 0);
        assert_eq!(entry.archetype_index(), 1);
        assert_eq!(entry.index_in_archetype(), 2);
        assert!(registry.destroy_entity(*entity));
    }
    for entity in entities.iter() {
        assert!(!registry.destroy_entity(*entity));
        assert!(registry.entity_entry(*entity).is_none());
    }

    for entity in registry.iter() {
        let _ = entities.contains(&entity);
    }
}

#[test]
fn test_entity_registry() {
    let mut registry = EntityRegistry::new();
    assert!(registry.can_create_new_entity());
    let row = IndexInArchetype::new(7).unwrap();
    let arch = ArchetypeIndex::new(3).unwrap();
    let e = registry.create_entity(row, arch).unwrap();
    assert_eq!(e.index(), 0);
    assert_eq!(e.version(), 0);

    // Patch the row index of a live entity.
    let new_row = IndexInArchetype::new(11).unwrap();
    assert!(registry.update_index_in_archetype(e, new_row));
    assert_eq!(registry.entity_entry(e).unwrap().index_in_archetype(), 11);

    // Move the entity to a new location entirely.
    let arch2 = ArchetypeIndex::new(5).unwrap();
    let row2 = IndexInArchetype::new(0).unwrap();
    assert!(registry.update_location(e, arch2, row2));
    let entry = registry.entity_entry(e).unwrap();
    assert_eq!(entry.archetype_index(), 5);
    assert_eq!(entry.index_in_archetype(), 0);

    // Freed slots are reused, with a bumped version.
    assert!(registry.destroy_entity(e));
    let e2 = registry.create_entity(row, arch).unwrap();
    assert_eq!(e2.index(), 0);
    assert_eq!(e2.version(), 1);
    // The stale handle no longer resolves.
    assert!(registry.entity_entry(e).is_none());
    // The live set lists exactly the one live entity.
    let live = registry.iter();
    assert_eq!(live.len(), 1);
    assert_eq!(live[0], e2);
}

#[test]
fn test_version_wraps_after_256_reuses() {
    let mut registry = EntityRegistry::new();
    let row = IndexInArchetype::new(0).unwrap();
    let arch = ArchetypeIndex::new(0).unwrap();
    let first = registry.create_entity(row, arch).unwrap();
    assert_eq!(first.version(), 0);
    let mut last = first;
    for _ in 0..256 {
        assert!(registry.destroy_entity(last));
        last = registry.create_entity(row, arch).unwrap();
        assert_eq!(last.index(), first.index());
    }
    // The 257th handle for the slot carries the first handle's version again.
    assert_eq!(last.version(), first.version());
    assert_eq!(last, first);
}
