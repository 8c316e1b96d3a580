use shard_ecs::{
    ComponentDescriptor, ComponentGroupDescriptor, ComponentTypeId, ComponentValue, Entity,
    Registry,
};

fn desc(id: u16) -> ComponentDescriptor {
    ComponentDescriptor::new(ComponentTypeId::from_u16(id), 8, 8)
}

fn id(v: u16) -> ComponentTypeId {
    ComponentTypeId::from_u16(v)
}

fn a(v: u64) -> ComponentValue {
    ComponentValue::new(desc(1), v.to_le_bytes().to_vec()).unwrap()
}

fn b(v: u64) -> ComponentValue {
    ComponentValue::new(desc(2), v.to_le_bytes().to_vec()).unwrap()
}

fn c(v: u64) -> ComponentValue {
    ComponentValue::new(desc(3), v.to_le_bytes().to_vec()).unwrap()
}

fn bytes(v: u64) -> Vec<u8> {
    v.to_le_bytes().to_vec()
}

fn group(ids: &[u16]) -> ComponentGroupDescriptor {
    let mut descs: Vec<ComponentDescriptor> = Vec::new();
    for i in ids {
        descs.push(desc(*i));
    }
    ComponentGroupDescriptor::new(descs.as_slice())
}

#[test]
fn registry_test_get_component() {
    let mut registry = Registry::new();
    let entity = registry.create_entity(vec![a(1), b(2)]).unwrap();
    assert_eq!(registry.get_component(entity, id(1)), Some(bytes(1)));
    assert_eq!(registry.get_component(entity, id(2)), Some(bytes(2)));
    assert_eq!(registry.get_component(entity, id(3)), None);
    assert_eq!(registry.get_component(Entity::invalid(), id(1)), None);
    assert_eq!(
        registry.get_components(entity, &group(&[1, 2])),
        Some(vec![bytes(1), bytes(2)])
    );
    assert_eq!(
        registry.get_components(entity, &group(&[2, 1])),
        Some(vec![bytes(2), bytes(1)])
    );
    assert_eq!(registry.get_components(Entity::invalid(), &group(&[1, 2])), None);
    assert_eq!(
        registry.get_component(entity, id(1)).unwrap(),
        registry.get_components(entity, &group(&[1])).unwrap()[0]
    );
}

#[test]
fn registry_test_has_component() {
    let mut registry: Registry = Default::default();
    let entity = registry.create_entity(vec![a(1), b(2)]).unwrap();
    assert_eq!(registry.has_component(entity, id(1)), true);
    assert_eq!(registry.has_component(entity, id(2)), true);
    assert_eq!(registry.has_component(entity, id(3)), false);
    assert_eq!(registry.has_component(Entity::invalid(), id(1)), false);

    assert_eq!(registry.has_components(entity, &group(&[1, 2])), true);
    assert_eq!(registry.has_components(entity, &group(&[1, 3])), false);
    assert_eq!(registry.has_components(Entity::invalid(), &group(&[1, 2])), false);
}

#[test]
fn test_registry() {
    let mut registry = Registry::new();
    let entity = registry.create_entity(vec![a(1), b(2)]);
    assert!(entity.is_ok());
    let entity = entity.unwrap();
    assert_eq!(entity.version(), 0);
    assert_eq!(registry.get_component(entity, id(1)), Some(bytes(1)));
    assert_eq!(registry.get_component(entity, id(2)), Some(bytes(2)));
    assert!(registry.destroy_entity(entity));

    let entity = registry.create_entity(vec![a(1), b(2)]).unwrap();
    assert_eq!(entity.version(), 1);
    assert_eq!(registry.get_component(entity, id(1)), Some(bytes(1)));

    // Remove the whole entity, reading its components in declared order.
    let data = registry.remove_entity(entity, &group(&[2, 1]));
    assert!(data.is_some());
    let data = data.unwrap();
    assert_eq!(data[0], bytes(2));
    assert_eq!(data[1], bytes(1));

    let entity = registry.create_entity(vec![a(1), b(2)]).unwrap();
    assert!(registry.has_component(entity, id(2)));
    assert!(registry.has_component(entity, id(1)));

    assert!(registry.add_component(entity, c(3)).is_ok());

    assert!(registry.has_component(entity, id(1)));
    assert!(registry.has_component(entity, id(2)));
    assert!(registry.has_component(entity, id(3)));

    assert!(registry.remove_component(entity, id(1)).is_ok());

    assert!(registry.has_components(entity, &group(&[3, 2])));
    assert_eq!(registry.has_component(entity, id(1)), false);

    registry.destroy_entity(entity);

    let mut registry = Registry::new();
    let mut entities: Vec<Entity> = Vec::new();
    for e in 0..128u64 {
        entities.push(registry.create_entity(vec![a(e), b(128 - e)]).unwrap());
    }
    for e in registry.iter_entities() {
        assert!(entities.contains(&e));
    }
    for (e, comps) in registry.iter_entity_components_matching(&group(&[1, 2])) {
        assert!(entities.contains(&e));
        let i = entities.iter().position(|x| *x == e).unwrap() as u64;
        assert_eq!(comps[0], bytes(i));
        assert_eq!(comps[1], bytes(128 - i));
    }

    for e in 0..128u64 {
        registry.create_entity(vec![a(e), b(128 - e), c(e)]).unwrap();
    }
    // Two archetypes hold rows matching (A, B): count the matched rows.
    let matched = registry.iter_components_matching(&group(&[1, 2]));
    assert_eq!(matched.len(), 256);

    let mut entities: Vec<Entity> = Vec::new();
    for _ in 0..1000 {
        entities.push(registry.create_entity(vec![a(0), b(0)]).unwrap());
    }
    for entity in &entities {
        assert!(registry.add_component(*entity, c(0)).is_ok());
        assert!(registry.has_component(*entity, id(3)));
    }
    for (n, entity) in entities.iter().enumerate() {
        match n % 3 {
            0 => {
                assert!(registry.destroy_entity(*entity));
            },
            1 => {
                assert!(registry.remove_component(*entity, id(3)).is_ok());
                assert!(registry.has_components(*entity, &group(&[1, 2])));
                assert_eq!(registry.has_component(*entity, id(3)), false);
                assert_eq!(
                    registry.get_components(*entity, &group(&[1, 2])),
                    Some(vec![bytes(0), bytes(0)])
                );
            },
            _ => {
                assert!(registry.remove_component(*entity, id(1)).is_ok());
                assert!(registry.has_components(*entity, &group(&[3, 2])));
                assert_eq!(registry.has_component(*entity, id(1)), false);
                assert_eq!(
                    registry.get_components(*entity, &group(&[3, 2])),
                    Some(vec![bytes(0), bytes(0)])
                );
            },
        }
    }
}

#[test]
fn scenario_create_get_destroy() {
    let mut r = Registry::new();
    let e = r.create_entity(vec![a(1), b(2)]).unwrap();
    assert_eq!(r.get_component(e, id(1)), Some(bytes(1)));
    assert_eq!(r.get_component(e, id(2)), Some(bytes(2)));
    assert_eq!(r.get_component(e, id(3)), None);
    assert_eq!(r.destroy_entity(e), true);
    assert_eq!(r.get_component(e, id(1)), None);
}

#[test]
fn scenario_add_component_and_project() {
    let mut r = Registry::new();
    let e = r.create_entity(vec![a(1), b(2)]).unwrap();
    r.add_component(e, c(3)).unwrap();
    assert!(r.has_components(e, &group(&[1, 2, 3])));
    assert_eq!(
        r.get_components(e, &group(&[3, 1, 2])),
        Some(vec![bytes(3), bytes(1), bytes(2)])
    );
}

#[test]
fn scenario_remove_component() {
    let mut r = Registry::new();
    let e = r.create_entity(vec![a(1), b(2)]).unwrap();
    r.add_component(e, c(3)).unwrap();
    assert_eq!(r.remove_component(e, id(1)).unwrap(), bytes(1));
    assert_eq!(r.has_component(e, id(1)), false);
    assert_eq!(r.has_components(e, &group(&[2, 3])), true);
}

#[test]
fn scenario_iterate_thousand() {
    let mut r = Registry::new();
    for i in 0..1000u64 {
        r.create_entity(vec![a(i), b(0)]).unwrap();
    }
    let rows = r.iter_components_matching(&group(&[1]));
    let mut seen: Vec<u64> = Vec::new();
    for row in rows {
        let mut raw = [0u8; 8];
        raw.copy_from_slice(row[0].as_slice());
        seen.push(u64::from_le_bytes(raw));
    }
    seen.sort();
    let expected: Vec<u64> = (0..1000).collect();
    assert_eq!(seen, expected);
}

#[test]
fn scenario_exact_iteration() {
    let mut r = Registry::new();
    let e1 = r.create_entity(vec![a(1), b(2)]).unwrap();
    let _e2 = r.create_entity(vec![a(3), b(4), c(5)]).unwrap();
    // The exact query matches only the (A, B) archetype.
    let rows = r.iter_components_exact(&group(&[1, 2]));
    assert_eq!(rows.len(), 1);
    assert_eq!(rows[0][0], bytes(1));
    let pairs = r.iter_entity_components_exact(&group(&[1, 2]));
    assert_eq!(pairs.len(), 1);
    assert_eq!(pairs[0].0, e1);
    // The fuzzy query matches both archetypes.
    let rows = r.iter_components_matching(&group(&[1, 2]));
    assert_eq!(rows.len(), 2);
    // An exact query with no table yields nothing.
    assert_eq!(r.iter_components_exact(&group(&[3])).len(), 0);
}

#[test]
fn scenario_filtered_iteration() {
    let mut r = Registry::new();
    r.create_entity(vec![a(1), b(2)]).unwrap();
    r.create_entity(vec![a(3), b(4), c(5)]).unwrap();
    // Keep only archetypes that lack component 3.
    let rows = r.iter_filtered_components_matching(&group(&[1]), |d| {
        !d.has_component(ComponentTypeId::from_u16(3))
    });
    assert_eq!(rows.len(), 1);
    assert_eq!(rows[0][0], bytes(1));
    let pairs = r.iter_filtered_entity_components_matching(&group(&[1]), |d| {
        d.has_component(ComponentTypeId::from_u16(3))
    });
    assert_eq!(pairs.len(), 1);
    assert_eq!(pairs[0].1[0], bytes(3));
}

#[test]
fn scenario_set_component() {
    let mut r = Registry::new();
    let e = r.create_entity(vec![a(1), b(2)]).unwrap();
    assert!(r.set_component(e, a(9)));
    assert_eq!(r.get_component(e, id(1)), Some(bytes(9)));
    assert_eq!(r.get_component(e, id(2)), Some(bytes(2)));
    // Setting an absent component fails and changes nothing.
    assert!(!r.set_component(e, c(7)));
    assert_eq!(r.get_component(e, id(3)), None);
}

#[test]
fn error_paths_hand_values_back() {
    let mut r = Registry::new();
    // Creating with duplicate component types fails, returning the input.
    let dup = r.create_entity(vec![a(1), a(2)]);
    assert!(dup.is_err());
    let returned = dup.unwrap_err();
    assert_eq!(returned.len(), 2);
    assert_eq!(returned[0].data().as_slice(), 1u64.to_le_bytes());
    // Creating with no components fails.
    assert!(r.create_entity(Vec::new()).is_err());
    // Adding to a dead handle hands the component back.
    let e = r.create_entity(vec![a(1)]).unwrap();
    assert!(r.destroy_entity(e));
    let back = r.add_component(e, b(5)).unwrap_err();
    assert_eq!(back.data().as_slice(), 5u64.to_le_bytes());
    // Adding a component the entity already has fails.
    let e = r.create_entity(vec![a(1), b(2)]).unwrap();
    assert!(r.add_component(e, a(5)).is_err());
    // Removing an absent component fails.
    assert!(r.remove_component(e, id(3)).is_err());
    // Removing the last component fails: an archetype cannot be empty.
    let single = r.create_entity(vec![a(1)]).unwrap();
    assert!(r.remove_component(single, id(1)).is_err());
    // Removing an entity under the wrong group fails.
    assert!(r.remove_entity(e, &group(&[1])).is_none());
    assert!(r.remove_entity(e, &group(&[1, 2])).is_some());
}

#[test]
fn destroy_patches_displaced_entity() {
    let mut r = Registry::new();
    let e0 = r.create_entity(vec![a(10), b(0)]).unwrap();
    let e1 = r.create_entity(vec![a(11), b(0)]).unwrap();
    let e2 = r.create_entity(vec![a(12), b(0)]).unwrap();
    // Destroying the first row swaps the last entity into its place;
    // the displaced entity must still resolve to its values.
    assert!(r.destroy_entity(e0));
    assert_eq!(r.get_component(e1, id(1)), Some(bytes(11)));
    assert_eq!(r.get_component(e2, id(1)), Some(bytes(12)));
    assert_eq!(r.iter_entities().len(), 2);
}

#[test]
fn live_set_matches_back_pointers() {
    // The entities listed by iter_entities are exactly those reachable
    // through the tables' rows.
    let mut r = Registry::new();
    let e0 = r.create_entity(vec![a(1), b(1)]).unwrap();
    let e1 = r.create_entity(vec![a(2), c(2)]).unwrap();
    let e2 = r.create_entity(vec![a(3), b(3)]).unwrap();
    assert!(r.destroy_entity(e0));
    let mut live = r.iter_entities();
    live.sort_by_key(|e| e.raw());
    let mut from_rows: Vec<Entity> = Vec::new();
    for (e, _) in r.iter_entity_components_matching(&group(&[1])) {
        from_rows.push(e);
    }
    from_rows.sort_by_key(|e| e.raw());
    assert_eq!(live, from_rows);
    assert_eq!(live, {
        let mut v = vec![e1, e2];
        v.sort_by_key(|e| e.raw());
        v
    });
}

#[test]
fn create_then_destroy_preserves_others() {
    let mut r = Registry::new();
    let keeper = r.create_entity(vec![a(7), b(8)]).unwrap();
    let before_a = r.get_component(keeper, id(1)).unwrap();
    let before_b = r.get_component(keeper, id(2)).unwrap();
    let transient = r.create_entity(vec![a(100), b(200), c(300)]).unwrap();
    assert!(r.destroy_entity(transient));
    assert_eq!(r.get_component(keeper, id(1)).unwrap(), before_a);
    assert_eq!(r.get_component(keeper, id(2)).unwrap(), before_b);
    assert_eq!(r.iter_entities(), vec![keeper]);
}

#[test]
fn add_then_remove_restores_component_set() {
    let mut r = Registry::new();
    let e = r.create_entity(vec![a(4), b(5)]).unwrap();
    r.add_component(e, c(6)).unwrap();
    // The removed value is byte-equal to the one added.
    assert_eq!(r.remove_component(e, id(3)).unwrap(), bytes(6));
    // The component set is restored, exactly.
    assert!(r.remove_entity(e, &group(&[1, 2])).is_some());
}

#[test]
fn slot_version_wraps_at_engine_level() {
    let mut r = Registry::new();
    let first = r.create_entity(vec![a(0)]).unwrap();
    let mut last = first;
    for _ in 0..256 {
        assert!(r.destroy_entity(last));
        last = r.create_entity(vec![a(0)]).unwrap();
        assert_eq!(last.index(), first.index());
    }
    // After 256 reuses the slot's version has wrapped around.
    assert_eq!(last, first);
}

#[test]
fn iteration_does_not_change_state() {
    let mut r = Registry::new();
    r.create_entity(vec![a(1), b(2)]).unwrap();
    r.create_entity(vec![a(3), b(4), c(5)]).unwrap();
    let first = r.iter_entity_components_matching(&group(&[1]));
    let second = r.iter_entity_components_matching(&group(&[1]));
    assert_eq!(first, second);
    assert_eq!(r.iter_entities(), r.iter_entities());
    assert_eq!(
        r.iter_components_exact(&group(&[1, 2])),
        r.iter_components_exact(&group(&[1, 2]))
    );
}
