use vstd::prelude::*;
use crate::archetype_descriptor::{archetype_id_value, ids_contain, ids_strictly_sorted,
    lemma_find_pos_matches, lemma_insert_pos_bounds, spec_find_pos, spec_insert_pos};
use crate::archetype_registry::ArchetypeRegistry;
use crate::component_descriptor::ComponentDescriptor;
use crate::component_group_descriptor::{ComponentGroupDescriptor, is_sorted_variant,
    lemma_sorted_variant_unique};
use crate::component_value::ComponentValue;
use crate::entity::Entity;
use crate::registry::Registry;

verus! {

/// Every live entity's directory slot points at an existing row of an
/// existing, well-formed table whose back-pointer is that entity's handle.
pub proof fn lemma_directory_points_at_rows(reg: &Registry, e: Entity)
    requires
        reg.wf(),
        reg.spec_live(e),
    ensures
        0 <= reg.spec_archetype_of(e) < reg.spec_archetypes().spec_num_tables(),
        0 <= reg.spec_row_of(e) < reg.spec_archetypes().spec_table(
            reg.spec_archetype_of(e)).spec_len(),
        reg.spec_archetypes().spec_table(reg.spec_archetype_of(e)).spec_entities()[
            reg.spec_row_of(e)].spec_index() == e.spec_index(),
        reg.spec_archetypes().spec_table(reg.spec_archetype_of(e)).spec_entities()[
            reg.spec_row_of(e)] == e,
        reg.spec_descriptor_of(e).spec_is_valid(),
{
    assert(reg.spec_slot_consistent(e.spec_index() as int));
    crate::entity::lemma_entity_handle_determined(
        reg.spec_archetypes().spec_table(reg.spec_archetype_of(e)).spec_entities()[
            reg.spec_row_of(e)], e);
    assert(reg.spec_archetypes().spec_table(reg.spec_archetype_of(e)).wf());
}

/// Every table row's back-pointer resolves through the directory to exactly
/// that table and row.
pub proof fn lemma_rows_resolve_back(reg: &Registry, t: int, r: int)
    requires
        reg.wf(),
        0 <= t < reg.spec_archetypes().spec_num_tables(),
        0 <= r < reg.spec_archetypes().spec_table(t).spec_len(),
    ensures
        reg.spec_live(reg.spec_archetypes().spec_table(t).spec_entities()[r]),
        reg.spec_archetype_of(reg.spec_archetypes().spec_table(t).spec_entities()[r]) == t,
        reg.spec_row_of(reg.spec_archetypes().spec_table(t).spec_entities()[r]) == r,
{
    assert(reg.spec_row_consistent(t, r));
}

/// Each level index of the table registry is strictly ascending by
/// archetype id, and no table is listed twice anywhere across the registry.
pub proof fn lemma_level_indices_sorted_and_unique(reg: &ArchetypeRegistry)
    requires
        reg.wf(),
    ensures
        forall|l: int, k1: int, k2: int| 0 <= l < 14 && 0 <= k1 < k2
            < reg.spec_level(l).len() ==> reg.spec_level(l)[k1].spec_id().spec_value()
            < reg.spec_level(l)[k2].spec_id().spec_value(),
        forall|l1: int, k1: int, l2: int, k2: int| 0 <= l1 < 14 && 0 <= l2 < 14
            && 0 <= k1 < reg.spec_level(l1).len() && 0 <= k2 < reg.spec_level(l2).len()
            && (l1 != l2 || k1 != k2)
            ==> (#[trigger] reg.spec_level(l1)[k1]).spec_archetype_index()
                != (#[trigger] reg.spec_level(l2)[k2]).spec_archetype_index(),
{
    assert forall|l1: int, k1: int, l2: int, k2: int| 0 <= l1 < 14 && 0 <= l2 < 14
        && 0 <= k1 < reg.spec_level(l1).len() && 0 <= k2 < reg.spec_level(l2).len()
        && (l1 != l2 || k1 != k2)
        implies (#[trigger] reg.spec_level(l1)[k1]).spec_archetype_index()
            != (#[trigger] reg.spec_level(l2)[k2]).spec_archetype_index() by {
        let a1 = reg.spec_level(l1)[k1].spec_archetype_index();
        let a2 = reg.spec_level(l2)[k2].spec_archetype_index();
        if a1 == a2 {
            // Both entries carry the one table's component count and id.
            assert(reg.spec_table(a1 as int).spec_descriptor().spec_len() == l1 + 1);
            assert(reg.spec_table(a2 as int).spec_descriptor().spec_len() == l2 + 1);
            assert(l1 == l2);
            assert(reg.spec_level(l1)[k1].spec_id()
                == reg.spec_table(a1 as int).spec_descriptor().spec_archetype_id());
            assert(reg.spec_level(l2)[k2].spec_id()
                == reg.spec_table(a2 as int).spec_descriptor().spec_archetype_id());
            if k1 < k2 {
                assert(reg.spec_level(l1)[k1].spec_id().spec_value()
                    < reg.spec_level(l1)[k2].spec_id().spec_value());
            } else {
                assert(reg.spec_level(l1)[k2].spec_id().spec_value()
                    < reg.spec_level(l1)[k1].spec_id().spec_value());
            }
        }
    }
}

/// The set of live entities is exactly the set of back-pointers stored
/// across all table rows.
pub proof fn lemma_live_set_equals_back_pointers(reg: &Registry)
    requires
        reg.wf(),
    ensures
        forall|e: Entity| #[trigger] reg.spec_live(e) <==> exists|t: int, r: int| {
            &&& 0 <= t < reg.spec_archetypes().spec_num_tables()
            &&& 0 <= r < reg.spec_archetypes().spec_table(t).spec_len()
            &&& (#[trigger] reg.spec_archetypes().spec_table(t).spec_entities()[r]) == e
        },
{
    assert forall|e: Entity| #[trigger] reg.spec_live(e) implies exists|t: int, r: int| {
        &&& 0 <= t < reg.spec_archetypes().spec_num_tables()
        &&& 0 <= r < reg.spec_archetypes().spec_table(t).spec_len()
        &&& (#[trigger] reg.spec_archetypes().spec_table(t).spec_entities()[r]) == e
    } by {
        lemma_directory_points_at_rows(reg, e);
        let t0 = reg.spec_archetype_of(e);
        let r0 = reg.spec_row_of(e);
        assert(0 <= t0 < reg.spec_archetypes().spec_num_tables()
            && 0 <= r0 < reg.spec_archetypes().spec_table(t0).spec_len()
            && reg.spec_archetypes().spec_table(t0).spec_entities()[r0] == e);
    }
    assert forall|e: Entity| (exists|t: int, r: int| {
        &&& 0 <= t < reg.spec_archetypes().spec_num_tables()
        &&& 0 <= r < reg.spec_archetypes().spec_table(t).spec_len()
        &&& (#[trigger] reg.spec_archetypes().spec_table(t).spec_entities()[r]) == e
    }) implies #[trigger] reg.spec_live(e) by {
        let (t0, r0) = choose|t: int, r: int| {
            &&& 0 <= t < reg.spec_archetypes().spec_num_tables()
            &&& 0 <= r < reg.spec_archetypes().spec_table(t).spec_len()
            &&& (#[trigger] reg.spec_archetypes().spec_table(t).spec_entities()[r]) == e
        };
        assert(reg.spec_row_consistent(t0, r0));
    }
}

/// Creating an entity and then destroying it leaves every other entity,
/// its archetype and its component values untouched: preservation of the
/// others' state composes across the two steps.
pub proof fn lemma_create_destroy_preserves_others(initial: Registry, created: Registry,
    destroyed: Registry, e: Entity)
    requires
        Registry::others_preserved(initial, created, e),
        Registry::others_preserved(created, destroyed, e),
    ensures
        Registry::others_preserved(initial, destroyed, e),
{
    crate::registry::lemma_others_preserved_trans(initial, created, destroyed, e);
}

/// Adding a component to a sorted component list and then removing it by
/// its id restores the starting list (and with it the archetype id, which
/// is a function of the list).
pub proof fn lemma_add_remove_component_round_trip(s: Seq<ComponentDescriptor>,
    c: ComponentDescriptor)
    requires
        ids_strictly_sorted(s),
        !ids_contain(s, c.spec_id()),
    ensures
        ({
            let added = s.take(spec_insert_pos(s, c.spec_id())).push(c) + s.skip(
                spec_insert_pos(s, c.spec_id()));
            added.remove(spec_find_pos(added, c.spec_id())) == s
        }),
{
    let p = spec_insert_pos(s, c.spec_id());
    lemma_insert_pos_bounds(s, c.spec_id());
    let added = s.take(p).push(c) + s.skip(p);
    assert(added[p] == c);
    assert forall|i: int| 0 <= i < p implies added[i].spec_id() != c.spec_id() by {
        assert(added[i] == s[i]);
        assert(s[i].spec_id() < c.spec_id());
    }
    lemma_find_pos_matches(added, c.spec_id(), p);
    assert(added.remove(p) =~= s);
}

/// Two declared component lists with the same components, in whatever
/// order, have the same canonical (sorted) column order and therefore the
/// same archetype id.
pub proof fn lemma_group_order_irrelevant(a: Seq<ComponentDescriptor>,
    b: Seq<ComponentDescriptor>, sorted_a: Seq<ComponentDescriptor>,
    sorted_b: Seq<ComponentDescriptor>)
    requires
        is_sorted_variant(sorted_a, a),
        is_sorted_variant(sorted_b, b),
        a.to_multiset() == b.to_multiset(),
    ensures
        sorted_a == sorted_b,
        archetype_id_value(sorted_a.map_values(|d: ComponentDescriptor| d.spec_id()))
            == archetype_id_value(sorted_b.map_values(|d: ComponentDescriptor| d.spec_id())),
{
    lemma_sorted_variant_unique(sorted_a, sorted_b);
}

/// Projection round trip: reading a group of components back from an entity
/// returns exactly the values the entity was created with, value for value
/// in the declared order.
pub proof fn lemma_projection_round_trip(reg: Registry, e: Entity,
    group: ComponentGroupDescriptor, components: Seq<ComponentValue>, out: Seq<Vec<u8>>)
    requires
        group.spec_len() == components.len(),
        forall|i: int| 0 <= i < components.len() ==> (#[trigger] components[i])
            .spec_descriptor() == group.spec_archetype().spec_components()[
            group.spec_unsorted_to_sorted()[i] as int],
        forall|i: int| 0 <= i < components.len()
            ==> reg.spec_component_of(e, (#[trigger] components[i]).spec_id())
                == components[i].spec_data(),
        out.len() == group.spec_len(),
        forall|i: int| 0 <= i < group.spec_len() ==> (#[trigger] out[i])@
            == reg.spec_component_of(e, group.spec_archetype().spec_components()[
                group.spec_unsorted_to_sorted()[i] as int].spec_id()),
    ensures
        forall|i: int| 0 <= i < components.len() ==> (#[trigger] out[i])@
            == components[i].spec_data(),
{
    assert forall|i: int| 0 <= i < components.len() implies (#[trigger] out[i])@
        == components[i].spec_data() by {
        assert(components[i].spec_id() == group.spec_archetype().spec_components()[
            group.spec_unsorted_to_sorted()[i] as int].spec_id());
    }
}

/// Swap invariance of row deletion, stated on the stored sequences: on the
/// last row, swapping with the last row and dropping it is a plain removal
/// of the last element; on any other row it equals the swap of the two
/// rows followed by dropping the last element.
pub proof fn lemma_swap_drop_invariance<A>(s: Seq<A>, row: int)
    requires
        0 <= row < s.len(),
    ensures
        row == s.len() - 1 ==> s.update(row, s.last()).drop_last() == s.drop_last(),
        row < s.len() - 1 ==> s.update(row, s.last()).drop_last() == s.update(row,
            s.last()).update(s.len() - 1, s[row]).drop_last(),
{
    if row == s.len() - 1 {
        assert(s.update(row, s.last()).drop_last() =~= s.drop_last());
    } else {
        assert(s.update(row, s.last()).drop_last() =~= s.update(row, s.last()).update(
            s.len() - 1, s[row]).drop_last());
    }
}

/// On one engine state the listing order of live entities is total: two
/// distinct live entities compare one way and not the other.
pub proof fn lemma_entity_order_total(reg: &Registry, e1: Entity, e2: Entity)
    requires
        reg.wf(),
        reg.spec_live(e1),
        reg.spec_live(e2),
        e1 != e2,
    ensures
        reg.spec_entity_order(e1, e2) != reg.spec_entity_order(e2, e1),
{
    assert(reg.spec_slot_consistent(e1.spec_index() as int));
    assert(reg.spec_slot_consistent(e2.spec_index() as int));
    if e1.spec_index() == e2.spec_index() {
        crate::entity::lemma_entity_handle_determined(e1, e2);
        assert(false);
    }
    let t1 = reg.spec_archetype_of(e1);
    let t2 = reg.spec_archetype_of(e2);
    if t1 == t2 {
        let r1 = reg.spec_row_of(e1);
        let r2 = reg.spec_row_of(e2);
        if r1 == r2 {
            // Two slots cannot point at the same row: its back-pointer
            // names only one of them.
            assert(reg.spec_archetypes().spec_table(t1).spec_entities()[r1].spec_index()
                == e1.spec_index());
            assert(reg.spec_archetypes().spec_table(t2).spec_entities()[r2].spec_index()
                == e2.spec_index());
            assert(false);
        }
    } else {
        // Distinct tables never share both component count and id.
        if t1 < t2 {
            assert(!(reg.spec_archetypes().spec_table(t1).spec_descriptor().spec_len()
                == reg.spec_archetypes().spec_table(t2).spec_descriptor().spec_len()
                && reg.spec_archetypes().spec_table(t1).spec_descriptor()
                    .spec_archetype_id()
                == reg.spec_archetypes().spec_table(t2).spec_descriptor()
                    .spec_archetype_id()));
        } else {
            assert(!(reg.spec_archetypes().spec_table(t2).spec_descriptor().spec_len()
                == reg.spec_archetypes().spec_table(t1).spec_descriptor().spec_len()
                && reg.spec_archetypes().spec_table(t2).spec_descriptor()
                    .spec_archetype_id()
                == reg.spec_archetypes().spec_table(t1).spec_descriptor()
                    .spec_archetype_id()));
        }
        if reg.spec_archetypes().spec_table(t1).spec_descriptor().spec_len()
            == reg.spec_archetypes().spec_table(t2).spec_descriptor().spec_len()
            && reg.spec_archetypes().spec_table(t1).spec_descriptor().spec_archetype_id()
                .spec_value()
            == reg.spec_archetypes().spec_table(t2).spec_descriptor().spec_archetype_id()
                .spec_value() {
            crate::archetype_id::lemma_archetype_id_determined(
                reg.spec_archetypes().spec_table(t1).spec_descriptor().spec_archetype_id(),
                reg.spec_archetypes().spec_table(t2).spec_descriptor()
                    .spec_archetype_id());
            assert(false);
        }
    }
}

/// Two distinct, order-listed sequences of live entities holding the same
/// elements are identical.
proof fn lemma_ordered_listing_unique(reg: &Registry, es1: Seq<Entity>, es2: Seq<Entity>)
    requires
        reg.wf(),
        forall|j: int| 0 <= j < es1.len() ==> reg.spec_live(#[trigger] es1[j]),
        forall|j: int| 0 <= j < es2.len() ==> reg.spec_live(#[trigger] es2[j]),
        forall|j1: int, j2: int| 0 <= j1 < j2 < es1.len() ==> es1[j1] != es1[j2],
        forall|j1: int, j2: int| 0 <= j1 < j2 < es2.len() ==> es2[j1] != es2[j2],
        forall|j1: int, j2: int| 0 <= j1 < j2 < es1.len()
            ==> reg.spec_entity_order(es1[j1], es1[j2]),
        forall|j1: int, j2: int| 0 <= j1 < j2 < es2.len()
            ==> reg.spec_entity_order(es2[j1], es2[j2]),
        forall|e: Entity| es1.contains(e) <==> es2.contains(e),
    ensures
        es1 =~= es2,
    decreases es1.len(),
{
    if es1.len() == 0 {
        if es2.len() > 0 {
            assert(es2.contains(es2[0]));
            assert(es1.contains(es2[0]));
            assert(false);
        }
    } else {
        assert(es1.contains(es1[0]));
        assert(es2.contains(es1[0]));
        let k = choose|k: int| 0 <= k < es2.len() && es2[k] == es1[0];
        assert(es2.contains(es2[0]));
        assert(es1.contains(es2[0]));
        let m = choose|m: int| 0 <= m < es1.len() && es1[m] == es2[0];
        if k > 0 && m > 0 {
            assert(reg.spec_entity_order(es2[0], es1[0]));
            assert(reg.spec_entity_order(es1[0], es2[0]));
            assert(es1[0] != es2[0]) by {
                if es1[0] == es2[0] {
                    assert(es2[k] == es2[0]);
                }
            }
            lemma_entity_order_total(reg, es1[0], es2[0]);
            assert(false);
        }
        assert(es1[0] == es2[0]);
        let t1 = es1.drop_first();
        let t2 = es2.drop_first();
        assert forall|j: int| 0 <= j < t1.len() implies reg.spec_live(#[trigger] t1[j]) by {
            assert(t1[j] == es1[j + 1]);
        }
        assert forall|j: int| 0 <= j < t2.len() implies reg.spec_live(#[trigger] t2[j]) by {
            assert(t2[j] == es2[j + 1]);
        }
        assert forall|j1: int, j2: int| 0 <= j1 < j2 < t1.len() implies t1[j1] != t1[j2]
            && reg.spec_entity_order(t1[j1], t1[j2]) by {
            assert(t1[j1] == es1[j1 + 1]);
            assert(t1[j2] == es1[j2 + 1]);
        }
        assert forall|j1: int, j2: int| 0 <= j1 < j2 < t2.len() implies t2[j1] != t2[j2]
            && reg.spec_entity_order(t2[j1], t2[j2]) by {
            assert(t2[j1] == es2[j1 + 1]);
            assert(t2[j2] == es2[j2 + 1]);
        }
        assert forall|e: Entity| t1.contains(e) <==> t2.contains(e) by {
            if t1.contains(e) {
                let j = choose|j: int| 0 <= j < t1.len() && t1[j] == e;
                assert(es1[j + 1] == e);
                assert(es1.contains(e));
                assert(e != es1[0]);
                assert(es2.contains(e));
                let i = choose|i: int| 0 <= i < es2.len() && es2[i] == e;
                assert(i != 0);
                assert(t2[i - 1] == e);
                assert(t2.contains(e));
            }
            if t2.contains(e) {
                let j = choose|j: int| 0 <= j < t2.len() && t2[j] == e;
                assert(es2[j + 1] == e);
                assert(es2.contains(e));
                assert(e != es2[0]);
                assert(es1.contains(e));
                let i = choose|i: int| 0 <= i < es1.len() && es1[i] == e;
                assert(i != 0);
                assert(t1[i - 1] == e);
                assert(t1.contains(e));
            }
        }
        lemma_ordered_listing_unique(reg, t1, t2);
        assert forall|j: int| 0 <= j < es1.len() implies es1[j] == es2[j] by {
            if j > 0 {
                assert(t1 =~= t2);
                assert(t1[j - 1] == t2[j - 1]);
            }
        }
    }
}

/// Iteration is a function of the engine state: any two listings that both
/// satisfy the matched-entity enumeration contract (live and matching, each
/// entity at most once, every matching entity present, traversal order)
/// agree entity for entity. With the per-entity value clauses of the
/// iteration surface, repeating any query on an unchanged engine therefore
/// yields the same entities and the same bytes.
pub proof fn lemma_matching_enumeration_determined(reg: &Registry,
    group: &ComponentGroupDescriptor, es1: Seq<Entity>, es2: Seq<Entity>)
    requires
        reg.wf(),
        forall|j: int| 0 <= j < es1.len() ==> reg.spec_live(#[trigger] es1[j])
            && reg.spec_descriptor_of(es1[j]).spec_contains_subset(&group.spec_archetype()),
        forall|j: int| 0 <= j < es2.len() ==> reg.spec_live(#[trigger] es2[j])
            && reg.spec_descriptor_of(es2[j]).spec_contains_subset(&group.spec_archetype()),
        forall|j1: int, j2: int| 0 <= j1 < j2 < es1.len() ==> es1[j1] != es1[j2],
        forall|j1: int, j2: int| 0 <= j1 < j2 < es2.len() ==> es2[j1] != es2[j2],
        forall|j1: int, j2: int| 0 <= j1 < j2 < es1.len()
            ==> reg.spec_entity_order(es1[j1], es1[j2]),
        forall|j1: int, j2: int| 0 <= j1 < j2 < es2.len()
            ==> reg.spec_entity_order(es2[j1], es2[j2]),
        forall|e: Entity| reg.spec_live(e)
            && (#[trigger] reg.spec_descriptor_of(e)).spec_contains_subset(
                &group.spec_archetype()) ==> es1.contains(e),
        forall|e: Entity| reg.spec_live(e)
            && (#[trigger] reg.spec_descriptor_of(e)).spec_contains_subset(
                &group.spec_archetype()) ==> es2.contains(e),
    ensures
        es1 == es2,
{
    assert forall|e: Entity| es1.contains(e) <==> es2.contains(e) by {
        if es1.contains(e) {
            let j = choose|j: int| 0 <= j < es1.len() && es1[j] == e;
            assert(reg.spec_live(es1[j]));
        }
        if es2.contains(e) {
            let j = choose|j: int| 0 <= j < es2.len() && es2[j] == e;
            assert(reg.spec_live(es2[j]));
        }
    }
    lemma_ordered_listing_unique(reg, es1, es2);
}

} // verus!
