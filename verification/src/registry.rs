use vstd::prelude::*;
use crate::archetype_index::ArchetypeIndex;
use crate::archetype_registry::ArchetypeRegistry;
use crate::component_descriptor::ComponentDescriptor;
use crate::component_group_descriptor::{ComponentGroupDescriptor, group_input_clean,
    spec_sorted_variant};
use crate::component_type_id::ComponentTypeId;
use crate::component_value::ComponentValue;
use crate::entity::Entity;
use crate::entity_registry::EntityRegistry;
use crate::index_in_archetype::IndexInArchetype;

verus! {

/// The storage engine: the entity directory and the archetype tables,
/// linked by the invariant that every live directory slot points at exactly
/// the table row whose back-pointer names it.
pub struct Registry {
    entities: EntityRegistry,
    archetypes: ArchetypeRegistry,
}

impl Registry {
    /// The entity directory of the engine.
    pub closed spec fn spec_directory(&self) -> EntityRegistry {
        self.entities
    }

    /// The archetype table registry of the engine.
    pub closed spec fn spec_archetypes(&self) -> ArchetypeRegistry {
        self.archetypes
    }

    /// True if `entity` resolves to a live directory slot.
    pub open spec fn spec_live(&self, entity: Entity) -> bool {
        self.spec_directory().spec_live(entity)
    }

    /// The table index of a live entity.
    pub open spec fn spec_archetype_of(&self, entity: Entity) -> int {
        self.spec_directory().spec_slot(entity.spec_index() as int).spec_archetype_index()
            as int
    }

    /// The row index of a live entity within its table.
    pub open spec fn spec_row_of(&self, entity: Entity) -> int {
        self.spec_directory().spec_slot(entity.spec_index() as int).spec_index_in_archetype()
            as int
    }

    /// The archetype descriptor of a live entity.
    pub open spec fn spec_descriptor_of(&self, entity: Entity)
        -> crate::archetype_descriptor::ArchetypeDescriptor {
        self.spec_archetypes().spec_table(self.spec_archetype_of(entity)).spec_descriptor()
    }

    /// True if the live entity `entity` has the component with id `id`.
    pub open spec fn spec_has(&self, entity: Entity, id: u16) -> bool {
        self.spec_live(entity) && self.spec_descriptor_of(entity).spec_has_id(id)
    }

    /// The bytes of component `id` of the live entity `entity`.
    pub open spec fn spec_component_of(&self, entity: Entity, id: u16) -> Seq<u8> {
        self.spec_archetypes().spec_table(self.spec_archetype_of(entity)).spec_component(
            self.spec_row_of(entity), id)
    }

    /// Directory slot `i`, if live, points at an existing table row whose
    /// back-pointer is exactly the handle of slot `i`.
    pub open spec fn spec_slot_consistent(&self, i: int) -> bool {
        self.spec_directory().spec_slot(i).spec_is_valid() ==> {
            let slot = self.spec_directory().spec_slot(i);
            let t = slot.spec_archetype_index() as int;
            let r = slot.spec_index_in_archetype() as int;
            &&& t < self.spec_archetypes().spec_num_tables()
            &&& r < self.spec_archetypes().spec_table(t).spec_len()
            &&& self.spec_archetypes().spec_table(t).spec_entities()[r].spec_index() == i
            &&& self.spec_archetypes().spec_table(t).spec_entities()[r].spec_version()
                == slot.spec_version()
        }
    }

    /// The back-pointer of row `r` of table `t` names a live directory slot
    /// that points back at exactly this row.
    pub open spec fn spec_row_consistent(&self, t: int, r: int) -> bool {
        let e = self.spec_archetypes().spec_table(t).spec_entities()[r];
        &&& e.spec_index() < self.spec_directory().spec_num_slots()
        &&& self.spec_directory().spec_slot(e.spec_index() as int).spec_is_valid()
        &&& self.spec_directory().spec_slot(e.spec_index() as int).spec_version()
            == e.spec_version()
        &&& self.spec_directory().spec_slot(e.spec_index() as int).spec_archetype_index() == t
        &&& self.spec_directory().spec_slot(e.spec_index() as int).spec_index_in_archetype()
            == r
    }

    /// Engine well-formedness: both halves are well-formed and agree in
    /// both directions about where every live entity is stored.
    pub open spec fn wf(&self) -> bool {
        &&& self.spec_directory().wf()
        &&& self.spec_archetypes().wf()
        &&& forall|i: int| 0 <= i < self.spec_directory().spec_num_slots()
            ==> #[trigger] self.spec_slot_consistent(i)
        &&& forall|t: int, r: int| 0 <= t < self.spec_archetypes().spec_num_tables() && 0 <= r
            < self.spec_archetypes().spec_table(t).spec_len()
            ==> #[trigger] self.spec_row_consistent(t, r)
    }

    /// The order in which matched entities are listed: their tables in
    /// traversal order (fewer components first, ascending archetype id
    /// among equals), and rows in place order within one table.
    pub open spec fn spec_entity_order(&self, e1: Entity, e2: Entity) -> bool {
        ||| crate::archetype_registry::spec_table_order(self.spec_descriptor_of(e1),
            self.spec_descriptor_of(e2))
        ||| (self.spec_archetype_of(e1) == self.spec_archetype_of(e2)
            && self.spec_row_of(e1) < self.spec_row_of(e2))
    }

    /// True if `rows` lists, index for index, the declared-order component
    /// projections of the pairwise distinct live entities `es`: one row per
    /// entity, each byte record drawn from that entity's components.
    pub open spec fn spec_rows_project_entities(&self, group: &ComponentGroupDescriptor,
        rows: Seq<Vec<Vec<u8>>>, es: Seq<Entity>) -> bool {
        &&& es.len() == rows.len()
        &&& forall|j: int| 0 <= j < es.len() ==> #[trigger] self.spec_live(es[j])
        &&& forall|j: int| 0 <= j < es.len() ==> (#[trigger] rows[j])@.len()
            == group.spec_len()
        &&& forall|j: int, i: int| 0 <= j < es.len() && 0 <= i < group.spec_len()
            ==> (#[trigger] rows[j]@[i])@ == self.spec_component_of(es[j],
                group.spec_archetype().spec_components()[
                    group.spec_unsorted_to_sorted()[i] as int].spec_id())
        &&& forall|j1: int, j2: int| 0 <= j1 < j2 < es.len() ==> es[j1] != es[j2]
    }

    /// All live entities other than `except` stay live, keep their
    /// archetype, and keep every component value, from `pre` to `post`.
    pub open spec fn others_preserved(pre: Registry, post: Registry, except: Entity) -> bool {
        forall|e: Entity| #[trigger] pre.spec_live(e) && e != except ==> {
            &&& post.spec_live(e)
            &&& post.spec_descriptor_of(e).spec_components()
                == pre.spec_descriptor_of(e).spec_components()
            &&& post.spec_descriptor_of(e).spec_archetype_id()
                == pre.spec_descriptor_of(e).spec_archetype_id()
            &&& forall|id: u16| pre.spec_has(e, id)
                ==> #[trigger] post.spec_component_of(e, id)
                    == pre.spec_component_of(e, id)
        }
    }

    /// An empty engine with no entities and no tables.
    pub fn new() -> (r: Registry)
        ensures
            r.wf(),
            r.spec_directory().spec_num_slots() == 0,
            r.spec_archetypes().spec_num_tables() == 0,
            forall|e: Entity| !r.spec_live(e),
    {
        let r = Registry { entities: EntityRegistry::new(), archetypes: ArchetypeRegistry::new() };
        r
    }

    /// Destroys a live entity: drops its table row (swapping the last row
    /// into its place), patches the displaced entity's directory slot, and
    /// frees the directory slot. Returns false, changing nothing, on a
    /// handle that does not resolve.
    pub fn destroy_entity(&mut self, entity: Entity) -> (r: bool)
        requires
            old(self).wf(),
        ensures
            final(self).wf(),
            r == old(self).spec_live(entity),
            !r ==> *final(self) == *old(self),
            r ==> !final(self).spec_live(entity),
            forall|e2: Entity| final(self).spec_live(e2) == (old(self).spec_live(e2) && e2
                != entity),
            Registry::others_preserved(*old(self), *final(self), entity),
            // The table registry keeps its shape: no table added or
            // removed, descriptors unchanged, no table grows.
            final(self).spec_archetypes().spec_num_tables()
                == old(self).spec_archetypes().spec_num_tables(),
            forall|t: int| 0 <= t < old(self).spec_archetypes().spec_num_tables()
                ==> (#[trigger] final(self).spec_archetypes().spec_table(t))
                    .spec_descriptor()
                    == old(self).spec_archetypes().spec_table(t).spec_descriptor(),
            forall|t: int| 0 <= t < old(self).spec_archetypes().spec_num_tables()
                ==> (#[trigger] final(self).spec_archetypes().spec_table(t)).spec_len()
                    <= old(self).spec_archetypes().spec_table(t).spec_len(),
    {
        let slot = match self.entities.entity_entry(entity) {
            Some(s) => *s,
            None => {
                return false;
            },
        };
        let t: u16 = slot.archetype_index();
        let row: u32 = slot.index_in_archetype();
        proof {
            assert(old(self).spec_slot_consistent(entity.spec_index() as int));
        }
        let ghost pre = *self;
        // Drop the row; remember who was last, they may have been moved.
        let table_len: u32 = self.archetypes.table_at(t).len();
        let moved: Entity = self.archetypes.table_at(t).entity_at(table_len - 1);
        let swapped: bool = self.archetypes.table_swap_drop(t, row);
        let ghost mid = *self;
        if swapped {
            // The old last row now sits at `row`: patch its directory slot.
            proof {
                assert(pre.spec_row_consistent(t as int, table_len - 1));
                assert(moved.spec_index() != entity.spec_index()) by {
                    assert(pre.spec_row_consistent(t as int, row as int));
                }
            }
            let row_index: IndexInArchetype = IndexInArchetype::new(row).unwrap();
            let updated: bool = self.entities.update_index_in_archetype(moved, row_index);
            proof {
                assert(updated);
            }
        }
        let ghost mid2 = *self;
        let freed: bool = self.entities.destroy_entity(entity);
        proof {
            assert(freed);
            lemma_destroy_wf(pre, mid, mid2, *self, entity, t as int, row as int, moved,
                swapped);
        }
        true
    }

    /// Creates an entity holding the given components (in any declared
    /// order). On failure the components are handed back unchanged and no
    /// entity state changes.
    pub fn create_entity(&mut self, components: Vec<ComponentValue>) -> (r: Result<Entity,
        Vec<ComponentValue>>)
        requires
            old(self).wf(),
        ensures
            final(self).wf(),
            (r matches Err(c) ==> c == components),
            r.is_err() ==> *final(self) == *old(self),
            r.is_ok() ==> ({
                let e = r.unwrap();
                let descs = components@.map_values(|c: ComponentValue| c.spec_descriptor());
                &&& e.spec_is_valid()
                &&& !old(self).spec_live(e)
                &&& final(self).spec_live(e)
                &&& group_input_clean(descs)
                &&& final(self).spec_descriptor_of(e).spec_components()
                    == spec_sorted_variant(descs)
                &&& forall|i: int| 0 <= i < components@.len()
                    ==> final(self).spec_component_of(e,
                        (#[trigger] components@[i]).spec_id()) == components@[i].spec_data()
                &&& forall|i: int| 0 <= i < components@.len()
                    ==> final(self).spec_has(e, (#[trigger] components@[i]).spec_id())
                &&& forall|e2: Entity| final(self).spec_live(e2) == (old(self).spec_live(e2)
                    || e2 == e)
                &&& Registry::others_preserved(*old(self), *final(self), e)
                // The new entity sits in the last row of its table.
                &&& final(self).spec_row_of(e) + 1 == final(self).spec_archetypes()
                    .spec_table(final(self).spec_archetype_of(e)).spec_len()
                &&& final(self).spec_archetypes().spec_table(
                    final(self).spec_archetype_of(e)).spec_entities()[
                    final(self).spec_row_of(e)] == e
                // Slot allocation: append on an empty free list, else pop
                // the free-list head, reusing its stored version.
                &&& (old(self).spec_directory().spec_free_list().len() == 0 ==> {
                    &&& e.spec_index() == old(self).spec_directory().spec_num_slots()
                    &&& e.spec_version() == 0
                    &&& final(self).spec_directory().spec_num_slots()
                        == old(self).spec_directory().spec_num_slots() + 1
                })
                &&& (old(self).spec_directory().spec_free_list().len() > 0 ==> {
                    &&& e.spec_index()
                        == old(self).spec_directory().spec_free_list()[0]
                    &&& e.spec_version() == old(self).spec_directory().spec_slot(
                        e.spec_index() as int).spec_version()
                    &&& final(self).spec_directory().spec_num_slots()
                        == old(self).spec_directory().spec_num_slots()
                })
            }),
            // Tables are append-only: at most one new table, and the old
            // tables keep their descriptors and grow by at most one row.
            final(self).spec_archetypes().spec_num_tables()
                >= old(self).spec_archetypes().spec_num_tables(),
            final(self).spec_archetypes().spec_num_tables()
                <= old(self).spec_archetypes().spec_num_tables() + 1,
            forall|t: int| 0 <= t < old(self).spec_archetypes().spec_num_tables()
                ==> (#[trigger] final(self).spec_archetypes().spec_table(t))
                    .spec_descriptor()
                    == old(self).spec_archetypes().spec_table(t).spec_descriptor(),
            forall|t: int| 0 <= t < old(self).spec_archetypes().spec_num_tables()
                ==> (#[trigger] final(self).spec_archetypes().spec_table(t)).spec_len()
                    <= old(self).spec_archetypes().spec_table(t).spec_len() + 1,
            final(self).spec_archetypes().spec_num_tables()
                == old(self).spec_archetypes().spec_num_tables() + 1 ==> ({
                let descs = components@.map_values(|c: ComponentValue| c.spec_descriptor());
                &&& final(self).spec_archetypes().spec_table(
                    old(self).spec_archetypes().spec_num_tables() as int).spec_descriptor()
                    .spec_components() == spec_sorted_variant(descs)
                &&& final(self).spec_archetypes().spec_table(
                    old(self).spec_archetypes().spec_num_tables() as int).spec_len() <= 1
            }),
            ({
                let descs = components@.map_values(|c: ComponentValue| c.spec_descriptor());
                let sorted = spec_sorted_variant(descs);
                let aid = crate::archetype_descriptor::archetype_id_value(
                    sorted.map_values(|d: ComponentDescriptor| d.spec_id()));
                &&& group_input_clean(descs)
                &&& aid != 0xffffffffu32
                &&& old(self).spec_directory().spec_num_slots() < 16777215
                &&& (old(self).spec_archetypes().spec_has_table(descs.len(), aid) ==> {
                    &&& old(self).spec_archetypes().spec_table(
                        old(self).spec_archetypes().spec_table_index(descs.len(), aid))
                        .spec_descriptor().spec_components() == sorted
                    &&& old(self).spec_archetypes().spec_table(
                        old(self).spec_archetypes().spec_table_index(descs.len(), aid))
                        .spec_len() < 16777215
                })
                &&& (!old(self).spec_archetypes().spec_has_table(descs.len(), aid)
                    ==> old(self).spec_archetypes().spec_num_tables() < 65534)
            }) ==> r.is_ok(),
    {
        let ghost pre = *self;
        let ghost descs = components@.map_values(|c: ComponentValue| c.spec_descriptor());
        // Collect the component descriptors in declared order.
        let mut descriptors: Vec<ComponentDescriptor> = Vec::new();
        let mut i: usize = 0;
        while i < components.len()
            invariant
                i <= components@.len(),
                descriptors@.len() == i,
                descs == components@.map_values(|c: ComponentValue| c.spec_descriptor()),
                forall|j: int| 0 <= j < i ==> descriptors@[j] == descs[j],
            decreases components@.len() - i,
        {
            descriptors.push(*components[i].descriptor());
            i = i + 1;
        }
        proof {
            assert(descriptors@ =~= descs);
        }
        let group: ComponentGroupDescriptor = ComponentGroupDescriptor::new(
            descriptors.as_slice());
        if !group.is_valid() {
            return Err(components);
        }
        if !self.entities.can_create_new_entity() {
            return Err(components);
        }
        proof {
            use_type_invariant(&group);
            group.lemma_wf();
        }
        let group_arch = group.archetype();
        proof {
            use_type_invariant(group_arch);
            group_arch.lemma_wf();
        }
        let archetype_index: u16 = match self.archetypes.find_or_create_archetype(
            group_arch) {
            Some(v) => v,
            None => {
                return Err(components);
            },
        };
        proof {
            lemma_tables_grown(pre, *self);
            crate::archetype_registry::lemma_unique_table(&self.spec_archetypes(),
                archetype_index as int, group.spec_archetype().spec_len(),
                group.spec_archetype().spec_archetype_id().spec_value());
        }
        let ghost mid1 = *self;
        let table_len: u32 = self.archetypes.table_at(archetype_index).len();
        if table_len >= 16777215 {
            proof {
                assert(mid1.spec_archetypes().spec_table(archetype_index as int).spec_len()
                    != 0);
                assert(*self == pre);
            }
            return Err(components);
        }
        let row_index: IndexInArchetype = IndexInArchetype::new(table_len).unwrap();
        let arch_idx_val: ArchetypeIndex = ArchetypeIndex::new(archetype_index).unwrap();
        let entity: Entity = match self.entities.create_entity(row_index, arch_idx_val) {
            Some(e) => e,
            None => {
                proof {
                    assert(false);
                }
                return Err(components);
            },
        };
        let ghost mid2 = *self;
        // Reorder the declared components into canonical order.
        let n: usize = components.len();
        let mut sorted: Vec<ComponentValue> = Vec::new();
        let mut q: usize = 0;
        while q < n
            invariant
                q <= n,
                n <= 14,
                n == components@.len(),
                n == group.spec_len(),
                group.spec_is_valid(),
                group.wf(),
                sorted@.len() == q,
                descs == components@.map_values(|c: ComponentValue| c.spec_descriptor()),
                forall|j: int| 0 <= j < n ==> (#[trigger] group.spec_sorted_to_unsorted()[j])
                    < n,
                forall|j: int| 0 <= j < n ==> descs[(#[trigger] group.spec_sorted_to_unsorted()[
                    j]) as int] == group.spec_archetype().spec_components()[j],
                forall|j: int| 0 <= j < q ==> (#[trigger] sorted@[j]).spec_descriptor()
                    == group.spec_archetype().spec_components()[j],
                forall|j: int| 0 <= j < q ==> (#[trigger] sorted@[j]).spec_data()
                    == components@[group.spec_sorted_to_unsorted()[j] as int].spec_data(),
            decreases n - q,
        {
            let u: u8 = group.sorted_to_unsorted(q as u8);
            let cv: ComponentValue = components[u as usize].clone();
            let ghost sorted0 = sorted@;
            sorted.push(cv);
            proof {
                assert(descs[u as int] == components@[u as int].spec_descriptor());
                assert forall|j: int| 0 <= j < q + 1 implies {
                    &&& (#[trigger] sorted@[j]).spec_descriptor()
                        == group.spec_archetype().spec_components()[j]
                    &&& sorted@[j].spec_data() == components@[
                        group.spec_sorted_to_unsorted()[j] as int].spec_data()
                } by {
                    if j < q {
                        assert(sorted@[j] == sorted0[j]);
                    } else {
                        assert(sorted@[j] == cv);
                        assert(u as int == (group.spec_sorted_to_unsorted()[q as int]) as int);
                        assert(descs[(group.spec_sorted_to_unsorted()[q as int]) as int]
                            == group.spec_archetype().spec_components()[q as int]);
                        assert(cv.spec_descriptor()
                            == components@[u as int].spec_descriptor());
                        assert(cv.spec_data() == components@[u as int].spec_data());
                    }
                }
            }
            q = q + 1;
        }
        let row: u32 = self.archetypes.table_push_entity(archetype_index, entity, sorted);
        proof {
            lemma_create_wf(pre, mid1, mid2, *self, entity, archetype_index as int,
                table_len as int, group, components@);
        }
        Ok(entity)
    }

    /// True if `entity` is live and its archetype has the component `id`.
    pub fn has_component(&self, entity: Entity, component: ComponentTypeId) -> (r: bool)
        requires
            self.wf(),
        ensures
            r == self.spec_has(entity, component.spec_value()),
    {
        let slot = match self.entities.entity_entry(entity) {
            Some(s) => *s,
            None => {
                return false;
            },
        };
        proof {
            assert(self.spec_slot_consistent(entity.spec_index() as int));
        }
        let table = self.archetypes.table_at(slot.archetype_index());
        table.descriptor().has_component(component)
    }

    /// True if `entity` is live and its archetype holds every component of
    /// the (valid) group.
    pub fn has_components(&self, entity: Entity, group: &ComponentGroupDescriptor) -> (r: bool)
        requires
            self.wf(),
        ensures
            r == (self.spec_live(entity) && group.spec_is_valid()
                && self.spec_descriptor_of(entity).spec_contains_subset(
                    &group.spec_archetype())),
    {
        if !group.is_valid() {
            return false;
        }
        let slot = match self.entities.entity_entry(entity) {
            Some(s) => *s,
            None => {
                return false;
            },
        };
        proof {
            assert(self.spec_slot_consistent(entity.spec_index() as int));
        }
        let table = self.archetypes.table_at(slot.archetype_index());
        table.descriptor().contains_subset(group.archetype())
    }

    /// The bytes of component `id` of `entity`, or `None` if the handle
    /// does not resolve or the entity lacks the component.
    pub fn get_component(&self, entity: Entity, component: ComponentTypeId) -> (r: Option<Vec<
        u8>>)
        requires
            self.wf(),
        ensures
            r.is_some() == self.spec_has(entity, component.spec_value()),
            r.is_some() ==> r.unwrap()@ == self.spec_component_of(entity,
                component.spec_value()),
    {
        let slot = match self.entities.entity_entry(entity) {
            Some(s) => *s,
            None => {
                return None;
            },
        };
        proof {
            assert(self.spec_slot_consistent(entity.spec_index() as int));
        }
        let table = self.archetypes.table_at(slot.archetype_index());
        table.get_component(slot.index_in_archetype(), component)
    }

    /// The components of the (valid) group on `entity`, as byte records in
    /// the group's declared order, or `None` if the handle does not resolve
    /// or the entity lacks one of them.
    pub fn get_components(&self, entity: Entity, group: &ComponentGroupDescriptor) -> (r:
        Option<Vec<Vec<u8>>>)
        requires
            self.wf(),
        ensures
            r.is_some() == (self.spec_live(entity) && group.spec_is_valid()
                && self.spec_descriptor_of(entity).spec_contains_subset(
                    &group.spec_archetype())),
            r.is_some() ==> ({
                &&& r.unwrap()@.len() == group.spec_len()
                &&& forall|i: int| 0 <= i < group.spec_len()
                    ==> (#[trigger] r.unwrap()@[i])@ == self.spec_component_of(entity,
                        group.spec_archetype().spec_components()[
                            group.spec_unsorted_to_sorted()[i] as int].spec_id())
            }),
    {
        if !group.is_valid() {
            return None;
        }
        let slot = match self.entities.entity_entry(entity) {
            Some(s) => *s,
            None => {
                return None;
            },
        };
        proof {
            assert(self.spec_slot_consistent(entity.spec_index() as int));
            use_type_invariant(group);
            group.lemma_wf();
        }
        let group_arch = group.archetype();
        proof {
            use_type_invariant(group_arch);
            group_arch.lemma_wf();
        }
        let table = self.archetypes.table_at(slot.archetype_index());
        if !table.descriptor().contains_subset(group.archetype()) {
            return None;
        }
        let n: usize = group.len() as usize;
        let mut out: Vec<Vec<u8>> = Vec::new();
        let mut i: usize = 0;
        while i < n
            invariant
                i <= n,
                n <= 14,
                n == group.spec_len(),
                group.wf(),
                group.spec_is_valid(),
                self.wf(),
                self.spec_live(entity),
                self.spec_slot_consistent(entity.spec_index() as int),
                table == self.spec_archetypes().spec_table(self.spec_archetype_of(entity)),
                table.wf(),
                self.spec_row_of(entity) < table.spec_len(),
                table.spec_descriptor().spec_contains_subset(&group.spec_archetype()),
                out@.len() == i,
                forall|j: int| 0 <= j < i ==> (#[trigger] out@[j])@
                    == self.spec_component_of(entity,
                        group.spec_archetype().spec_components()[
                            group.spec_unsorted_to_sorted()[j] as int].spec_id()),
            decreases n - i,
        {
            let sidx: u8 = group.unsorted_to_sorted(i as u8);
            let id: ComponentTypeId = group.archetype().components()[sidx as usize]
                .component_type_id();
            proof {
                assert(group.spec_archetype().spec_components()[sidx as int].spec_id()
                    == id.spec_value());
            }
            let slot2 = self.entities.entity_entry(entity).unwrap();
            let bytes: Vec<u8> = match table.get_component(slot2.index_in_archetype(), id) {
                Some(b) => b,
                None => {
                    proof {
                        assert(table.spec_descriptor().spec_has_id(id.spec_value()));
                        assert(false);
                    }
                    return None;
                },
            };
            let ghost out0 = out@;
            out.push(bytes);
            proof {
                assert forall|j: int| 0 <= j < i + 1 implies (#[trigger] out@[j])@
                    == self.spec_component_of(entity,
                        group.spec_archetype().spec_components()[
                            group.spec_unsorted_to_sorted()[j] as int].spec_id()) by {
                    if j < i {
                        assert(out@[j] == out0[j]);
                    } else {
                        assert(out@[j] == bytes);
                        assert(sidx as int == (group.spec_unsorted_to_sorted()[j]) as int);
                        assert(bytes@ == self.spec_archetypes().spec_table(
                            self.spec_archetype_of(entity)).spec_component(
                            self.spec_row_of(entity),
                            group.spec_archetype().spec_components()[
                                sidx as int].spec_id()));
                    }
                }
            }
            i = i + 1;
        }
        Some(out)
    }

    /// Adds a component to a live entity by moving its row to the neighbor
    /// archetype that also holds the new component. On failure the
    /// component is handed back unchanged and nothing changes.
    pub fn add_component(&mut self, entity: Entity, component: ComponentValue) -> (r: Result<
        (), ComponentValue>)
        requires
            old(self).wf(),
        ensures
            final(self).wf(),
            (r matches Err(c) ==> c == component),
            r.is_err() ==> *final(self) == *old(self),
            r.is_ok() ==> ({
                &&& old(self).spec_live(entity)
                &&& final(self).spec_live(entity)
                &&& old(self).spec_descriptor_of(entity).spec_can_add(
                    component.spec_descriptor())
                &&& final(self).spec_descriptor_of(entity).spec_components()
                    == old(self).spec_descriptor_of(entity).spec_with_added(
                        component.spec_descriptor())
                &&& final(self).spec_component_of(entity, component.spec_descriptor()
                    .spec_id()) == component.spec_data()
                &&& final(self).spec_has(entity, component.spec_descriptor().spec_id())
                &&& forall|id: u16| old(self).spec_has(entity, id)
                    ==> #[trigger] final(self).spec_component_of(entity, id)
                        == old(self).spec_component_of(entity, id)
                            && final(self).spec_has(entity, id)
                &&& forall|e2: Entity| final(self).spec_live(e2) == old(self).spec_live(e2)
                &&& Registry::others_preserved(*old(self), *final(self), entity)
            }),
            // Tables are append-only: at most one new table (the neighbor
            // archetype), and the old tables keep their descriptors and
            // grow by at most one row.
            final(self).spec_archetypes().spec_num_tables()
                >= old(self).spec_archetypes().spec_num_tables(),
            final(self).spec_archetypes().spec_num_tables()
                <= old(self).spec_archetypes().spec_num_tables() + 1,
            forall|t: int| 0 <= t < old(self).spec_archetypes().spec_num_tables()
                ==> (#[trigger] final(self).spec_archetypes().spec_table(t))
                    .spec_descriptor()
                    == old(self).spec_archetypes().spec_table(t).spec_descriptor(),
            forall|t: int| 0 <= t < old(self).spec_archetypes().spec_num_tables()
                ==> (#[trigger] final(self).spec_archetypes().spec_table(t)).spec_len()
                    <= old(self).spec_archetypes().spec_table(t).spec_len() + 1,
            final(self).spec_archetypes().spec_num_tables()
                == old(self).spec_archetypes().spec_num_tables() + 1 ==> ({
                &&& r.is_ok()
                &&& final(self).spec_archetypes().spec_table(
                    old(self).spec_archetypes().spec_num_tables() as int).spec_descriptor()
                    .spec_components() == old(self).spec_descriptor_of(entity)
                    .spec_with_added(component.spec_descriptor())
                &&& final(self).spec_archetypes().spec_table(
                    old(self).spec_archetypes().spec_num_tables() as int).spec_len() <= 1
            }),
            ({
                let dst = old(self).spec_descriptor_of(entity).spec_with_added(
                    component.spec_descriptor());
                let dlen = dst.len();
                let did = crate::archetype_descriptor::archetype_id_value(
                    dst.map_values(|d: ComponentDescriptor| d.spec_id()));
                &&& old(self).spec_live(entity)
                &&& old(self).spec_descriptor_of(entity).spec_can_add(
                    component.spec_descriptor())
                &&& (old(self).spec_archetypes().spec_has_table(dlen, did) ==> {
                    &&& old(self).spec_archetypes().spec_table(
                        old(self).spec_archetypes().spec_table_index(dlen, did))
                        .spec_descriptor().spec_components() == dst
                    &&& old(self).spec_archetypes().spec_table(
                        old(self).spec_archetypes().spec_table_index(dlen, did)).spec_len()
                        < 16777215
                })
                &&& (!old(self).spec_archetypes().spec_has_table(dlen, did)
                    ==> old(self).spec_archetypes().spec_num_tables() < 65534)
            }) ==> r.is_ok(),
    {
        let slot = match self.entities.entity_entry(entity) {
            Some(s) => *s,
            None => {
                return Err(component);
            },
        };
        let t: u16 = slot.archetype_index();
        let row: u32 = slot.index_in_archetype();
        proof {
            assert(old(self).spec_slot_consistent(entity.spec_index() as int));
            use_type_invariant(&component);
            component.lemma_wf();
        }
        let ghost pre = *self;
        let ghost scomps = pre.spec_descriptor_of(entity).spec_components();
        let ghost cid = component.spec_descriptor().spec_id();
        let dst_desc = match self.archetypes.table_at(t).descriptor().add_component(
            component.descriptor()) {
            Some(d) => d,
            None => {
                return Err(component);
            },
        };
        proof {
            crate::archetype_descriptor::lemma_insert_pos_bounds(scomps, cid);
            let ip = crate::archetype_descriptor::spec_insert_pos(scomps, cid);
            assert(dst_desc.spec_components()[ip] == component.spec_descriptor());
            assert(dst_desc.spec_has_id(cid));
            assert(dst_desc.spec_components().len() == scomps.len() + 1);
            crate::archetype_descriptor::lemma_find_pos_matches(dst_desc.spec_components(),
                cid, ip);
        }
        let dst: u16 = match self.archetypes.find_or_create_archetype(&dst_desc) {
            Some(d) => d,
            None => {
                proof {
                    assert(*self == pre);
                }
                return Err(component);
            },
        };
        proof {
            lemma_tables_grown(pre, *self);
            assert(self.spec_archetypes().spec_table(t as int)
                == pre.spec_archetypes().spec_table(t as int));
            if dst as int == t as int {
                assert(self.spec_archetypes().spec_table(dst as int).spec_descriptor()
                    .spec_components().len() == dst_desc.spec_components().len());
                assert(false);
            }
        }
        let ghost g = *self;
        let dst_len: u32 = self.archetypes.table_at(dst).len();
        if dst_len >= 16777215 {
            proof {
                // A full destination can only be a table that already existed.
                crate::archetype_registry::lemma_unique_table(&g.spec_archetypes(),
                    dst as int, dst_desc.spec_len(),
                    dst_desc.spec_archetype_id().spec_value());
                assert(g.spec_archetypes().spec_table(dst as int).spec_len() != 0);
                assert(*self == pre);
            }
            return Err(component);
        }
        proof {
            crate::archetype_registry::lemma_unique_table(&g.spec_archetypes(),
                dst as int, dst_desc.spec_len(),
                dst_desc.spec_archetype_id().spec_value());
        }
        // Find where the new component sits in the destination archetype.
        let p: usize = match self.archetypes.table_at(dst).find_column(
            component.component_type_id()) {
            Some(p) => p,
            None => {
                proof {
                    assert(false);
                }
                return Err(component);
            },
        };
        proof {
            assert(p == crate::archetype_descriptor::spec_insert_pos(scomps, cid));
            assert(p <= scomps.len());
        }
        let src_len: u32 = self.archetypes.table_at(t).len();
        let moved: Entity = self.archetypes.table_at(t).entity_at(src_len - 1);
        let swapped: bool = self.archetypes.table_swap_to_last(t, row);
        if swapped {
            proof {
                assert(g.spec_row_consistent(t as int, src_len - 1));
                assert(g.spec_row_consistent(t as int, row as int));
                assert(moved.spec_index() != entity.spec_index());
            }
            let row_index: IndexInArchetype = IndexInArchetype::new(row).unwrap();
            let updated: bool = self.entities.update_index_in_archetype(moved, row_index);
            proof {
                assert(updated);
            }
        }
        let ghost m = *self;
        let (popped, comps) = self.archetypes.table_pop_row(t);
        proof {
            assert(g.spec_row_consistent(t as int, row as int));
            crate::entity::lemma_entity_handle_determined(popped, entity);
        }
        let ghost p3 = *self;
        let mut merged: Vec<ComponentValue> = comps;
        let ghost comps_view = merged@;
        merged.insert(p, component);
        proof {
            // The merged values line up with the destination's components.
            crate::archetype_descriptor::lemma_insert_pos_bounds(
                pre.spec_descriptor_of(entity).spec_components(),
                component.spec_descriptor().spec_id());
            assert(merged@ =~= comps_view.insert(p as int, component));
            lemma_merged_matches(pre.spec_descriptor_of(entity).spec_components(),
                dst_desc.spec_components(), comps_view, merged@, component, p as int);
        }
        let new_row: u32 = self.archetypes.table_push_entity(dst, popped, merged);
        let ghost p4 = *self;
        let row_index: IndexInArchetype = IndexInArchetype::new(new_row).unwrap();
        let arch_idx_val: ArchetypeIndex = ArchetypeIndex::new(dst).unwrap();
        let updated: bool = self.entities.update_location(entity, arch_idx_val, row_index);
        proof {
            assert(updated);
            lemma_move_entity_wf(pre, g, m, p3, p4, *self, entity, t as int, row as int,
                dst as int, moved, swapped, merged@);
            // The moved entity's own components.
            assert(pre.spec_archetypes().spec_table(t as int).wf());
            pre.spec_descriptor_of(entity).lemma_wf();
            assert(g.spec_archetypes().spec_table(dst as int).wf());
            g.spec_archetypes().spec_table(dst as int).spec_descriptor().lemma_wf();
            let dcomps = dst_desc.spec_components();
            let srclen = pre.spec_archetypes().spec_table(t as int).spec_len();
            assert(self.spec_descriptor_of(entity).spec_components() == dcomps);
            assert forall|id: u16| pre.spec_has(entity, id)
                implies #[trigger] self.spec_component_of(entity, id)
                    == pre.spec_component_of(entity, id) && self.spec_has(entity, id) by {
                assert(crate::archetype_descriptor::ids_contain(scomps, id));
                assert(id != cid) by {
                    if id == cid {
                        assert(pre.spec_descriptor_of(entity).spec_has_id(cid));
                    }
                }
                lemma_added_component_lookup(scomps, dcomps, comps_view, merged@,
                    component, p as int, id);
                let fps = crate::archetype_descriptor::spec_find_pos(scomps, id);
                let fpd = crate::archetype_descriptor::spec_find_pos(dcomps, id);
                crate::archetype_descriptor::lemma_find_pos_properties(scomps, id);
                assert(comps_view[fps].spec_data()
                    == m.spec_archetypes().spec_table(t as int).spec_column(fps).last());
                assert(m.spec_archetypes().spec_table(t as int).spec_column(fps)[
                    srclen - 1] == pre.spec_archetypes().spec_table(t as int).spec_column(
                    fps)[row as int]);
                assert(pre.spec_component_of(entity, id)
                    == pre.spec_archetypes().spec_table(t as int).spec_column(fps)[
                        row as int]);
                assert(self.spec_component_of(entity, id) == merged@[fpd].spec_data());
            }
            assert(self.spec_component_of(entity, cid) == component.spec_data()) by {
                assert(dst_desc.spec_has_id(cid));
                assert(crate::archetype_descriptor::spec_find_pos(dcomps, cid)
                    == p as int);
                assert(merged@[p as int] == component);
            }
        }
        Ok(())
    }

    /// Removes a component from a live entity by moving its row to the
    /// neighbor archetype without that component, returning the removed
    /// bytes. On failure nothing changes.
    pub fn remove_component(&mut self, entity: Entity, component: ComponentTypeId) -> (r:
        Result<Vec<u8>, ()>)
        requires
            old(self).wf(),
        ensures
            final(self).wf(),
            r.is_err() ==> *final(self) == *old(self),
            r.is_ok() ==> ({
                &&& old(self).spec_live(entity)
                &&& final(self).spec_live(entity)
                &&& old(self).spec_descriptor_of(entity).spec_can_remove(
                    component.spec_value())
                &&& r.unwrap()@ == old(self).spec_component_of(entity,
                    component.spec_value())
                &&& final(self).spec_descriptor_of(entity).spec_components()
                    == old(self).spec_descriptor_of(entity).spec_with_removed(
                        component.spec_value())
                &&& !final(self).spec_has(entity, component.spec_value())
                &&& forall|id: u16| old(self).spec_has(entity, id) && id
                    != component.spec_value()
                    ==> #[trigger] final(self).spec_component_of(entity, id)
                        == old(self).spec_component_of(entity, id)
                            && final(self).spec_has(entity, id)
                &&& forall|e2: Entity| final(self).spec_live(e2) == old(self).spec_live(e2)
                &&& Registry::others_preserved(*old(self), *final(self), entity)
            }),
            // Tables are append-only: at most one new table (the neighbor
            // archetype), and the old tables keep their descriptors and
            // grow by at most one row.
            final(self).spec_archetypes().spec_num_tables()
                >= old(self).spec_archetypes().spec_num_tables(),
            final(self).spec_archetypes().spec_num_tables()
                <= old(self).spec_archetypes().spec_num_tables() + 1,
            forall|t: int| 0 <= t < old(self).spec_archetypes().spec_num_tables()
                ==> (#[trigger] final(self).spec_archetypes().spec_table(t))
                    .spec_descriptor()
                    == old(self).spec_archetypes().spec_table(t).spec_descriptor(),
            forall|t: int| 0 <= t < old(self).spec_archetypes().spec_num_tables()
                ==> (#[trigger] final(self).spec_archetypes().spec_table(t)).spec_len()
                    <= old(self).spec_archetypes().spec_table(t).spec_len() + 1,
            final(self).spec_archetypes().spec_num_tables()
                == old(self).spec_archetypes().spec_num_tables() + 1 ==> ({
                &&& r.is_ok()
                &&& final(self).spec_archetypes().spec_table(
                    old(self).spec_archetypes().spec_num_tables() as int).spec_descriptor()
                    .spec_components() == old(self).spec_descriptor_of(entity)
                    .spec_with_removed(component.spec_value())
                &&& final(self).spec_archetypes().spec_table(
                    old(self).spec_archetypes().spec_num_tables() as int).spec_len() <= 1
            }),
            ({
                let dst = old(self).spec_descriptor_of(entity).spec_with_removed(
                    component.spec_value());
                let dlen = dst.len();
                let did = crate::archetype_descriptor::archetype_id_value(
                    dst.map_values(|d: ComponentDescriptor| d.spec_id()));
                &&& old(self).spec_live(entity)
                &&& old(self).spec_descriptor_of(entity).spec_can_remove(
                    component.spec_value())
                &&& (old(self).spec_archetypes().spec_has_table(dlen, did) ==> {
                    &&& old(self).spec_archetypes().spec_table(
                        old(self).spec_archetypes().spec_table_index(dlen, did))
                        .spec_descriptor().spec_components() == dst
                    &&& old(self).spec_archetypes().spec_table(
                        old(self).spec_archetypes().spec_table_index(dlen, did)).spec_len()
                        < 16777215
                })
                &&& (!old(self).spec_archetypes().spec_has_table(dlen, did)
                    ==> old(self).spec_archetypes().spec_num_tables() < 65534)
            }) ==> r.is_ok(),
    {
        let slot = match self.entities.entity_entry(entity) {
            Some(s) => *s,
            None => {
                return Err(());
            },
        };
        let t: u16 = slot.archetype_index();
        let row: u32 = slot.index_in_archetype();
        proof {
            assert(old(self).spec_slot_consistent(entity.spec_index() as int));
        }
        let ghost pre = *self;
        let dst_desc = match self.archetypes.table_at(t).descriptor().remove_component(
            component) {
            Some(d) => d,
            None => {
                return Err(());
            },
        };
        // The position of the removed component in the source archetype.
        let p: usize = match self.archetypes.table_at(t).find_column(component) {
            Some(p) => p,
            None => {
                proof {
                    assert(pre.spec_descriptor_of(entity).spec_has_id(
                        component.spec_value()));
                    assert(false);
                }
                return Err(());
            },
        };
        let dst: u16 = match self.archetypes.find_or_create_archetype(&dst_desc) {
            Some(d) => d,
            None => {
                proof {
                    assert(*self == pre);
                }
                return Err(());
            },
        };
        proof {
            lemma_tables_grown(pre, *self);
            assert(self.spec_archetypes().spec_table(t as int)
                == pre.spec_archetypes().spec_table(t as int));
            if dst as int == t as int {
                assert(self.spec_archetypes().spec_table(dst as int).spec_descriptor()
                    .spec_components().len() == dst_desc.spec_components().len());
                assert(false);
            }
        }
        let ghost g = *self;
        let dst_len: u32 = self.archetypes.table_at(dst).len();
        if dst_len >= 16777215 {
            proof {
                crate::archetype_registry::lemma_unique_table(&g.spec_archetypes(),
                    dst as int, dst_desc.spec_len(),
                    dst_desc.spec_archetype_id().spec_value());
                assert(g.spec_archetypes().spec_table(dst as int).spec_len() != 0);
                assert(*self == pre);
            }
            return Err(());
        }
        proof {
            crate::archetype_registry::lemma_unique_table(&g.spec_archetypes(),
                dst as int, dst_desc.spec_len(),
                dst_desc.spec_archetype_id().spec_value());
        }
        let src_len: u32 = self.archetypes.table_at(t).len();
        let moved: Entity = self.archetypes.table_at(t).entity_at(src_len - 1);
        let swapped: bool = self.archetypes.table_swap_to_last(t, row);
        if swapped {
            proof {
                assert(g.spec_row_consistent(t as int, src_len - 1));
                assert(g.spec_row_consistent(t as int, row as int));
                assert(moved.spec_index() != entity.spec_index());
            }
            let row_index: IndexInArchetype = IndexInArchetype::new(row).unwrap();
            let updated: bool = self.entities.update_index_in_archetype(moved, row_index);
            proof {
                assert(updated);
            }
        }
        let ghost m = *self;
        let (popped, comps) = self.archetypes.table_pop_row(t);
        proof {
            assert(g.spec_row_consistent(t as int, row as int));
            crate::entity::lemma_entity_handle_determined(popped, entity);
        }
        let ghost p3 = *self;
        let mut merged: Vec<ComponentValue> = comps;
        let ghost comps_view = merged@;
        let removed: ComponentValue = merged.remove(p);
        proof {
            assert(merged@ =~= comps_view.remove(p as int));
            lemma_removed_matches(pre.spec_descriptor_of(entity).spec_components(),
                dst_desc.spec_components(), comps_view, merged@, component.spec_value(),
                p as int);
        }
        let new_row: u32 = self.archetypes.table_push_entity(dst, popped, merged);
        let ghost p4 = *self;
        let row_index: IndexInArchetype = IndexInArchetype::new(new_row).unwrap();
        let arch_idx_val: ArchetypeIndex = ArchetypeIndex::new(dst).unwrap();
        let updated: bool = self.entities.update_location(entity, arch_idx_val, row_index);
        proof {
            assert(updated);
            lemma_move_entity_wf(pre, g, m, p3, p4, *self, entity, t as int, row as int,
                dst as int, moved, swapped, merged@);
            assert(pre.spec_archetypes().spec_table(t as int).wf());
            pre.spec_descriptor_of(entity).lemma_wf();
            assert(g.spec_archetypes().spec_table(dst as int).wf());
            g.spec_archetypes().spec_table(dst as int).spec_descriptor().lemma_wf();
            let scomps = pre.spec_descriptor_of(entity).spec_components();
            let dcomps = dst_desc.spec_components();
            let srclen = pre.spec_archetypes().spec_table(t as int).spec_len();
            assert(self.spec_descriptor_of(entity).spec_components() == dcomps);
            assert(removed.spec_data() == pre.spec_component_of(entity,
                component.spec_value())) by {
                assert(removed == comps_view[p as int]);
                assert(comps_view[p as int].spec_data()
                    == m.spec_archetypes().spec_table(t as int).spec_column(
                        p as int).last());
                assert(m.spec_archetypes().spec_table(t as int).spec_column(p as int)[
                    srclen - 1] == pre.spec_archetypes().spec_table(t as int).spec_column(
                    p as int)[row as int]);
            }
            assert(!self.spec_has(entity, component.spec_value())) by {
                if self.spec_descriptor_of(entity).spec_has_id(component.spec_value()) {
                    lemma_removed_no_id(scomps, dcomps, p as int, component.spec_value());
                }
            }
            assert forall|id: u16| pre.spec_has(entity, id) && id != component.spec_value()
                implies #[trigger] self.spec_component_of(entity, id)
                    == pre.spec_component_of(entity, id) && self.spec_has(entity, id) by {
                lemma_removed_component_lookup(scomps, dcomps, comps_view, merged@,
                    p as int, component.spec_value(), id);
                let fps = crate::archetype_descriptor::spec_find_pos(scomps, id);
                let fpd = crate::archetype_descriptor::spec_find_pos(dcomps, id);
                crate::archetype_descriptor::lemma_find_pos_properties(scomps, id);
                assert(comps_view[fps].spec_data()
                    == m.spec_archetypes().spec_table(t as int).spec_column(fps).last());
                assert(m.spec_archetypes().spec_table(t as int).spec_column(fps)[
                    srclen - 1] == pre.spec_archetypes().spec_table(t as int).spec_column(
                    fps)[row as int]);
                assert(pre.spec_component_of(entity, id)
                    == pre.spec_archetypes().spec_table(t as int).spec_column(fps)[
                        row as int]);
                assert(self.spec_component_of(entity, id) == merged@[fpd].spec_data());
            }
        }
        Ok(removed.into_data())
    }

    /// Replaces one existing component value of a live entity. Returns
    /// false, changing nothing observable, if the handle does not resolve,
    /// the entity lacks the component, or the value's descriptor does not
    /// match the archetype's.
    pub fn set_component(&mut self, entity: Entity, value: ComponentValue) -> (r: bool)
        requires
            old(self).wf(),
        ensures
            final(self).wf(),
            r == (old(self).spec_has(entity, value.spec_descriptor().spec_id())
                && old(self).spec_descriptor_of(entity).spec_components()[
                    crate::archetype_descriptor::spec_find_pos(
                        old(self).spec_descriptor_of(entity).spec_components(),
                        value.spec_descriptor().spec_id())] == value.spec_descriptor()),
            forall|e2: Entity| final(self).spec_live(e2) == old(self).spec_live(e2),
            r ==> final(self).spec_component_of(entity, value.spec_descriptor().spec_id())
                == value.spec_data(),
            r ==> forall|id: u16| old(self).spec_has(entity, id) && id
                != value.spec_descriptor().spec_id()
                ==> #[trigger] final(self).spec_component_of(entity, id)
                    == old(self).spec_component_of(entity, id),
            r ==> final(self).spec_descriptor_of(entity).spec_components()
                == old(self).spec_descriptor_of(entity).spec_components(),
            Registry::others_preserved(*old(self), *final(self), entity),
            !r ==> Registry::others_preserved(*old(self), *final(self),
                Entity::spec_invalid()),
            final(self).spec_archetypes().spec_num_tables()
                == old(self).spec_archetypes().spec_num_tables(),
            forall|t: int| 0 <= t < old(self).spec_archetypes().spec_num_tables()
                ==> (#[trigger] final(self).spec_archetypes().spec_table(t))
                    .spec_descriptor()
                    == old(self).spec_archetypes().spec_table(t).spec_descriptor(),
            forall|t: int| 0 <= t < old(self).spec_archetypes().spec_num_tables()
                ==> (#[trigger] final(self).spec_archetypes().spec_table(t))
                    .spec_entities()
                    == old(self).spec_archetypes().spec_table(t).spec_entities(),
            final(self).spec_directory() == old(self).spec_directory(),
    {
        let slot = match self.entities.entity_entry(entity) {
            Some(s) => *s,
            None => {
                return false;
            },
        };
        let t: u16 = slot.archetype_index();
        let row: u32 = slot.index_in_archetype();
        proof {
            assert(old(self).spec_slot_consistent(entity.spec_index() as int));
        }
        let ghost pre = *self;
        let r: bool = self.archetypes.table_write_component(t, row, value);
        proof {
            lemma_write_wf(pre, *self, t as int);
            if r {
                let k = crate::archetype_descriptor::spec_find_pos(
                    pre.spec_descriptor_of(entity).spec_components(),
                    value.spec_descriptor().spec_id());
                assert(pre.spec_descriptor_of(entity)
                    == pre.spec_archetypes().spec_table(t as int).spec_descriptor());
                crate::archetype_descriptor::lemma_find_pos_properties(
                    pre.spec_descriptor_of(entity).spec_components(),
                    value.spec_descriptor().spec_id());
                assert(self.spec_archetypes().spec_table(t as int).spec_column(k)
                    == pre.spec_archetypes().spec_table(t as int).spec_column(k).update(
                        row as int, value.spec_data()));
                assert(pre.spec_archetypes().spec_table(t as int).wf());
                assert(pre.spec_archetypes().spec_table(t as int).spec_column(k).len()
                    == pre.spec_archetypes().spec_table(t as int).spec_len());
                assert(self.spec_archetypes().spec_table(t as int).spec_column(k)[row as int]
                    == value.spec_data());
                assert forall|id: u16| pre.spec_has(entity, id) && id
                    != value.spec_descriptor().spec_id()
                    implies #[trigger] self.spec_component_of(entity, id)
                        == pre.spec_component_of(entity, id) by {
                    let k2 = crate::archetype_descriptor::spec_find_pos(
                        pre.spec_descriptor_of(entity).spec_components(), id);
                    crate::archetype_descriptor::lemma_find_pos_properties(
                        pre.spec_descriptor_of(entity).spec_components(), id);
                    assert(pre.spec_archetypes().spec_table(t as int).wf());
                    pre.spec_descriptor_of(entity).lemma_wf();
                    assert(k2 != k) by {
                        crate::archetype_descriptor::lemma_find_pos_properties(
                            pre.spec_descriptor_of(entity).spec_components(),
                            value.spec_descriptor().spec_id());
                    }
                    assert(self.spec_archetypes().spec_table(t as int).spec_column(k2)
                        == pre.spec_archetypes().spec_table(t as int).spec_column(k2));
                }
            }
            // Other entities never share a cell with this entity's row.
            assert forall|e2: Entity| #[trigger] pre.spec_live(e2) && e2 != entity implies {
                &&& self.spec_live(e2)
                &&& self.spec_descriptor_of(e2).spec_components()
                    == pre.spec_descriptor_of(e2).spec_components()
                &&& self.spec_descriptor_of(e2).spec_archetype_id()
                    == pre.spec_descriptor_of(e2).spec_archetype_id()
                &&& forall|id: u16| pre.spec_has(e2, id)
                    ==> #[trigger] self.spec_component_of(e2, id)
                        == pre.spec_component_of(e2, id)
            } by {
                assert(pre.spec_slot_consistent(e2.spec_index() as int));
                let t2 = pre.spec_archetype_of(e2);
                let r2 = pre.spec_row_of(e2);
                assert forall|id: u16| pre.spec_has(e2, id)
                    implies #[trigger] self.spec_component_of(e2, id)
                    == pre.spec_component_of(e2, id) by {
                    let k2 = crate::archetype_descriptor::spec_find_pos(
                        pre.spec_descriptor_of(e2).spec_components(), id);
                    crate::archetype_descriptor::lemma_find_pos_properties(
                        pre.spec_descriptor_of(e2).spec_components(), id);
                    if t2 == t as int {
                        if r {
                            assert(pre.spec_row_consistent(t as int, r2));
                            assert(pre.spec_row_consistent(t as int, row as int));
                            assert(r2 != row) by {
                                if r2 == row {
                                    crate::entity::lemma_entity_handle_determined(e2,
                                        entity);
                                }
                            }
                            let kw = crate::archetype_descriptor::spec_find_pos(
                                pre.spec_descriptor_of(entity).spec_components(),
                                value.spec_descriptor().spec_id());
                            if k2 == kw {
                                crate::archetype_descriptor::lemma_find_pos_properties(
                                    pre.spec_descriptor_of(entity).spec_components(),
                                    value.spec_descriptor().spec_id());
                                assert(pre.spec_archetypes().spec_table(t as int).wf());
                                assert(pre.spec_archetypes().spec_table(t as int)
                                    .spec_column(kw).len()
                                    == pre.spec_archetypes().spec_table(t as int)
                                        .spec_len());
                                assert(self.spec_archetypes().spec_table(t as int)
                                    .spec_column(k2)[r2]
                                    == pre.spec_archetypes().spec_table(t as int)
                                        .spec_column(k2)[r2]);
                            } else {
                                assert(self.spec_archetypes().spec_table(t as int)
                                    .spec_column(k2)
                                    == pre.spec_archetypes().spec_table(t as int)
                                        .spec_column(k2));
                            }
                        } else {
                            assert(self.spec_archetypes().spec_table(t as int)
                                .spec_column(k2)
                                == pre.spec_archetypes().spec_table(t as int)
                                    .spec_column(k2));
                        }
                    } else {
                        assert(self.spec_archetypes().spec_table(t2)
                            == pre.spec_archetypes().spec_table(t2));
                    }
                }
            }
        }
        r
    }

    /// Removes a live entity whose archetype is exactly the group's,
    /// returning its components as byte records in the group's declared
    /// order. Returns `None`, changing nothing, if the handle does not
    /// resolve or the archetype differs from the group's.
    pub fn remove_entity(&mut self, entity: Entity, group: &ComponentGroupDescriptor) -> (r:
        Option<Vec<Vec<u8>>>)
        requires
            old(self).wf(),
        ensures
            final(self).wf(),
            r.is_some() == (old(self).spec_live(entity) && group.spec_is_valid()
                && old(self).spec_descriptor_of(entity).spec_components()
                    == group.spec_archetype().spec_components()
                && old(self).spec_descriptor_of(entity).spec_archetype_id()
                    == group.spec_archetype().spec_archetype_id()),
            r.is_none() ==> *final(self) == *old(self),
            r.is_some() ==> ({
                &&& r.unwrap()@.len() == group.spec_len()
                &&& forall|i: int| 0 <= i < group.spec_len()
                    ==> (#[trigger] r.unwrap()@[i])@ == old(self).spec_component_of(entity,
                        group.spec_archetype().spec_components()[
                            group.spec_unsorted_to_sorted()[i] as int].spec_id())
                &&& !final(self).spec_live(entity)
                &&& forall|e2: Entity| final(self).spec_live(e2) == (old(self).spec_live(e2)
                    && e2 != entity)
                &&& Registry::others_preserved(*old(self), *final(self), entity)
            }),
            // The table registry keeps its shape: no table added or
            // removed, descriptors unchanged, no table grows.
            final(self).spec_archetypes().spec_num_tables()
                == old(self).spec_archetypes().spec_num_tables(),
            forall|t: int| 0 <= t < old(self).spec_archetypes().spec_num_tables()
                ==> (#[trigger] final(self).spec_archetypes().spec_table(t))
                    .spec_descriptor()
                    == old(self).spec_archetypes().spec_table(t).spec_descriptor(),
            forall|t: int| 0 <= t < old(self).spec_archetypes().spec_num_tables()
                ==> (#[trigger] final(self).spec_archetypes().spec_table(t)).spec_len()
                    <= old(self).spec_archetypes().spec_table(t).spec_len(),
    {
        if !group.is_valid() {
            return None;
        }
        let slot = match self.entities.entity_entry(entity) {
            Some(s) => *s,
            None => {
                return None;
            },
        };
        proof {
            assert(self.spec_slot_consistent(entity.spec_index() as int));
        }
        let exact: bool = {
            let table = self.archetypes.table_at(slot.archetype_index());
            table.descriptor().equals(group.archetype())
        };
        if !exact {
            return None;
        }
        proof {
            use_type_invariant(group);
            group.lemma_wf();
        }
        let values: Vec<Vec<u8>> = match self.get_components(entity, group) {
            Some(v) => v,
            None => {
                proof {
                    assert(self.spec_descriptor_of(entity).spec_contains_subset(
                        &group.spec_archetype()));
                    assert(false);
                }
                return None;
            },
        };
        let destroyed: bool = self.destroy_entity(entity);
        proof {
            assert(destroyed);
        }
        Some(values)
    }

    /// One matched entity with its components (in the group's declared
    /// order) for every entity whose archetype holds all of the group's
    /// components; each such entity appears exactly once, tables in
    /// traversal order and rows in place order.
    #[verifier::rlimit(100)]
    #[verifier::spinoff_prover]
    pub fn iter_entity_components_matching(&self, group: &ComponentGroupDescriptor) -> (r:
        Vec<(Entity, Vec<Vec<u8>>)>)
        requires
            self.wf(),
        ensures
            forall|j: int| 0 <= j < r@.len() ==> ({
                let e = (#[trigger] r@[j]).0;
                &&& self.spec_live(e)
                &&& group.spec_is_valid()
                &&& self.spec_descriptor_of(e).spec_contains_subset(&group.spec_archetype())
                &&& r@[j].1@.len() == group.spec_len()
                &&& forall|i: int| 0 <= i < group.spec_len()
                    ==> (#[trigger] r@[j].1@[i])@ == self.spec_component_of(e,
                        group.spec_archetype().spec_components()[
                            group.spec_unsorted_to_sorted()[i] as int].spec_id())
            }),
            forall|e: Entity| self.spec_live(e) && group.spec_is_valid()
                && (#[trigger] self.spec_descriptor_of(e)).spec_contains_subset(
                    &group.spec_archetype()) ==> exists|j: int| 0 <= j < r@.len()
                    && (#[trigger] r@[j]).0 == e,
            forall|j1: int, j2: int| 0 <= j1 < j2 < r@.len() ==> r@[j1].0 != r@[j2].0,
            forall|j1: int, j2: int| 0 <= j1 < j2 < r@.len()
                ==> self.spec_entity_order(r@[j1].0, r@[j2].0),
            !group.spec_is_valid() ==> r@.len() == 0,
    {
        let mut out: Vec<(Entity, Vec<Vec<u8>>)> = Vec::new();
        if !group.is_valid() {
            return out;
        }
        proof {
            use_type_invariant(group);
            group.lemma_wf();
        }
        let tables: Vec<u16> = self.archetypes.matching_tables(group.archetype());
        let mut a: usize = 0;
        while a < tables.len()
            invariant
                self.wf(),
                group.wf(),
                group.spec_is_valid(),
                a <= tables@.len(),
                forall|b: int| 0 <= b < tables@.len() ==> (#[trigger] tables@[b])
                    < self.spec_archetypes().spec_num_tables(),
                forall|b: int| 0 <= b < tables@.len() ==> self.spec_archetypes().spec_table(
                    (#[trigger] tables@[b]) as int).spec_descriptor().spec_contains_subset(
                    &group.spec_archetype()),
                forall|ti: int| 0 <= ti < self.spec_archetypes().spec_num_tables()
                    && (#[trigger] self.spec_archetypes().spec_table(ti)).spec_descriptor()
                        .spec_contains_subset(&group.spec_archetype())
                    ==> tables@.contains(ti as u16),
                forall|b1: int, b2: int| 0 <= b1 < b2 < tables@.len() ==> tables@[b1]
                    != tables@[b2],
                forall|b1: int, b2: int| 0 <= b1 < b2 < tables@.len()
                    ==> crate::archetype_registry::spec_table_order(
                        self.spec_archetypes().spec_table(tables@[b1] as int)
                            .spec_descriptor(),
                        self.spec_archetypes().spec_table(tables@[b2] as int)
                            .spec_descriptor()),
                forall|j1: int, j2: int| 0 <= j1 < j2 < out@.len()
                    ==> self.spec_entity_order(out@[j1].0, out@[j2].0),
                forall|j: int| 0 <= j < out@.len() ==> ({
                    let e = (#[trigger] out@[j]).0;
                    &&& self.spec_live(e)
                    &&& self.spec_descriptor_of(e).spec_contains_subset(
                        &group.spec_archetype())
                    &&& (exists|b: int| 0 <= b < a && self.spec_archetype_of(e)
                        == (#[trigger] tables@[b]) as int)
                    &&& out@[j].1@.len() == group.spec_len()
                    &&& forall|i: int| 0 <= i < group.spec_len()
                        ==> (#[trigger] out@[j].1@[i])@ == self.spec_component_of(e,
                            group.spec_archetype().spec_components()[
                                group.spec_unsorted_to_sorted()[i] as int].spec_id())
                }),
                forall|e: Entity| self.spec_live(e)
                    && (#[trigger] self.spec_descriptor_of(e)).spec_contains_subset(
                        &group.spec_archetype())
                    && (exists|b: int| 0 <= b < a && self.spec_archetype_of(e)
                        == (#[trigger] tables@[b]) as int)
                    ==> exists|j: int| 0 <= j < out@.len() && (#[trigger] out@[j]).0 == e,
                forall|j1: int, j2: int| 0 <= j1 < j2 < out@.len() ==> out@[j1].0
                    != out@[j2].0,
            decreases tables@.len() - a,
        {
            let ti: u16 = tables[a];
            let table_len: u32 = self.archetypes.table_at(ti).len();
            let mut row: u32 = 0;
            while row < table_len
                invariant
                    self.wf(),
                    group.wf(),
                    group.spec_is_valid(),
                    a < tables@.len(),
                    ti == tables@[a as int],
                    ti < self.spec_archetypes().spec_num_tables(),
                    table_len == self.spec_archetypes().spec_table(ti as int).spec_len(),
                    row <= table_len,
                    self.spec_archetypes().spec_table(ti as int).spec_descriptor()
                        .spec_contains_subset(&group.spec_archetype()),
                    forall|b: int| 0 <= b < tables@.len() ==> (#[trigger] tables@[b])
                        < self.spec_archetypes().spec_num_tables(),
                    forall|b1: int, b2: int| 0 <= b1 < b2 < tables@.len() ==> tables@[b1]
                        != tables@[b2],
                    forall|b1: int, b2: int| 0 <= b1 < b2 < tables@.len()
                        ==> crate::archetype_registry::spec_table_order(
                            self.spec_archetypes().spec_table(tables@[b1] as int)
                                .spec_descriptor(),
                            self.spec_archetypes().spec_table(tables@[b2] as int)
                                .spec_descriptor()),
                    forall|j1: int, j2: int| 0 <= j1 < j2 < out@.len()
                        ==> self.spec_entity_order(out@[j1].0, out@[j2].0),
                    forall|j: int| 0 <= j < out@.len() ==> ({
                        let e = (#[trigger] out@[j]).0;
                        &&& self.spec_live(e)
                        &&& self.spec_descriptor_of(e).spec_contains_subset(
                            &group.spec_archetype())
                        &&& (self.spec_archetype_of(e) == ti as int ==> self.spec_row_of(e)
                            < row)
                        &&& (exists|b: int| 0 <= b < a + 1 && self.spec_archetype_of(e)
                            == (#[trigger] tables@[b]) as int)
                        &&& out@[j].1@.len() == group.spec_len()
                        &&& forall|i: int| 0 <= i < group.spec_len()
                            ==> (#[trigger] out@[j].1@[i])@ == self.spec_component_of(e,
                                group.spec_archetype().spec_components()[
                                    group.spec_unsorted_to_sorted()[i] as int].spec_id())
                    }),
                    forall|e: Entity| self.spec_live(e)
                        && (#[trigger] self.spec_descriptor_of(e)).spec_contains_subset(
                            &group.spec_archetype())
                        && ((exists|b: int| 0 <= b < a && self.spec_archetype_of(e)
                            == (#[trigger] tables@[b]) as int)
                            || (self.spec_archetype_of(e) == ti as int
                                && self.spec_row_of(e) < row))
                        ==> exists|j: int| 0 <= j < out@.len() && (#[trigger] out@[j]).0
                            == e,
                    forall|j1: int, j2: int| 0 <= j1 < j2 < out@.len() ==> out@[j1].0
                        != out@[j2].0,
                decreases table_len - row,
            {
                proof {
                    assert(self.spec_row_consistent(ti as int, row as int));
                }
                let e: Entity = self.archetypes.table_at(ti).entity_at(row);
                let vals: Vec<Vec<u8>> = match self.get_components(e, group) {
                    Some(v) => v,
                    None => {
                        proof {
                            assert(self.spec_archetype_of(e) == ti as int);
                            assert(false);
                        }
                        return out;
                    },
                };
                let ghost out0 = out@;
                out.push((e, vals));
                proof {
                    assert(self.spec_archetype_of(e) == ti as int);
                    assert(self.spec_row_of(e) == row as int);
                    assert forall|j1: int, j2: int| 0 <= j1 < j2 < out@.len()
                        implies out@[j1].0 != out@[j2].0 by {
                        if j2 == out@.len() - 1 && out@[j1].0 == e {
                            let e1 = out0[j1].0;
                            if self.spec_archetype_of(e1) == ti as int {
                                assert(self.spec_row_of(e1) < row);
                            } else {
                                let b = choose|b: int| 0 <= b < a + 1
                                    && self.spec_archetype_of(e1)
                                    == (#[trigger] tables@[b]) as int;
                                assert(tables@[b] != tables@[a as int]);
                            }
                        }
                    }
                    assert forall|j1: int, j2: int| 0 <= j1 < j2 < out@.len()
                        implies self.spec_entity_order(out@[j1].0, out@[j2].0) by {
                        if j2 == out@.len() - 1 {
                            let e1 = out0[j1].0;
                            if self.spec_archetype_of(e1) == ti as int {
                                assert(self.spec_row_of(e1) < row);
                            } else {
                                let b = choose|b: int| 0 <= b < a + 1
                                    && self.spec_archetype_of(e1)
                                    == (#[trigger] tables@[b]) as int;
                                assert(tables@[b] != tables@[a as int]);
                                assert(b < a);
                                assert(crate::archetype_registry::spec_table_order(
                                    self.spec_archetypes().spec_table(tables@[b] as int)
                                        .spec_descriptor(),
                                    self.spec_archetypes().spec_table(
                                        tables@[a as int] as int).spec_descriptor()));
                            }
                        } else {
                            assert(out@[j1].0 == out0[j1].0);
                            assert(out@[j2].0 == out0[j2].0);
                        }
                    }
                    assert forall|e2: Entity| self.spec_live(e2)
                        && (#[trigger] self.spec_descriptor_of(e2)).spec_contains_subset(
                            &group.spec_archetype())
                        && ((exists|b: int| 0 <= b < a && self.spec_archetype_of(e2)
                            == (#[trigger] tables@[b]) as int)
                            || (self.spec_archetype_of(e2) == ti as int
                                && self.spec_row_of(e2) < row + 1))
                        implies exists|j: int| 0 <= j < out@.len()
                            && (#[trigger] out@[j]).0 == e2 by {
                        if self.spec_archetype_of(e2) == ti as int
                            && self.spec_row_of(e2) == row as int {
                            assert(self.spec_slot_consistent(e2.spec_index() as int));
                            crate::entity::lemma_entity_handle_determined(e2, e);
                            assert(out@[out@.len() - 1].0 == e2);
                        } else {
                            let j = choose|j: int| 0 <= j < out0.len()
                                && (#[trigger] out0[j]).0 == e2;
                            assert(out@[j].0 == e2);
                        }
                    }
                }
                row = row + 1;
            }
            proof {
                assert forall|e2: Entity| self.spec_live(e2)
                    && (#[trigger] self.spec_descriptor_of(e2)).spec_contains_subset(
                        &group.spec_archetype())
                    && (exists|b: int| 0 <= b < a + 1 && self.spec_archetype_of(e2)
                        == (#[trigger] tables@[b]) as int)
                    implies exists|j: int| 0 <= j < out@.len() && (#[trigger] out@[j]).0
                        == e2 by {
                    let b = choose|b: int| 0 <= b < a + 1 && self.spec_archetype_of(e2)
                        == (#[trigger] tables@[b]) as int;
                    if b == a {
                        assert(self.spec_slot_consistent(e2.spec_index() as int));
                        assert(self.spec_row_of(e2) < table_len);
                    }
                }
            }
            a = a + 1;
        }
        proof {
            assert forall|e: Entity| self.spec_live(e) && group.spec_is_valid()
                && (#[trigger] self.spec_descriptor_of(e)).spec_contains_subset(
                    &group.spec_archetype()) implies exists|j: int| 0 <= j < out@.len()
                    && (#[trigger] out@[j]).0 == e by {
                assert(self.spec_slot_consistent(e.spec_index() as int));
                let ti = self.spec_archetype_of(e);
                assert(tables@.contains(ti as u16));
                let b = choose|b: int| 0 <= b < tables@.len() && tables@[b] == ti as u16;
                assert(0 <= b < tables@.len() && self.spec_archetype_of(e)
                    == (tables@[b]) as int);
            }
        }
        out
    }

    /// The component rows (in the group's declared order) of every entity
    /// whose archetype holds all of the group's components, one row per
    /// matched entity.
    #[verifier::rlimit(100)]
    #[verifier::spinoff_prover]
    pub fn iter_components_matching(&self, group: &ComponentGroupDescriptor) -> (r: Vec<Vec<
        Vec<u8>>>)
        requires
            self.wf(),
        ensures
            !group.spec_is_valid() ==> r@.len() == 0,
            group.spec_is_valid() ==> exists|es: Seq<Entity>| {
                &&& self.spec_rows_project_entities(group, r@, es)
                &&& forall|j: int| 0 <= j < es.len()
                    ==> (#[trigger] self.spec_descriptor_of(es[j])).spec_contains_subset(
                        &group.spec_archetype())
                &&& forall|j1: int, j2: int| 0 <= j1 < j2 < es.len()
                    ==> self.spec_entity_order(es[j1], es[j2])
                &&& forall|e: Entity| self.spec_live(e)
                    && (#[trigger] self.spec_descriptor_of(e)).spec_contains_subset(
                        &group.spec_archetype()) ==> es.contains(e)
            },
    {
        let mut pairs: Vec<(Entity, Vec<Vec<u8>>)> = self.iter_entity_components_matching(
            group);
        let ghost orig = pairs@;
        proof {
            assert forall|b: int| 0 <= b < orig.len() implies ({
                let e = (#[trigger] orig[b]).0;
                &&& self.spec_live(e)
                &&& group.spec_is_valid()
                &&& self.spec_descriptor_of(e).spec_contains_subset(
                    &group.spec_archetype())
                &&& orig[b].1@.len() == group.spec_len()
                &&& forall|i: int| 0 <= i < group.spec_len()
                    ==> (#[trigger] orig[b].1@[i])@ == self.spec_component_of(e,
                        group.spec_archetype().spec_components()[
                            group.spec_unsorted_to_sorted()[i] as int].spec_id())
            }) by {
                assert(orig[b] == pairs@[b]);
            }
        }
        let mut out: Vec<Vec<Vec<u8>>> = Vec::new();
        while pairs.len() > 0
            invariant
                self.wf(),
                out@.len() + pairs@.len() == orig.len(),
                pairs@ == orig.skip(out@.len() as int),
                forall|b: int| 0 <= b < orig.len() ==> ({
                    let e = (#[trigger] orig[b]).0;
                    &&& self.spec_live(e)
                    &&& group.spec_is_valid()
                    &&& self.spec_descriptor_of(e).spec_contains_subset(
                        &group.spec_archetype())
                    &&& orig[b].1@.len() == group.spec_len()
                    &&& forall|i: int| 0 <= i < group.spec_len()
                        ==> (#[trigger] orig[b].1@[i])@ == self.spec_component_of(e,
                            group.spec_archetype().spec_components()[
                                group.spec_unsorted_to_sorted()[i] as int].spec_id())
                }),
                forall|b1: int, b2: int| 0 <= b1 < b2 < orig.len() ==> orig[b1].0
                    != orig[b2].0,
                forall|b1: int, b2: int| 0 <= b1 < b2 < orig.len()
                    ==> self.spec_entity_order(orig[b1].0, orig[b2].0),
                forall|e: Entity| self.spec_live(e) && group.spec_is_valid()
                    && (#[trigger] self.spec_descriptor_of(e)).spec_contains_subset(
                        &group.spec_archetype()) ==> exists|b: int| 0 <= b < orig.len()
                        && (#[trigger] orig[b]).0 == e,
                forall|b: int| 0 <= b < out@.len() ==> (#[trigger] out@[b]) == orig[b].1,
            decreases pairs@.len(),
        {
            let ghost out0 = out@;
            let pair: (Entity, Vec<Vec<u8>>) = pairs.remove(0);
            proof {
                assert(pair == orig[out0.len() as int]);
            }
            out.push(pair.1);
            proof {
                assert(pairs@ =~= orig.skip(out@.len() as int));
            }
        }
        proof {
            if group.spec_is_valid() {
                let es = Seq::new(orig.len(), |b: int| orig[b].0);
                assert forall|j: int, i: int| 0 <= j < es.len() && 0 <= i < group.spec_len()
                    implies (#[trigger] out@[j]@[i])@ == self.spec_component_of(es[j],
                        group.spec_archetype().spec_components()[
                            group.spec_unsorted_to_sorted()[i] as int].spec_id()) by {
                    assert(out@[j] == orig[j].1);
                    assert(orig[j].1@[i]@ == self.spec_component_of(orig[j].0,
                        group.spec_archetype().spec_components()[
                            group.spec_unsorted_to_sorted()[i] as int].spec_id()));
                }
                assert forall|e: Entity| self.spec_live(e)
                    && (#[trigger] self.spec_descriptor_of(e)).spec_contains_subset(
                        &group.spec_archetype()) implies es.contains(e) by {
                    let b = choose|b: int| 0 <= b < orig.len() && (#[trigger] orig[b]).0
                        == e;
                    assert(es[b] == e);
                }
                assert(self.spec_rows_project_entities(group, out@, es));
            } else {
                assert(orig.len() == 0);
            }
        }
        out
    }

    /// The rows of the single table whose archetype is exactly the group's,
    /// one entry per entity, components in the group's declared order;
    /// empty when no such table exists.
    #[verifier::rlimit(100)]
    #[verifier::spinoff_prover]
    pub fn iter_entity_components_exact(&self, group: &ComponentGroupDescriptor) -> (r: Vec<(
        Entity, Vec<Vec<u8>>)>)
        requires
            self.wf(),
        ensures
            forall|j: int| 0 <= j < r@.len() ==> ({
                let e = (#[trigger] r@[j]).0;
                &&& self.spec_live(e)
                &&& group.spec_is_valid()
                &&& self.spec_descriptor_of(e).spec_components()
                    == group.spec_archetype().spec_components()
                &&& r@[j].1@.len() == group.spec_len()
                &&& forall|i: int| 0 <= i < group.spec_len()
                    ==> (#[trigger] r@[j].1@[i])@ == self.spec_component_of(e,
                        group.spec_archetype().spec_components()[
                            group.spec_unsorted_to_sorted()[i] as int].spec_id())
            }),
            forall|e: Entity| self.spec_live(e) && group.spec_is_valid()
                && (#[trigger] self.spec_descriptor_of(e)).spec_components()
                    == group.spec_archetype().spec_components()
                && self.spec_descriptor_of(e).spec_archetype_id()
                    == group.spec_archetype().spec_archetype_id()
                ==> exists|j: int| 0 <= j < r@.len() && (#[trigger] r@[j]).0 == e,
            forall|j1: int, j2: int| 0 <= j1 < j2 < r@.len() ==> r@[j1].0 != r@[j2].0,
            forall|j1: int, j2: int| 0 <= j1 < j2 < r@.len()
                ==> self.spec_entity_order(r@[j1].0, r@[j2].0),
            !group.spec_is_valid() ==> r@.len() == 0,
    {
        let mut out: Vec<(Entity, Vec<Vec<u8>>)> = Vec::new();
        if !group.is_valid() {
            return out;
        }
        proof {
            use_type_invariant(group);
            group.lemma_wf();
        }
        let ti: u16 = match self.archetypes.find_archetype_index(group.archetype()) {
            Some(i) => i,
            None => {
                proof {
                    assert forall|e: Entity| self.spec_live(e)
                        && (#[trigger] self.spec_descriptor_of(e)).spec_components()
                            == group.spec_archetype().spec_components()
                        && self.spec_descriptor_of(e).spec_archetype_id()
                            == group.spec_archetype().spec_archetype_id()
                        implies false by {
                        assert(self.spec_slot_consistent(e.spec_index() as int));
                        let t0 = self.spec_archetype_of(e);
                        crate::archetype_registry::lemma_unique_table(
                            &self.spec_archetypes(), t0, group.spec_archetype().spec_len(),
                            group.spec_archetype().spec_archetype_id().spec_value());
                    }
                }
                return out;
            },
        };
        let table_len: u32 = self.archetypes.table_at(ti).len();
        let mut row: u32 = 0;
        while row < table_len
            invariant
                self.wf(),
                group.wf(),
                group.spec_is_valid(),
                ti < self.spec_archetypes().spec_num_tables(),
                table_len == self.spec_archetypes().spec_table(ti as int).spec_len(),
                row <= table_len,
                self.spec_archetypes().spec_table(ti as int).spec_descriptor()
                    .spec_components() == group.spec_archetype().spec_components(),
                self.spec_archetypes().spec_table(ti as int).spec_descriptor()
                    .spec_archetype_id() == group.spec_archetype().spec_archetype_id(),
                forall|j: int| 0 <= j < out@.len() ==> ({
                    let e = (#[trigger] out@[j]).0;
                    &&& self.spec_live(e)
                    &&& self.spec_archetype_of(e) == ti as int
                    &&& self.spec_row_of(e) < row
                    &&& self.spec_descriptor_of(e).spec_components()
                        == group.spec_archetype().spec_components()
                    &&& out@[j].1@.len() == group.spec_len()
                    &&& forall|i: int| 0 <= i < group.spec_len()
                        ==> (#[trigger] out@[j].1@[i])@ == self.spec_component_of(e,
                            group.spec_archetype().spec_components()[
                                group.spec_unsorted_to_sorted()[i] as int].spec_id())
                }),
                forall|e: Entity| self.spec_live(e) && self.spec_archetype_of(e) == ti as int
                    && #[trigger] self.spec_row_of(e) < row
                    ==> exists|j: int| 0 <= j < out@.len() && (#[trigger] out@[j]).0 == e,
                forall|j1: int, j2: int| 0 <= j1 < j2 < out@.len() ==> out@[j1].0
                    != out@[j2].0,
                forall|j1: int, j2: int| 0 <= j1 < j2 < out@.len()
                    ==> self.spec_row_of(out@[j1].0) < self.spec_row_of(out@[j2].0),
                forall|j1: int, j2: int| 0 <= j1 < j2 < out@.len()
                    ==> self.spec_entity_order(out@[j1].0, out@[j2].0),
            decreases table_len - row,
        {
            proof {
                assert(self.spec_row_consistent(ti as int, row as int));
                assert(self.spec_descriptor_of(
                    self.spec_archetypes().spec_table(ti as int).spec_entities()[
                        row as int]).spec_contains_subset(&group.spec_archetype())) by {
                    let dd = self.spec_archetypes().spec_table(ti as int).spec_descriptor();
                    assert forall|k: int| 0 <= k
                        < group.spec_archetype().spec_components().len()
                        implies dd.spec_has_id(#[trigger] group.spec_archetype()
                            .spec_components()[k].spec_id()) by {
                        assert(dd.spec_components()[k]
                            == group.spec_archetype().spec_components()[k]);
                    }
                }
            }
            let e: Entity = self.archetypes.table_at(ti).entity_at(row);
            let vals: Vec<Vec<u8>> = match self.get_components(e, group) {
                Some(v) => v,
                None => {
                    proof {
                        assert(false);
                    }
                    return out;
                },
            };
            let ghost out0 = out@;
            out.push((e, vals));
            proof {
                assert forall|j1: int, j2: int| 0 <= j1 < j2 < out@.len()
                    implies out@[j1].0 != out@[j2].0 by {
                    if j2 == out@.len() - 1 && out@[j1].0 == e {
                        assert(self.spec_row_of(out0[j1].0) < row);
                    }
                }
                assert forall|e2: Entity| self.spec_live(e2)
                    && self.spec_archetype_of(e2) == ti as int
                    && #[trigger] self.spec_row_of(e2) < row + 1
                    implies exists|j: int| 0 <= j < out@.len() && (#[trigger] out@[j]).0
                        == e2 by {
                    if self.spec_row_of(e2) == row as int {
                        assert(self.spec_slot_consistent(e2.spec_index() as int));
                        crate::entity::lemma_entity_handle_determined(e2, e);
                        assert(out@[out@.len() - 1].0 == e2);
                    } else {
                        let j = choose|j: int| 0 <= j < out0.len()
                            && (#[trigger] out0[j]).0 == e2;
                        assert(out@[j].0 == e2);
                    }
                }
            }
            row = row + 1;
        }
        proof {
            assert forall|e: Entity| self.spec_live(e)
                && (#[trigger] self.spec_descriptor_of(e)).spec_components()
                    == group.spec_archetype().spec_components()
                && self.spec_descriptor_of(e).spec_archetype_id()
                    == group.spec_archetype().spec_archetype_id()
                implies exists|j: int| 0 <= j < out@.len() && (#[trigger] out@[j]).0
                    == e by {
                assert(self.spec_slot_consistent(e.spec_index() as int));
                let t0 = self.spec_archetype_of(e);
                crate::archetype_registry::lemma_unique_table(&self.spec_archetypes(), t0,
                    group.spec_archetype().spec_len(),
                    group.spec_archetype().spec_archetype_id().spec_value());
                crate::archetype_registry::lemma_unique_table(&self.spec_archetypes(),
                    ti as int, group.spec_archetype().spec_len(),
                    group.spec_archetype().spec_archetype_id().spec_value());
                assert(t0 == ti as int);
                assert(self.spec_row_of(e) < table_len);
            }
        }
        out
    }

    /// The component rows of the single table whose archetype is exactly
    /// the group's, in the group's declared order; empty when no such table
    /// exists.
    #[verifier::rlimit(100)]
    #[verifier::spinoff_prover]
    pub fn iter_components_exact(&self, group: &ComponentGroupDescriptor) -> (r: Vec<Vec<Vec<
        u8>>>)
        requires
            self.wf(),
        ensures
            !group.spec_is_valid() ==> r@.len() == 0,
            group.spec_is_valid() ==> exists|es: Seq<Entity>| {
                &&& self.spec_rows_project_entities(group, r@, es)
                &&& forall|j: int| 0 <= j < es.len()
                    ==> (#[trigger] self.spec_descriptor_of(es[j])).spec_components()
                        == group.spec_archetype().spec_components()
                &&& forall|j1: int, j2: int| 0 <= j1 < j2 < es.len()
                    ==> self.spec_entity_order(es[j1], es[j2])
                &&& forall|e: Entity| self.spec_live(e)
                    && (#[trigger] self.spec_descriptor_of(e)).spec_components()
                        == group.spec_archetype().spec_components()
                    && self.spec_descriptor_of(e).spec_archetype_id()
                        == group.spec_archetype().spec_archetype_id() ==> es.contains(e)
            },
    {
        let mut pairs: Vec<(Entity, Vec<Vec<u8>>)> = self.iter_entity_components_exact(group);
        let ghost orig = pairs@;
        proof {
            assert forall|b: int| 0 <= b < orig.len() implies ({
                let e = (#[trigger] orig[b]).0;
                &&& self.spec_live(e)
                &&& group.spec_is_valid()
                &&& self.spec_descriptor_of(e).spec_components()
                    == group.spec_archetype().spec_components()
                &&& orig[b].1@.len() == group.spec_len()
                &&& forall|i: int| 0 <= i < group.spec_len()
                    ==> (#[trigger] orig[b].1@[i])@ == self.spec_component_of(e,
                        group.spec_archetype().spec_components()[
                            group.spec_unsorted_to_sorted()[i] as int].spec_id())
            }) by {
                assert(orig[b] == pairs@[b]);
            }
        }
        let mut out: Vec<Vec<Vec<u8>>> = Vec::new();
        while pairs.len() > 0
            invariant
                self.wf(),
                out@.len() + pairs@.len() == orig.len(),
                pairs@ == orig.skip(out@.len() as int),
                forall|b: int| 0 <= b < orig.len() ==> ({
                    let e = (#[trigger] orig[b]).0;
                    &&& self.spec_live(e)
                    &&& group.spec_is_valid()
                    &&& self.spec_descriptor_of(e).spec_components()
                        == group.spec_archetype().spec_components()
                    &&& orig[b].1@.len() == group.spec_len()
                    &&& forall|i: int| 0 <= i < group.spec_len()
                        ==> (#[trigger] orig[b].1@[i])@ == self.spec_component_of(e,
                            group.spec_archetype().spec_components()[
                                group.spec_unsorted_to_sorted()[i] as int].spec_id())
                }),
                forall|b1: int, b2: int| 0 <= b1 < b2 < orig.len() ==> orig[b1].0
                    != orig[b2].0,
                forall|b1: int, b2: int| 0 <= b1 < b2 < orig.len()
                    ==> self.spec_entity_order(orig[b1].0, orig[b2].0),
                forall|e: Entity| self.spec_live(e) && group.spec_is_valid()
                    && (#[trigger] self.spec_descriptor_of(e)).spec_components()
                        == group.spec_archetype().spec_components()
                    && self.spec_descriptor_of(e).spec_archetype_id()
                        == group.spec_archetype().spec_archetype_id()
                    ==> exists|b: int| 0 <= b < orig.len() && (#[trigger] orig[b]).0 == e,
                forall|b: int| 0 <= b < out@.len() ==> (#[trigger] out@[b]) == orig[b].1,
            decreases pairs@.len(),
        {
            let ghost out0 = out@;
            let pair: (Entity, Vec<Vec<u8>>) = pairs.remove(0);
            proof {
                assert(pair == orig[out0.len() as int]);
            }
            out.push(pair.1);
            proof {
                assert(pairs@ =~= orig.skip(out@.len() as int));
            }
        }
        proof {
            if group.spec_is_valid() {
                let es = Seq::new(orig.len(), |b: int| orig[b].0);
                assert forall|j: int, i: int| 0 <= j < es.len() && 0 <= i < group.spec_len()
                    implies (#[trigger] out@[j]@[i])@ == self.spec_component_of(es[j],
                        group.spec_archetype().spec_components()[
                            group.spec_unsorted_to_sorted()[i] as int].spec_id()) by {
                    assert(out@[j] == orig[j].1);
                    assert(orig[j].1@[i]@ == self.spec_component_of(orig[j].0,
                        group.spec_archetype().spec_components()[
                            group.spec_unsorted_to_sorted()[i] as int].spec_id()));
                }
                assert forall|e: Entity| self.spec_live(e)
                    && (#[trigger] self.spec_descriptor_of(e)).spec_components()
                        == group.spec_archetype().spec_components()
                    && self.spec_descriptor_of(e).spec_archetype_id()
                        == group.spec_archetype().spec_archetype_id()
                    implies es.contains(e) by {
                    let b = choose|b: int| 0 <= b < orig.len() && (#[trigger] orig[b]).0
                        == e;
                    assert(es[b] == e);
                }
                assert(self.spec_rows_project_entities(group, out@, es));
            } else {
                assert(orig.len() == 0);
            }
        }
        out
    }

    /// Like `iter_entity_components_matching`, but consults the caller's
    /// filter once per matching archetype, on the descriptor alone and
    /// before any component data of that archetype is read; only entities
    /// of archetypes the filter accepted are listed. A matching entity is
    /// absent from the result only if the filter rejected its descriptor.
    #[verifier::rlimit(100)]
    #[verifier::spinoff_prover]
    pub fn iter_filtered_entity_components_matching<F: Fn(&crate::archetype_descriptor
        ::ArchetypeDescriptor) -> bool>(&self, group: &ComponentGroupDescriptor,
        filter_closure: F) -> (r: Vec<(Entity, Vec<Vec<u8>>)>)
        requires
            self.wf(),
            forall|d: &crate::archetype_descriptor::ArchetypeDescriptor|
                #[trigger] filter_closure.requires((d,)),
        ensures
            forall|j: int| 0 <= j < r@.len() ==> ({
                let e = (#[trigger] r@[j]).0;
                &&& self.spec_live(e)
                &&& group.spec_is_valid()
                &&& self.spec_descriptor_of(e).spec_contains_subset(&group.spec_archetype())
                &&& r@[j].1@.len() == group.spec_len()
                &&& forall|i: int| 0 <= i < group.spec_len()
                    ==> (#[trigger] r@[j].1@[i])@ == self.spec_component_of(e,
                        group.spec_archetype().spec_components()[
                            group.spec_unsorted_to_sorted()[i] as int].spec_id())
            }),
            forall|j: int| 0 <= j < r@.len() ==> filter_closure.ensures((
                &self.spec_descriptor_of((#[trigger] r@[j]).0),), true),
            forall|j1: int, j2: int| 0 <= j1 < j2 < r@.len() ==> r@[j1].0 != r@[j2].0,
            forall|e: Entity| self.spec_live(e) && group.spec_is_valid()
                && (#[trigger] self.spec_descriptor_of(e)).spec_contains_subset(
                    &group.spec_archetype())
                ==> (exists|j: int| 0 <= j < r@.len() && (#[trigger] r@[j]).0 == e)
                    || filter_closure.ensures((&self.spec_descriptor_of(e),), false),
            !group.spec_is_valid() ==> r@.len() == 0,
    {
        let mut out: Vec<(Entity, Vec<Vec<u8>>)> = Vec::new();
        if !group.is_valid() {
            return out;
        }
        proof {
            use_type_invariant(group);
            group.lemma_wf();
        }
        let tables: Vec<u16> = self.archetypes.matching_tables(group.archetype());
        let mut a: usize = 0;
        while a < tables.len()
            invariant
                self.wf(),
                group.wf(),
                group.spec_is_valid(),
                a <= tables@.len(),
                forall|d: &crate::archetype_descriptor::ArchetypeDescriptor|
                    #[trigger] filter_closure.requires((d,)),
                forall|b: int| 0 <= b < tables@.len() ==> (#[trigger] tables@[b])
                    < self.spec_archetypes().spec_num_tables(),
                forall|b: int| 0 <= b < tables@.len() ==> self.spec_archetypes().spec_table(
                    (#[trigger] tables@[b]) as int).spec_descriptor().spec_contains_subset(
                    &group.spec_archetype()),
                forall|ti: int| 0 <= ti < self.spec_archetypes().spec_num_tables()
                    && (#[trigger] self.spec_archetypes().spec_table(ti)).spec_descriptor()
                        .spec_contains_subset(&group.spec_archetype())
                    ==> tables@.contains(ti as u16),
                forall|b1: int, b2: int| 0 <= b1 < b2 < tables@.len() ==> tables@[b1]
                    != tables@[b2],
                forall|j: int| 0 <= j < out@.len() ==> ({
                    let e = (#[trigger] out@[j]).0;
                    &&& self.spec_live(e)
                    &&& self.spec_descriptor_of(e).spec_contains_subset(
                        &group.spec_archetype())
                    &&& (exists|b: int| 0 <= b < a && self.spec_archetype_of(e)
                        == (#[trigger] tables@[b]) as int)
                    &&& out@[j].1@.len() == group.spec_len()
                    &&& forall|i: int| 0 <= i < group.spec_len()
                        ==> (#[trigger] out@[j].1@[i])@ == self.spec_component_of(e,
                            group.spec_archetype().spec_components()[
                                group.spec_unsorted_to_sorted()[i] as int].spec_id())
                }),
                forall|j: int| 0 <= j < out@.len() ==> filter_closure.ensures((
                    &self.spec_descriptor_of((#[trigger] out@[j]).0),), true),
                forall|e: Entity| self.spec_live(e)
                    && (#[trigger] self.spec_descriptor_of(e)).spec_contains_subset(
                        &group.spec_archetype())
                    && (exists|b: int| 0 <= b < a && self.spec_archetype_of(e)
                        == (#[trigger] tables@[b]) as int)
                    ==> (exists|j: int| 0 <= j < out@.len() && (#[trigger] out@[j]).0 == e)
                        || filter_closure.ensures((&self.spec_descriptor_of(e),), false),
                forall|j1: int, j2: int| 0 <= j1 < j2 < out@.len() ==> out@[j1].0
                    != out@[j2].0,
            decreases tables@.len() - a,
        {
            let ti: u16 = tables[a];
            // The filter sees the descriptor only, before any row is read.
            let keep: bool = {
                let table = self.archetypes.table_at(ti);
                filter_closure(table.descriptor())
            };
            if keep {
                let table_len: u32 = self.archetypes.table_at(ti).len();
                let mut row: u32 = 0;
                while row < table_len
                    invariant
                        self.wf(),
                        group.wf(),
                        group.spec_is_valid(),
                        a < tables@.len(),
                        ti == tables@[a as int],
                        ti < self.spec_archetypes().spec_num_tables(),
                        table_len == self.spec_archetypes().spec_table(
                            ti as int).spec_len(),
                        row <= table_len,
                        self.spec_archetypes().spec_table(ti as int).spec_descriptor()
                            .spec_contains_subset(&group.spec_archetype()),
                        filter_closure.ensures((&self.spec_archetypes().spec_table(
                            ti as int).spec_descriptor(),), true),
                        forall|d: &crate::archetype_descriptor::ArchetypeDescriptor|
                            #[trigger] filter_closure.requires((d,)),
                        forall|b: int| 0 <= b < tables@.len() ==> (#[trigger] tables@[b])
                            < self.spec_archetypes().spec_num_tables(),
                        forall|b1: int, b2: int| 0 <= b1 < b2 < tables@.len()
                            ==> tables@[b1] != tables@[b2],
                        forall|j: int| 0 <= j < out@.len() ==> ({
                            let e = (#[trigger] out@[j]).0;
                            &&& self.spec_live(e)
                            &&& self.spec_descriptor_of(e).spec_contains_subset(
                                &group.spec_archetype())
                            &&& (self.spec_archetype_of(e) == ti as int
                                ==> self.spec_row_of(e) < row)
                            &&& (exists|b: int| 0 <= b < a + 1 && self.spec_archetype_of(e)
                                == (#[trigger] tables@[b]) as int)
                            &&& out@[j].1@.len() == group.spec_len()
                            &&& forall|i: int| 0 <= i < group.spec_len()
                                ==> (#[trigger] out@[j].1@[i])@ == self.spec_component_of(
                                    e, group.spec_archetype().spec_components()[
                                        group.spec_unsorted_to_sorted()[i] as int]
                                        .spec_id())
                        }),
                        forall|j: int| 0 <= j < out@.len() ==> filter_closure.ensures((
                            &self.spec_descriptor_of((#[trigger] out@[j]).0),), true),
                        forall|e: Entity| self.spec_live(e)
                            && (#[trigger] self.spec_descriptor_of(e))
                                .spec_contains_subset(&group.spec_archetype())
                            && ((exists|b: int| 0 <= b < a && self.spec_archetype_of(e)
                                == (#[trigger] tables@[b]) as int)
                                || (self.spec_archetype_of(e) == ti as int
                                    && self.spec_row_of(e) < row))
                            ==> (exists|j: int| 0 <= j < out@.len()
                                && (#[trigger] out@[j]).0 == e)
                                || filter_closure.ensures((&self.spec_descriptor_of(e),),
                                    false),
                        forall|j1: int, j2: int| 0 <= j1 < j2 < out@.len() ==> out@[j1].0
                            != out@[j2].0,
                    decreases table_len - row,
                {
                    proof {
                        assert(self.spec_row_consistent(ti as int, row as int));
                    }
                    let e: Entity = self.archetypes.table_at(ti).entity_at(row);
                    let vals: Vec<Vec<u8>> = match self.get_components(e, group) {
                        Some(v) => v,
                        None => {
                            proof {
                                assert(self.spec_archetype_of(e) == ti as int);
                                assert(false);
                            }
                            return out;
                        },
                    };
                    let ghost out0 = out@;
                    out.push((e, vals));
                    proof {
                        assert(self.spec_archetype_of(e) == ti as int);
                        assert(self.spec_row_of(e) == row as int);
                        assert(self.spec_descriptor_of(e) == self.spec_archetypes()
                            .spec_table(ti as int).spec_descriptor());
                        assert forall|j1: int, j2: int| 0 <= j1 < j2 < out@.len()
                            implies out@[j1].0 != out@[j2].0 by {
                            if j2 == out@.len() - 1 && out@[j1].0 == e {
                                let e1 = out0[j1].0;
                                if self.spec_archetype_of(e1) == ti as int {
                                    assert(self.spec_row_of(e1) < row);
                                } else {
                                    let b = choose|b: int| 0 <= b < a + 1
                                        && self.spec_archetype_of(e1)
                                        == (#[trigger] tables@[b]) as int;
                                    assert(tables@[b] != tables@[a as int]);
                                }
                            }
                        }
                        assert forall|e2: Entity| self.spec_live(e2)
                            && (#[trigger] self.spec_descriptor_of(e2))
                                .spec_contains_subset(&group.spec_archetype())
                            && ((exists|b: int| 0 <= b < a && self.spec_archetype_of(e2)
                                == (#[trigger] tables@[b]) as int)
                                || (self.spec_archetype_of(e2) == ti as int
                                    && self.spec_row_of(e2) < row + 1))
                            implies (exists|j: int| 0 <= j < out@.len()
                                && (#[trigger] out@[j]).0 == e2)
                                || filter_closure.ensures((
                                    &self.spec_descriptor_of(e2),), false) by {
                            if self.spec_archetype_of(e2) == ti as int
                                && self.spec_row_of(e2) == row as int {
                                assert(self.spec_slot_consistent(
                                    e2.spec_index() as int));
                                crate::entity::lemma_entity_handle_determined(e2, e);
                                assert(out@[out@.len() - 1].0 == e2);
                            } else {
                                if exists|j: int| 0 <= j < out0.len()
                                    && (#[trigger] out0[j]).0 == e2 {
                                    let j = choose|j: int| 0 <= j < out0.len()
                                        && (#[trigger] out0[j]).0 == e2;
                                    assert(out@[j].0 == e2);
                                }
                            }
                        }
                    }
                    row = row + 1;
                }
                proof {
                    assert forall|e2: Entity| self.spec_live(e2)
                        && (#[trigger] self.spec_descriptor_of(e2)).spec_contains_subset(
                            &group.spec_archetype())
                        && (exists|b: int| 0 <= b < a + 1 && self.spec_archetype_of(e2)
                            == (#[trigger] tables@[b]) as int)
                        implies (exists|j: int| 0 <= j < out@.len()
                            && (#[trigger] out@[j]).0 == e2)
                            || filter_closure.ensures((&self.spec_descriptor_of(e2),),
                                false) by {
                        let b = choose|b: int| 0 <= b < a + 1 && self.spec_archetype_of(e2)
                            == (#[trigger] tables@[b]) as int;
                        if b == a {
                            assert(self.spec_slot_consistent(e2.spec_index() as int));
                            assert(self.spec_row_of(e2) < table_len);
                        }
                    }
                }
            } else {
                proof {
                    // The filter rejected this archetype's descriptor: all
                    // of its entities are accounted for by that rejection.
                    assert forall|e2: Entity| self.spec_live(e2)
                        && (#[trigger] self.spec_descriptor_of(e2)).spec_contains_subset(
                            &group.spec_archetype())
                        && (exists|b: int| 0 <= b < a + 1 && self.spec_archetype_of(e2)
                            == (#[trigger] tables@[b]) as int)
                        implies (exists|j: int| 0 <= j < out@.len()
                            && (#[trigger] out@[j]).0 == e2)
                            || filter_closure.ensures((&self.spec_descriptor_of(e2),),
                                false) by {
                        let b = choose|b: int| 0 <= b < a + 1 && self.spec_archetype_of(e2)
                            == (#[trigger] tables@[b]) as int;
                        if b == a {
                            assert(self.spec_slot_consistent(e2.spec_index() as int));
                            assert(self.spec_descriptor_of(e2) == self.spec_archetypes()
                                .spec_table(ti as int).spec_descriptor());
                        }
                    }
                }
            }
            a = a + 1;
        }
        proof {
            assert forall|e: Entity| self.spec_live(e) && group.spec_is_valid()
                && (#[trigger] self.spec_descriptor_of(e)).spec_contains_subset(
                    &group.spec_archetype())
                implies (exists|j: int| 0 <= j < out@.len() && (#[trigger] out@[j]).0 == e)
                    || filter_closure.ensures((&self.spec_descriptor_of(e),), false) by {
                assert(self.spec_slot_consistent(e.spec_index() as int));
                let ti = self.spec_archetype_of(e);
                assert(tables@.contains(ti as u16));
                let b = choose|b: int| 0 <= b < tables@.len() && tables@[b] == ti as u16;
                assert(0 <= b < tables@.len() && self.spec_archetype_of(e)
                    == (tables@[b]) as int);
            }
        }
        out
    }

    /// Like `iter_components_matching`, keeping only rows of archetypes
    /// whose descriptor passes the caller's filter; a matching entity's row
    /// is absent only if the filter rejected its archetype's descriptor.
    #[verifier::rlimit(100)]
    #[verifier::spinoff_prover]
    pub fn iter_filtered_components_matching<F: Fn(&crate::archetype_descriptor
        ::ArchetypeDescriptor) -> bool>(&self, group: &ComponentGroupDescriptor,
        filter_closure: F) -> (r: Vec<Vec<Vec<u8>>>)
        requires
            self.wf(),
            forall|d: &crate::archetype_descriptor::ArchetypeDescriptor|
                #[trigger] filter_closure.requires((d,)),
        ensures
            !group.spec_is_valid() ==> r@.len() == 0,
            group.spec_is_valid() ==> exists|es: Seq<Entity>| {
                &&& self.spec_rows_project_entities(group, r@, es)
                &&& forall|j: int| 0 <= j < es.len()
                    ==> (#[trigger] self.spec_descriptor_of(es[j])).spec_contains_subset(
                        &group.spec_archetype())
                &&& forall|j: int| 0 <= j < es.len() ==> filter_closure.ensures((
                    &self.spec_descriptor_of(#[trigger] es[j]),), true)
                &&& forall|e: Entity| self.spec_live(e)
                    && (#[trigger] self.spec_descriptor_of(e)).spec_contains_subset(
                        &group.spec_archetype())
                    ==> es.contains(e)
                        || filter_closure.ensures((&self.spec_descriptor_of(e),), false)
            },
    {
        let mut pairs: Vec<(Entity, Vec<Vec<u8>>)> =
            self.iter_filtered_entity_components_matching(group, filter_closure);
        let ghost orig = pairs@;
        proof {
            assert forall|b: int| 0 <= b < orig.len() implies ({
                let e = (#[trigger] orig[b]).0;
                &&& self.spec_live(e)
                &&& group.spec_is_valid()
                &&& self.spec_descriptor_of(e).spec_contains_subset(
                    &group.spec_archetype())
                &&& orig[b].1@.len() == group.spec_len()
                &&& forall|i: int| 0 <= i < group.spec_len()
                    ==> (#[trigger] orig[b].1@[i])@ == self.spec_component_of(e,
                        group.spec_archetype().spec_components()[
                            group.spec_unsorted_to_sorted()[i] as int].spec_id())
            }) by {
                assert(orig[b] == pairs@[b]);
            }
        }
        let mut out: Vec<Vec<Vec<u8>>> = Vec::new();
        while pairs.len() > 0
            invariant
                self.wf(),
                out@.len() + pairs@.len() == orig.len(),
                pairs@ == orig.skip(out@.len() as int),
                forall|b: int| 0 <= b < orig.len() ==> ({
                    let e = (#[trigger] orig[b]).0;
                    &&& self.spec_live(e)
                    &&& group.spec_is_valid()
                    &&& self.spec_descriptor_of(e).spec_contains_subset(
                        &group.spec_archetype())
                    &&& orig[b].1@.len() == group.spec_len()
                    &&& forall|i: int| 0 <= i < group.spec_len()
                        ==> (#[trigger] orig[b].1@[i])@ == self.spec_component_of(e,
                            group.spec_archetype().spec_components()[
                                group.spec_unsorted_to_sorted()[i] as int].spec_id())
                }),
                forall|b1: int, b2: int| 0 <= b1 < b2 < orig.len() ==> orig[b1].0
                    != orig[b2].0,
                forall|b: int| 0 <= b < orig.len() ==> filter_closure.ensures((
                    &self.spec_descriptor_of((#[trigger] orig[b]).0),), true),
                forall|e: Entity| self.spec_live(e) && group.spec_is_valid()
                    && (#[trigger] self.spec_descriptor_of(e)).spec_contains_subset(
                        &group.spec_archetype())
                    ==> (exists|b: int| 0 <= b < orig.len() && (#[trigger] orig[b]).0 == e)
                        || filter_closure.ensures((&self.spec_descriptor_of(e),), false),
                forall|b: int| 0 <= b < out@.len() ==> (#[trigger] out@[b]) == orig[b].1,
            decreases pairs@.len(),
        {
            let ghost out0 = out@;
            let pair: (Entity, Vec<Vec<u8>>) = pairs.remove(0);
            proof {
                assert(pair == orig[out0.len() as int]);
            }
            out.push(pair.1);
            proof {
                assert(pairs@ =~= orig.skip(out@.len() as int));
            }
        }
        proof {
            if group.spec_is_valid() {
                let es = Seq::new(orig.len(), |b: int| orig[b].0);
                assert forall|j: int, i: int| 0 <= j < es.len() && 0 <= i < group.spec_len()
                    implies (#[trigger] out@[j]@[i])@ == self.spec_component_of(es[j],
                        group.spec_archetype().spec_components()[
                            group.spec_unsorted_to_sorted()[i] as int].spec_id()) by {
                    assert(out@[j] == orig[j].1);
                    assert(orig[j].1@[i]@ == self.spec_component_of(orig[j].0,
                        group.spec_archetype().spec_components()[
                            group.spec_unsorted_to_sorted()[i] as int].spec_id()));
                }
                assert forall|j: int| 0 <= j < es.len() implies filter_closure.ensures((
                    &self.spec_descriptor_of(#[trigger] es[j]),), true) by {
                    assert(es[j] == orig[j].0);
                }
                assert forall|e: Entity| self.spec_live(e)
                    && (#[trigger] self.spec_descriptor_of(e)).spec_contains_subset(
                        &group.spec_archetype())
                    implies es.contains(e)
                        || filter_closure.ensures((&self.spec_descriptor_of(e),), false)
                    by {
                    if exists|b: int| 0 <= b < orig.len() && (#[trigger] orig[b]).0 == e {
                        let b = choose|b: int| 0 <= b < orig.len()
                            && (#[trigger] orig[b]).0 == e;
                        assert(es[b] == e);
                    }
                }
                assert(self.spec_rows_project_entities(group, out@, es));
            } else {
                assert(orig.len() == 0);
            }
        }
        out
    }

    /// The live entities, in ascending slot order.
    pub fn iter_entities(&self) -> (r: Vec<Entity>)
        requires
            self.wf(),
        ensures
            forall|j: int| 0 <= j < r@.len() ==> self.spec_live(#[trigger] r@[j]),
            forall|e: Entity| self.spec_live(e) ==> r@.contains(e),
            forall|j1: int, j2: int| 0 <= j1 < j2 < r@.len() ==> r@[j1].spec_index()
                < r@[j2].spec_index(),
    {
        self.entities.iter()
    }
}

impl Default for Registry {
    /// The default engine is the empty engine.
    fn default() -> (r: Self)
        ensures
            r.wf(),
            r.spec_directory().spec_num_slots() == 0,
            r.spec_archetypes().spec_num_tables() == 0,
            forall|e: Entity| !r.spec_live(e),
    {
        Registry::new()
    }
}

/// Appending empty tables leaves the engine invariant intact.
proof fn lemma_tables_grown(pre: Registry, post: Registry)
    requires
        pre.wf(),
        post.spec_directory() == pre.spec_directory(),
        post.spec_archetypes().wf(),
        post.spec_archetypes().spec_num_tables() >= pre.spec_archetypes().spec_num_tables(),
        forall|t: int| 0 <= t < pre.spec_archetypes().spec_num_tables()
            ==> post.spec_archetypes().spec_table(t) == pre.spec_archetypes().spec_table(t),
        forall|t: int| pre.spec_archetypes().spec_num_tables() <= t
            < post.spec_archetypes().spec_num_tables()
            ==> (#[trigger] post.spec_archetypes().spec_table(t)).spec_len() == 0,
    ensures
        post.wf(),
        forall|e2: Entity| post.spec_live(e2) == pre.spec_live(e2),
        Registry::others_preserved(pre, post, Entity::spec_invalid()),
{
    assert forall|i: int| 0 <= i < post.spec_directory().spec_num_slots()
        implies #[trigger] post.spec_slot_consistent(i) by {
        assert(pre.spec_slot_consistent(i));
    }
    assert forall|t: int, r: int| 0 <= t < post.spec_archetypes().spec_num_tables() && 0 <= r
        < post.spec_archetypes().spec_table(t).spec_len()
        implies #[trigger] post.spec_row_consistent(t, r) by {
        if t < pre.spec_archetypes().spec_num_tables() {
            assert(pre.spec_row_consistent(t, r));
        }
    }
    assert forall|e2: Entity| #[trigger] pre.spec_live(e2) && e2 != Entity::spec_invalid()
        implies {
        &&& post.spec_live(e2)
        &&& post.spec_descriptor_of(e2).spec_components()
            == pre.spec_descriptor_of(e2).spec_components()
        &&& post.spec_descriptor_of(e2).spec_archetype_id()
            == pre.spec_descriptor_of(e2).spec_archetype_id()
        &&& forall|id: u16| pre.spec_has(e2, id) ==> #[trigger] post.spec_component_of(e2, id)
            == pre.spec_component_of(e2, id)
    } by {
        assert(pre.spec_slot_consistent(e2.spec_index() as int));
        assert(post.spec_archetypes().spec_table(pre.spec_archetype_of(e2))
            == pre.spec_archetypes().spec_table(pre.spec_archetype_of(e2)));
    }
}

/// Re-establishes the engine invariant after a create: `pre` is the state
/// before anything changed, `mid1` after the table was resolved or created,
/// `mid2` after the directory slot was taken, `post` after the row push.
#[verifier::rlimit(100)]
#[verifier::spinoff_prover]
proof fn lemma_create_wf(pre: Registry, mid1: Registry, mid2: Registry, post: Registry,
    entity: Entity, t: int, row: int, group: ComponentGroupDescriptor,
    components: Seq<ComponentValue>)
    requires
        pre.wf(),
        mid1.wf(),
        mid1.spec_directory() == pre.spec_directory(),
        forall|t2: int| 0 <= t2 < pre.spec_archetypes().spec_num_tables()
            ==> mid1.spec_archetypes().spec_table(t2)
                == pre.spec_archetypes().spec_table(t2),
        mid1.spec_archetypes().spec_num_tables() >= pre.spec_archetypes().spec_num_tables(),
        0 <= t < mid1.spec_archetypes().spec_num_tables(),
        row == mid1.spec_archetypes().spec_table(t).spec_len(),
        row < 16777215,
        // Directory transition: the new slot.
        mid2.spec_archetypes() == mid1.spec_archetypes(),
        mid2.spec_directory().wf(),
        entity.spec_is_valid(),
        entity.spec_index() < mid2.spec_directory().spec_num_slots(),
        !pre.spec_live(entity),
        entity.spec_index() < pre.spec_directory().spec_num_slots()
            ==> !pre.spec_directory().spec_slot(entity.spec_index() as int).spec_is_valid(),
        entity.spec_index() >= pre.spec_directory().spec_num_slots()
            ==> entity.spec_index() == pre.spec_directory().spec_num_slots()
                && mid2.spec_directory().spec_num_slots()
                    == pre.spec_directory().spec_num_slots() + 1,
        entity.spec_index() < pre.spec_directory().spec_num_slots()
            ==> mid2.spec_directory().spec_num_slots()
                == pre.spec_directory().spec_num_slots(),
        mid2.spec_directory().spec_slot(entity.spec_index() as int).spec_is_valid(),
        mid2.spec_directory().spec_slot(entity.spec_index() as int).spec_version()
            == entity.spec_version(),
        mid2.spec_directory().spec_slot(entity.spec_index() as int).spec_archetype_index()
            == t,
        mid2.spec_directory().spec_slot(entity.spec_index() as int).spec_index_in_archetype()
            == row,
        forall|i: int| 0 <= i < pre.spec_directory().spec_num_slots()
            && i != entity.spec_index()
            ==> mid2.spec_directory().spec_slot(i) == pre.spec_directory().spec_slot(i),
        // Table transition: the pushed row.
        post.spec_directory() == mid2.spec_directory(),
        post.spec_archetypes().wf(),
        post.spec_archetypes().spec_num_tables() == mid2.spec_archetypes().spec_num_tables(),
        forall|t2: int| 0 <= t2 < mid2.spec_archetypes().spec_num_tables() && t2 != t
            ==> post.spec_archetypes().spec_table(t2)
                == mid2.spec_archetypes().spec_table(t2),
        post.spec_archetypes().spec_table(t).spec_descriptor()
            == mid2.spec_archetypes().spec_table(t).spec_descriptor(),
        post.spec_archetypes().spec_table(t).spec_len()
            == mid2.spec_archetypes().spec_table(t).spec_len() + 1,
        post.spec_archetypes().spec_table(t).spec_entities()
            == mid2.spec_archetypes().spec_table(t).spec_entities().push(entity),
        // The pushed values in canonical order, drawn from the declared ones.
        group.wf(),
        group.spec_is_valid(),
        group.spec_len() == components.len(),
        post.spec_archetypes().spec_table(t).spec_descriptor().spec_components()
            == group.spec_archetype().spec_components(),
        forall|j: int| 0 <= j < components.len()
            ==> (#[trigger] components[group.spec_sorted_to_unsorted()[j] as int])
                .spec_descriptor() == group.spec_archetype().spec_components()[j],
        forall|k: int| 0 <= k < post.spec_archetypes().spec_table(t).spec_num_columns()
            ==> post.spec_archetypes().spec_table(t).spec_column(k)
                == mid2.spec_archetypes().spec_table(t).spec_column(k).push(
                    components[group.spec_sorted_to_unsorted()[k] as int].spec_data()),
    ensures
        post.wf(),
        post.spec_live(entity),
        post.spec_descriptor_of(entity).spec_components()
            == group.spec_archetype().spec_components(),
        forall|i: int| 0 <= i < components.len() ==> post.spec_component_of(entity,
            (#[trigger] components[i]).spec_id()) == components[i].spec_data(),
        forall|i: int| 0 <= i < components.len() ==> post.spec_has(entity,
            (#[trigger] components[i]).spec_id()),
        forall|e2: Entity| post.spec_live(e2) == (pre.spec_live(e2) || e2 == entity),
        Registry::others_preserved(pre, post, entity),
{
    let dir_pre = pre.spec_directory();
    let dir_post = post.spec_directory();
    let tbl_mid = mid1.spec_archetypes().spec_table(t);
    let tbl_post = post.spec_archetypes().spec_table(t);
    group.lemma_wf();
    assert(post.spec_archetypes().spec_table(t).wf());
    tbl_post.spec_descriptor().lemma_wf();

    // Directory -> table direction.
    assert forall|i: int| 0 <= i < dir_post.spec_num_slots()
        implies #[trigger] post.spec_slot_consistent(i) by {
        if dir_post.spec_slot(i).spec_is_valid() {
            if i == entity.spec_index() {
                assert(tbl_post.spec_entities()[row] == entity);
            } else {
                assert(i < pre.spec_directory().spec_num_slots());
                assert(dir_post.spec_slot(i) == dir_pre.spec_slot(i));
                assert(pre.spec_slot_consistent(i));
                let t2 = dir_pre.spec_slot(i).spec_archetype_index() as int;
                let r2 = dir_pre.spec_slot(i).spec_index_in_archetype() as int;
                assert(mid1.spec_archetypes().spec_table(t2)
                    == pre.spec_archetypes().spec_table(t2));
                if t2 == t {
                    assert(tbl_post.spec_entities()[r2] == tbl_mid.spec_entities()[r2]);
                } else {
                    assert(post.spec_archetypes().spec_table(t2)
                        == pre.spec_archetypes().spec_table(t2));
                }
            }
        }
    }
    // Table -> directory direction.
    assert forall|t2: int, r2: int| 0 <= t2 < post.spec_archetypes().spec_num_tables()
        && 0 <= r2 < post.spec_archetypes().spec_table(t2).spec_len()
        implies #[trigger] post.spec_row_consistent(t2, r2) by {
        if t2 == t && r2 == row {
            assert(tbl_post.spec_entities()[row] == entity);
        } else {
            let e2 = post.spec_archetypes().spec_table(t2).spec_entities()[r2];
            if t2 == t {
                assert(e2 == tbl_mid.spec_entities()[r2]);
            } else {
                assert(post.spec_archetypes().spec_table(t2)
                    == mid1.spec_archetypes().spec_table(t2));
            }
            assert(mid1.spec_row_consistent(t2, r2));
            assert(e2.spec_index() != entity.spec_index()) by {
                if e2.spec_index() == entity.spec_index() {
                    assert(dir_pre.spec_slot(e2.spec_index() as int).spec_is_valid());
                    assert(entity.spec_index() < dir_pre.spec_num_slots());
                    assert(false);
                }
            }
        }
    }
    // The live set grows by exactly the new entity.
    assert forall|e2: Entity| post.spec_live(e2) == (pre.spec_live(e2) || e2 == entity) by {
        if e2.spec_index() == entity.spec_index() {
            if pre.spec_live(e2) {
                assert(false);
            }
            if post.spec_live(e2) {
                crate::entity::lemma_entity_handle_determined(e2, entity);
            }
        } else {
            if 0 <= e2.spec_index() < dir_pre.spec_num_slots() {
                assert(dir_post.spec_slot(e2.spec_index() as int)
                    == dir_pre.spec_slot(e2.spec_index() as int));
            }
        }
    }
    // The new entity's components are the declared values.
    assert(post.spec_live(entity));
    assert(post.spec_archetype_of(entity) == t);
    assert(post.spec_row_of(entity) == row);
    assert forall|i: int| 0 <= i < components.len() implies post.spec_component_of(entity,
        (#[trigger] components[i]).spec_id()) == components[i].spec_data()
        && post.spec_has(entity, components[i].spec_id()) by {
        let q = group.spec_unsorted_to_sorted()[i] as int;
        assert(group.spec_sorted_to_unsorted()[q] == i);
        assert(components[i].spec_descriptor()
            == group.spec_archetype().spec_components()[q]);
        let comps = tbl_post.spec_descriptor().spec_components();
        assert(comps[q].spec_id() == components[i].spec_id());
        assert(tbl_post.spec_descriptor().spec_has_id(components[i].spec_id()));
        let fp = crate::archetype_descriptor::spec_find_pos(comps, components[i].spec_id());
        crate::archetype_descriptor::lemma_find_pos_properties(comps,
            components[i].spec_id());
        assert(post.spec_archetypes().spec_table(t).wf());
        tbl_post.spec_descriptor().lemma_wf();
        assert(fp == q) by {
            if fp != q {
                if fp < q {
                    assert(comps[fp].spec_id() < comps[q].spec_id());
                } else {
                    assert(comps[q].spec_id() < comps[fp].spec_id());
                }
            }
        }
        assert(tbl_post.spec_column(q)[row]
            == components[group.spec_sorted_to_unsorted()[q] as int].spec_data());
    }
    // Every previously live entity is untouched.
    assert forall|e2: Entity| #[trigger] pre.spec_live(e2) && e2 != entity implies {
        &&& post.spec_live(e2)
        &&& post.spec_descriptor_of(e2).spec_components()
            == pre.spec_descriptor_of(e2).spec_components()
        &&& post.spec_descriptor_of(e2).spec_archetype_id()
            == pre.spec_descriptor_of(e2).spec_archetype_id()
        &&& forall|id: u16| pre.spec_has(e2, id) ==> #[trigger] post.spec_component_of(e2, id)
            == pre.spec_component_of(e2, id)
    } by {
        assert(pre.spec_slot_consistent(e2.spec_index() as int));
        assert(e2.spec_index() != entity.spec_index());
        assert(dir_post.spec_slot(e2.spec_index() as int)
            == dir_pre.spec_slot(e2.spec_index() as int));
        let t2 = pre.spec_archetype_of(e2);
        let r2 = pre.spec_row_of(e2);
        assert(mid1.spec_archetypes().spec_table(t2) == pre.spec_archetypes().spec_table(t2));
        if t2 == t {
            assert(post.spec_descriptor_of(e2) == pre.spec_descriptor_of(e2));
            assert forall|id: u16| pre.spec_has(e2, id)
                implies #[trigger] post.spec_component_of(e2, id)
                == pre.spec_component_of(e2, id) by {
                let k = crate::archetype_descriptor::spec_find_pos(
                    pre.spec_descriptor_of(e2).spec_components(), id);
                crate::archetype_descriptor::lemma_find_pos_properties(
                    pre.spec_descriptor_of(e2).spec_components(), id);
                assert(r2 < tbl_mid.spec_len());
                assert(tbl_post.spec_column(k)[r2] == tbl_mid.spec_column(k)[r2]);
            }
        } else {
            assert(post.spec_archetypes().spec_table(t2)
                == pre.spec_archetypes().spec_table(t2));
        }
    }
}

/// Preservation of the other entities' state is transitive.
pub proof fn lemma_others_preserved_trans(a: Registry, b: Registry, c: Registry, except:
    Entity)
    requires
        Registry::others_preserved(a, b, except),
        Registry::others_preserved(b, c, except),
    ensures
        Registry::others_preserved(a, c, except),
{
    assert forall|e: Entity| #[trigger] a.spec_live(e) && e != except implies {
        &&& c.spec_live(e)
        &&& c.spec_descriptor_of(e).spec_components()
            == a.spec_descriptor_of(e).spec_components()
        &&& c.spec_descriptor_of(e).spec_archetype_id()
            == a.spec_descriptor_of(e).spec_archetype_id()
        &&& forall|id: u16| a.spec_has(e, id) ==> #[trigger] c.spec_component_of(e, id)
            == a.spec_component_of(e, id)
    } by {
        assert(b.spec_live(e));
        assert forall|id: u16| a.spec_has(e, id) implies #[trigger] c.spec_component_of(e, id)
            == a.spec_component_of(e, id) by {
            assert(b.spec_has(e, id));
            assert(b.spec_component_of(e, id) == a.spec_component_of(e, id));
            assert(c.spec_component_of(e, id) == b.spec_component_of(e, id));
        }
    }
}

/// Re-establishes the engine invariant after a destroy: `pre` is the state
/// before the table drop, `mid` after it, `mid2` after the displaced
/// entity's patch, `post` after the directory free.
#[verifier::rlimit(100)]
#[verifier::spinoff_prover]
proof fn lemma_destroy_wf(pre: Registry, mid: Registry, mid2: Registry, post: Registry,
    entity: Entity, t: int, row: int, moved: Entity, swapped: bool)
    requires
        pre.wf(),
        pre.spec_live(entity),
        t == pre.spec_archetype_of(entity),
        row == pre.spec_row_of(entity),
        0 <= t < pre.spec_archetypes().spec_num_tables(),
        0 <= row < pre.spec_archetypes().spec_table(t).spec_len(),
        moved == pre.spec_archetypes().spec_table(t).spec_entities()[
            pre.spec_archetypes().spec_table(t).spec_len() - 1],
        swapped == (row < pre.spec_archetypes().spec_table(t).spec_len() - 1),
        // The table after the drop.
        mid.spec_directory() == pre.spec_directory(),
        mid.spec_archetypes().wf(),
        mid.spec_archetypes().spec_num_tables() == pre.spec_archetypes().spec_num_tables(),
        forall|t2: int| 0 <= t2 < pre.spec_archetypes().spec_num_tables() && t2 != t
            ==> mid.spec_archetypes().spec_table(t2) == pre.spec_archetypes().spec_table(t2),
        mid.spec_archetypes().spec_table(t).spec_descriptor()
            == pre.spec_archetypes().spec_table(t).spec_descriptor(),
        mid.spec_archetypes().spec_table(t).spec_entities()
            == pre.spec_archetypes().spec_table(t).spec_entities().update(row,
                pre.spec_archetypes().spec_table(t).spec_entities().last()).drop_last(),
        forall|k: int| 0 <= k < pre.spec_archetypes().spec_table(t).spec_num_columns()
            ==> mid.spec_archetypes().spec_table(t).spec_column(k)
                == pre.spec_archetypes().spec_table(t).spec_column(k).update(row,
                    pre.spec_archetypes().spec_table(t).spec_column(k).last()).drop_last(),
        // The directory after the displaced entity's patch.
        mid2.spec_archetypes() == mid.spec_archetypes(),
        mid2.spec_directory().wf(),
        mid2.spec_directory().spec_num_slots() == pre.spec_directory().spec_num_slots(),
        (if swapped {
            &&& mid2.spec_directory().spec_slot(moved.spec_index() as int).spec_is_valid()
            &&& mid2.spec_directory().spec_slot(moved.spec_index() as int).spec_version()
                == pre.spec_directory().spec_slot(moved.spec_index() as int).spec_version()
            &&& mid2.spec_directory().spec_slot(moved.spec_index() as int)
                .spec_archetype_index() == pre.spec_directory().spec_slot(
                moved.spec_index() as int).spec_archetype_index()
            &&& mid2.spec_directory().spec_slot(moved.spec_index() as int)
                .spec_index_in_archetype() == row
            &&& forall|i: int| 0 <= i < pre.spec_directory().spec_num_slots()
                && i != moved.spec_index()
                ==> mid2.spec_directory().spec_slot(i) == pre.spec_directory().spec_slot(i)
        } else {
            mid2.spec_directory() == pre.spec_directory()
        }),
        // The directory after the free.
        post.spec_archetypes() == mid2.spec_archetypes(),
        post.spec_directory().wf(),
        post.spec_directory().spec_num_slots() == mid2.spec_directory().spec_num_slots(),
        !post.spec_directory().spec_slot(entity.spec_index() as int).spec_is_valid(),
        forall|i: int| 0 <= i < mid2.spec_directory().spec_num_slots()
            && i != entity.spec_index()
            ==> post.spec_directory().spec_slot(i) == mid2.spec_directory().spec_slot(i),
    ensures
        post.wf(),
        !post.spec_live(entity),
        forall|e2: Entity| post.spec_live(e2) == (pre.spec_live(e2) && e2 != entity),
        Registry::others_preserved(pre, post, entity),
{
    let dir_pre = pre.spec_directory();
    let dir_post = post.spec_directory();
    let tbl_pre = pre.spec_archetypes().spec_table(t);
    let tbl_post = post.spec_archetypes().spec_table(t);
    let last = tbl_pre.spec_len() - 1;

    assert(pre.spec_row_consistent(t, row));
    assert(pre.spec_row_consistent(t, last));
    assert(pre.spec_slot_consistent(entity.spec_index() as int));
    // The moved entity's slot differs from the destroyed entity's slot
    // unless no swap happened.
    if swapped {
        assert(moved.spec_index() != entity.spec_index());
    }

    // Directory -> table direction.
    assert forall|i: int| 0 <= i < dir_post.spec_num_slots()
        implies #[trigger] post.spec_slot_consistent(i) by {
        if dir_post.spec_slot(i).spec_is_valid() {
            assert(i != entity.spec_index());
            assert(pre.spec_slot_consistent(i));
            if swapped && i == moved.spec_index() {
                assert(pre.spec_row_consistent(t, last));
                assert(dir_pre.spec_slot(i).spec_archetype_index() == t);
                assert(dir_pre.spec_slot(i).spec_index_in_archetype() == last);
                assert(tbl_post.spec_entities()[row] == tbl_pre.spec_entities()[last]);
            } else {
                assert(dir_post.spec_slot(i) == dir_pre.spec_slot(i));
                let t2 = dir_pre.spec_slot(i).spec_archetype_index() as int;
                let r2 = dir_pre.spec_slot(i).spec_index_in_archetype() as int;
                if t2 == t {
                    // This slot's row is neither the dropped nor the moved row.
                    assert(pre.spec_row_consistent(t, r2));
                    if r2 == row {
                        assert(dir_pre.spec_slot(i) == dir_pre.spec_slot(
                            entity.spec_index() as int) || i == entity.spec_index());
                        assert(tbl_pre.spec_entities()[row].spec_index() == i);
                        assert(tbl_pre.spec_entities()[row].spec_index()
                            == entity.spec_index());
                        assert(false);
                    }
                    if r2 == last {
                        assert(tbl_pre.spec_entities()[last].spec_index() == i);
                        assert(i == moved.spec_index());
                        if swapped {
                            assert(false);
                        } else {
                            assert(row == last);
                            assert(false);
                        }
                    }
                    assert(tbl_post.spec_entities()[r2] == tbl_pre.spec_entities()[r2]);
                    assert(r2 < tbl_post.spec_len());
                } else {
                    assert(post.spec_archetypes().spec_table(t2)
                        == pre.spec_archetypes().spec_table(t2));
                }
            }
        }
    }
    // Table -> directory direction.
    assert forall|t2: int, r2: int| 0 <= t2 < post.spec_archetypes().spec_num_tables()
        && 0 <= r2 < post.spec_archetypes().spec_table(t2).spec_len()
        implies #[trigger] post.spec_row_consistent(t2, r2) by {
        if t2 == t {
            if swapped && r2 == row {
                assert(pre.spec_row_consistent(t, last));
                assert(tbl_post.spec_entities()[row] == tbl_pre.spec_entities()[last]);
                assert(moved.spec_index() != entity.spec_index());
            } else {
                assert(tbl_post.spec_entities()[r2] == tbl_pre.spec_entities()[r2]);
                assert(pre.spec_row_consistent(t, r2));
                let e2 = tbl_pre.spec_entities()[r2];
                assert(e2.spec_index() != entity.spec_index()) by {
                    if e2.spec_index() == entity.spec_index() {
                        assert(dir_pre.spec_slot(e2.spec_index() as int)
                            .spec_index_in_archetype() == r2);
                        assert(pre.spec_slot_consistent(entity.spec_index() as int));
                        assert(dir_pre.spec_slot(entity.spec_index() as int)
                            .spec_index_in_archetype() == row);
                        assert(r2 == row);
                        assert(!swapped);
                        assert(row == tbl_pre.spec_len() - 1);
                        assert(false);
                    }
                }
                if swapped && e2.spec_index() == moved.spec_index() {
                    assert(dir_pre.spec_slot(moved.spec_index() as int)
                        .spec_index_in_archetype() == last);
                    assert(pre.spec_row_consistent(t, last));
                    assert(r2 == last);
                    assert(false);
                }
            }
        } else {
            assert(post.spec_archetypes().spec_table(t2)
                == pre.spec_archetypes().spec_table(t2));
            assert(pre.spec_row_consistent(t2, r2));
            let e2 = pre.spec_archetypes().spec_table(t2).spec_entities()[r2];
            assert(e2.spec_index() != entity.spec_index()) by {
                if e2.spec_index() == entity.spec_index() {
                    assert(dir_pre.spec_slot(e2.spec_index() as int).spec_archetype_index()
                        == t2);
                    assert(pre.spec_slot_consistent(entity.spec_index() as int));
                    assert(false);
                }
            }
            if swapped && e2.spec_index() == moved.spec_index() {
                assert(dir_pre.spec_slot(moved.spec_index() as int).spec_archetype_index()
                    == t);
                assert(pre.spec_row_consistent(t2, r2));
                assert(false);
            }
        }
    }
    // The live set shrinks by exactly the destroyed entity.
    assert forall|e2: Entity| post.spec_live(e2) == (pre.spec_live(e2) && e2 != entity) by {
        if e2.spec_index() == entity.spec_index() {
            if post.spec_live(e2) {
                assert(false);
            }
            if pre.spec_live(e2) && e2 != entity {
                crate::entity::lemma_entity_handle_determined(e2, entity);
                assert(false);
            }
        } else {
            if 0 <= e2.spec_index() < dir_pre.spec_num_slots() {
                if swapped && e2.spec_index() == moved.spec_index() {
                    assert(dir_post.spec_slot(e2.spec_index() as int).spec_is_valid()
                        == dir_pre.spec_slot(e2.spec_index() as int).spec_is_valid());
                    assert(dir_post.spec_slot(e2.spec_index() as int).spec_version()
                        == dir_pre.spec_slot(e2.spec_index() as int).spec_version());
                } else {
                    assert(dir_post.spec_slot(e2.spec_index() as int)
                        == dir_pre.spec_slot(e2.spec_index() as int));
                }
            }
        }
    }
    // Every other live entity keeps its archetype and components.
    assert forall|e2: Entity| #[trigger] pre.spec_live(e2) && e2 != entity implies {
        &&& post.spec_live(e2)
        &&& post.spec_descriptor_of(e2).spec_components()
            == pre.spec_descriptor_of(e2).spec_components()
        &&& post.spec_descriptor_of(e2).spec_archetype_id()
            == pre.spec_descriptor_of(e2).spec_archetype_id()
        &&& forall|id: u16| pre.spec_has(e2, id) ==> #[trigger] post.spec_component_of(e2, id)
            == pre.spec_component_of(e2, id)
    } by {
        assert(pre.spec_slot_consistent(e2.spec_index() as int));
        let t2 = pre.spec_archetype_of(e2);
        let r2 = pre.spec_row_of(e2);
        if t2 != t {
            assert(post.spec_archetypes().spec_table(t2)
                == pre.spec_archetypes().spec_table(t2));
            assert(post.spec_descriptor_of(e2) == pre.spec_descriptor_of(e2));
            if swapped && e2.spec_index() == moved.spec_index() {
                assert(dir_pre.spec_slot(moved.spec_index() as int).spec_archetype_index()
                    == t);
                assert(false);
            }
            assert(post.spec_archetype_of(e2) == t2);
            assert(post.spec_row_of(e2) == r2);
            assert forall|id: u16| pre.spec_has(e2, id)
                implies #[trigger] post.spec_component_of(e2, id)
                == pre.spec_component_of(e2, id) by {
            }
        } else {
            // Same table as the destroyed entity.
            assert(pre.spec_row_consistent(t, r2));
            assert(tbl_pre.spec_entities()[r2].spec_index() == e2.spec_index());
            assert(e2.spec_index() != entity.spec_index()) by {
                if e2.spec_index() == entity.spec_index() {
                    crate::entity::lemma_entity_handle_determined(e2, entity);
                }
            }
            assert(r2 != row) by {
                if r2 == row {
                    assert(tbl_pre.spec_entities()[row].spec_index() == entity.spec_index());
                }
            }
            if swapped && e2.spec_index() == moved.spec_index() {
                // The displaced entity: moved from the last row to `row`.
                assert(r2 == last);
                assert(post.spec_archetype_of(e2) == t);
                assert(post.spec_row_of(e2) == row);
                assert(post.spec_descriptor_of(e2) == pre.spec_descriptor_of(e2));
                assert forall|id: u16| pre.spec_has(e2, id)
                    implies #[trigger] post.spec_component_of(e2, id)
                    == pre.spec_component_of(e2, id) by {
                    let k = crate::archetype_descriptor::spec_find_pos(
                        tbl_pre.spec_descriptor().spec_components(), id);
                    crate::archetype_descriptor::lemma_find_pos_properties(
                        tbl_pre.spec_descriptor().spec_components(), id);
                    assert(tbl_post.spec_column(k)[row] == tbl_pre.spec_column(k)[last]);
                }
            } else {
                assert(r2 != last) by {
                    if r2 == last {
                        assert(tbl_pre.spec_entities()[last].spec_index()
                            == moved.spec_index());
                        if swapped {
                        } else {
                            assert(row == last);
                        }
                    }
                }
                assert(post.spec_archetype_of(e2) == t);
                assert(post.spec_row_of(e2) == r2);
                assert(post.spec_descriptor_of(e2) == pre.spec_descriptor_of(e2));
                assert forall|id: u16| pre.spec_has(e2, id)
                    implies #[trigger] post.spec_component_of(e2, id)
                    == pre.spec_component_of(e2, id) by {
                    let k = crate::archetype_descriptor::spec_find_pos(
                        tbl_pre.spec_descriptor().spec_components(), id);
                    crate::archetype_descriptor::lemma_find_pos_properties(
                        tbl_pre.spec_descriptor().spec_components(), id);
                    assert(tbl_post.spec_column(k)[r2] == tbl_pre.spec_column(k)[r2]);
                }
            }
        }
    }
}


/// Relates the values of a row extended by one component to the extended
/// archetype: each merged value matches the destination component list.
proof fn lemma_merged_matches(scomps: Seq<ComponentDescriptor>,
    dcomps: Seq<ComponentDescriptor>, comps: Seq<ComponentValue>,
    merged: Seq<ComponentValue>, component: ComponentValue, p: int)
    requires
        0 <= p <= scomps.len(),
        dcomps == scomps.take(p).push(component.spec_descriptor()) + scomps.skip(p),
        comps.len() == scomps.len(),
        forall|k: int| 0 <= k < comps.len() ==> (#[trigger] comps[k]).spec_descriptor()
            == scomps[k],
        merged == comps.insert(p, component),
    ensures
        merged.len() == dcomps.len(),
        forall|k: int| 0 <= k < merged.len() ==> (#[trigger] merged[k]).spec_descriptor()
            == dcomps[k],
{
    assert forall|k: int| 0 <= k < merged.len() implies (#[trigger] merged[k])
        .spec_descriptor() == dcomps[k] by {
        if k < p {
            assert(merged[k] == comps[k]);
            assert(dcomps[k] == scomps[k]);
        } else if k == p {
            assert(merged[k] == component);
            assert(dcomps[k] == component.spec_descriptor());
        } else {
            assert(merged[k] == comps[k - 1]);
            assert(dcomps[k] == scomps[k - 1]);
        }
    }
}

/// After inserting a new component at position `p`, every old component id
/// is still present and looks up to its old value.
proof fn lemma_added_component_lookup(scomps: Seq<ComponentDescriptor>,
    dcomps: Seq<ComponentDescriptor>, comps: Seq<ComponentValue>,
    merged: Seq<ComponentValue>, component: ComponentValue, p: int, id: u16)
    requires
        crate::archetype_descriptor::ids_strictly_sorted(scomps),
        crate::archetype_descriptor::ids_strictly_sorted(dcomps),
        0 <= p <= scomps.len(),
        dcomps == scomps.take(p).push(component.spec_descriptor()) + scomps.skip(p),
        comps.len() == scomps.len(),
        forall|k: int| 0 <= k < comps.len() ==> (#[trigger] comps[k]).spec_descriptor()
            == scomps[k],
        merged == comps.insert(p, component),
        crate::archetype_descriptor::ids_contain(scomps, id),
        component.spec_descriptor().spec_id() != id,
    ensures
        crate::archetype_descriptor::ids_contain(dcomps, id),
        merged[crate::archetype_descriptor::spec_find_pos(dcomps, id)].spec_data()
            == comps[crate::archetype_descriptor::spec_find_pos(scomps, id)].spec_data(),
{
    let fs = crate::archetype_descriptor::spec_find_pos(scomps, id);
    crate::archetype_descriptor::lemma_find_pos_properties(scomps, id);
    let fd = if fs < p { fs } else { fs + 1 };
    assert(dcomps[fd].spec_id() == id) by {
        if fs < p {
            assert(dcomps[fd] == scomps[fs]);
        } else {
            assert(dcomps[fd] == scomps[fs]);
        }
    }
    assert forall|i: int| 0 <= i < fd implies dcomps[i].spec_id() != id by {
        if i < p {
            assert(dcomps[i] == scomps[i]);
            assert(i < fs);
        } else if i == p {
            assert(dcomps[i] == component.spec_descriptor());
        } else {
            assert(dcomps[i] == scomps[i - 1]);
            assert(i - 1 < fs);
        }
    }
    crate::archetype_descriptor::lemma_find_pos_matches(dcomps, id, fd);
    assert(merged[fd].spec_data() == comps[fs].spec_data()) by {
        if fs < p {
            assert(merged[fd] == comps[fs]);
        } else {
            assert(merged[fd] == comps[fs]);
        }
    }
}

/// Relates the values of a row with one component removed to the reduced
/// archetype: each remaining value matches the destination component list.
proof fn lemma_removed_matches(scomps: Seq<ComponentDescriptor>,
    dcomps: Seq<ComponentDescriptor>, comps: Seq<ComponentValue>,
    merged: Seq<ComponentValue>, id: u16, p: int)
    requires
        0 <= p < scomps.len(),
        dcomps == scomps.remove(p),
        comps.len() == scomps.len(),
        forall|k: int| 0 <= k < comps.len() ==> (#[trigger] comps[k]).spec_descriptor()
            == scomps[k],
        merged == comps.remove(p),
    ensures
        merged.len() == dcomps.len(),
        forall|k: int| 0 <= k < merged.len() ==> (#[trigger] merged[k]).spec_descriptor()
            == dcomps[k],
{
    assert forall|k: int| 0 <= k < merged.len() implies (#[trigger] merged[k])
        .spec_descriptor() == dcomps[k] by {
        if k < p {
            assert(merged[k] == comps[k]);
            assert(dcomps[k] == scomps[k]);
        } else {
            assert(merged[k] == comps[k + 1]);
            assert(dcomps[k] == scomps[k + 1]);
        }
    }
}

/// Removing the component with id `id` removes the id from the archetype.
proof fn lemma_removed_no_id(scomps: Seq<ComponentDescriptor>,
    dcomps: Seq<ComponentDescriptor>, p: int, id: u16)
    requires
        crate::archetype_descriptor::ids_strictly_sorted(scomps),
        0 <= p < scomps.len(),
        scomps[p].spec_id() == id,
        dcomps == scomps.remove(p),
    ensures
        !crate::archetype_descriptor::ids_contain(dcomps, id),
{
    assert forall|k: int| 0 <= k < dcomps.len() implies dcomps[k].spec_id() != id by {
        if k < p {
            assert(dcomps[k] == scomps[k]);
        } else {
            assert(dcomps[k] == scomps[k + 1]);
        }
    }
}

/// After removing one component, every other component id still looks up
/// to its old value.
proof fn lemma_removed_component_lookup(scomps: Seq<ComponentDescriptor>,
    dcomps: Seq<ComponentDescriptor>, comps: Seq<ComponentValue>,
    merged: Seq<ComponentValue>, p: int, removed_id: u16, id: u16)
    requires
        crate::archetype_descriptor::ids_strictly_sorted(scomps),
        0 <= p < scomps.len(),
        scomps[p].spec_id() == removed_id,
        dcomps == scomps.remove(p),
        comps.len() == scomps.len(),
        forall|k: int| 0 <= k < comps.len() ==> (#[trigger] comps[k]).spec_descriptor()
            == scomps[k],
        merged == comps.remove(p),
        crate::archetype_descriptor::ids_contain(scomps, id),
        id != removed_id,
    ensures
        crate::archetype_descriptor::ids_contain(dcomps, id),
        merged[crate::archetype_descriptor::spec_find_pos(dcomps, id)].spec_data()
            == comps[crate::archetype_descriptor::spec_find_pos(scomps, id)].spec_data(),
{
    let fs = crate::archetype_descriptor::spec_find_pos(scomps, id);
    crate::archetype_descriptor::lemma_find_pos_properties(scomps, id);
    assert(fs != p);
    let fd = if fs < p { fs } else { fs - 1 };
    assert(dcomps[fd].spec_id() == id) by {
        if fs < p {
            assert(dcomps[fd] == scomps[fs]);
        } else {
            assert(dcomps[fd] == scomps[fs]);
        }
    }
    assert forall|i: int| 0 <= i < fd implies dcomps[i].spec_id() != id by {
        if i < p {
            assert(dcomps[i] == scomps[i]);
            assert(i < fs);
        } else {
            assert(dcomps[i] == scomps[i + 1]);
            assert(i + 1 < fs);
        }
    }
    crate::archetype_descriptor::lemma_find_pos_matches(dcomps, id, fd);
    assert(merged[fd].spec_data() == comps[fs].spec_data()) by {
        if fs < p {
            assert(merged[fd] == comps[fs]);
        } else {
            assert(merged[fd] == comps[fs]);
        }
    }
}

/// Re-establishes the engine invariant after moving one entity's row from
/// table `t` to table `dst`: `pre` is the initial state, `g` after the
/// destination table was resolved or created, `m` after the source row was
/// swapped to the end (with the displaced entity's slot patched), `p3`
/// after the source row was popped, `p4` after the merged row was pushed
/// onto the destination, `post` after the entity's directory slot was
/// repointed.
#[verifier::rlimit(100)]
#[verifier::spinoff_prover]
proof fn lemma_move_entity_wf(pre: Registry, g: Registry, m: Registry, p3: Registry,
    p4: Registry, post: Registry, entity: Entity, t: int, row: int, dst: int,
    moved: Entity, swapped: bool, merged: Seq<ComponentValue>)
    requires
        pre.wf(),
        pre.spec_live(entity),
        t == pre.spec_archetype_of(entity),
        row == pre.spec_row_of(entity),
        0 <= t < pre.spec_archetypes().spec_num_tables(),
        0 <= row < pre.spec_archetypes().spec_table(t).spec_len(),
        // Tables grown.
        g.wf(),
        g.spec_directory() == pre.spec_directory(),
        forall|t2: int| 0 <= t2 < pre.spec_archetypes().spec_num_tables()
            ==> g.spec_archetypes().spec_table(t2) == pre.spec_archetypes().spec_table(t2),
        g.spec_archetypes().spec_num_tables() >= pre.spec_archetypes().spec_num_tables(),
        0 <= dst < g.spec_archetypes().spec_num_tables(),
        dst != t,
        g.spec_archetypes().spec_table(dst).spec_len() < 16777215,
        forall|t2: int| pre.spec_archetypes().spec_num_tables() <= t2
            < g.spec_archetypes().spec_num_tables()
            ==> (#[trigger] g.spec_archetypes().spec_table(t2)).spec_len() == 0,
        // Swap to last, with the displaced slot patched.
        moved == g.spec_archetypes().spec_table(t).spec_entities()[
            g.spec_archetypes().spec_table(t).spec_len() - 1],
        swapped == (row < g.spec_archetypes().spec_table(t).spec_len() - 1),
        m.spec_archetypes().wf(),
        m.spec_archetypes().spec_num_tables() == g.spec_archetypes().spec_num_tables(),
        forall|t2: int| 0 <= t2 < g.spec_archetypes().spec_num_tables() && t2 != t
            ==> m.spec_archetypes().spec_table(t2) == g.spec_archetypes().spec_table(t2),
        m.spec_archetypes().spec_table(t).spec_descriptor()
            == g.spec_archetypes().spec_table(t).spec_descriptor(),
        m.spec_archetypes().spec_table(t).spec_len()
            == g.spec_archetypes().spec_table(t).spec_len(),
        m.spec_archetypes().spec_table(t).spec_entities()
            == g.spec_archetypes().spec_table(t).spec_entities().update(row,
                g.spec_archetypes().spec_table(t).spec_entities().last()).update(
                g.spec_archetypes().spec_table(t).spec_len() - 1,
                g.spec_archetypes().spec_table(t).spec_entities()[row]),
        forall|k: int| 0 <= k < g.spec_archetypes().spec_table(t).spec_num_columns()
            ==> m.spec_archetypes().spec_table(t).spec_column(k)
                == g.spec_archetypes().spec_table(t).spec_column(k).update(row,
                    g.spec_archetypes().spec_table(t).spec_column(k).last()).update(
                    g.spec_archetypes().spec_table(t).spec_len() - 1,
                    g.spec_archetypes().spec_table(t).spec_column(k)[row]),
        m.spec_directory().wf(),
        m.spec_directory().spec_num_slots() == pre.spec_directory().spec_num_slots(),
        (if swapped {
            &&& m.spec_directory().spec_slot(moved.spec_index() as int).spec_is_valid()
            &&& m.spec_directory().spec_slot(moved.spec_index() as int).spec_version()
                == pre.spec_directory().spec_slot(moved.spec_index() as int).spec_version()
            &&& m.spec_directory().spec_slot(moved.spec_index() as int)
                .spec_archetype_index() == pre.spec_directory().spec_slot(
                moved.spec_index() as int).spec_archetype_index()
            &&& m.spec_directory().spec_slot(moved.spec_index() as int)
                .spec_index_in_archetype() == row
            &&& forall|i: int| 0 <= i < pre.spec_directory().spec_num_slots()
                && i != moved.spec_index()
                ==> m.spec_directory().spec_slot(i) == pre.spec_directory().spec_slot(i)
        } else {
            m.spec_directory() == pre.spec_directory()
        }),
        // Pop of the source row.
        p3.spec_directory() == m.spec_directory(),
        p3.spec_archetypes().wf(),
        p3.spec_archetypes().spec_num_tables() == m.spec_archetypes().spec_num_tables(),
        forall|t2: int| 0 <= t2 < m.spec_archetypes().spec_num_tables() && t2 != t
            ==> p3.spec_archetypes().spec_table(t2) == m.spec_archetypes().spec_table(t2),
        p3.spec_archetypes().spec_table(t).spec_descriptor()
            == m.spec_archetypes().spec_table(t).spec_descriptor(),
        p3.spec_archetypes().spec_table(t).spec_len()
            == m.spec_archetypes().spec_table(t).spec_len() - 1,
        p3.spec_archetypes().spec_table(t).spec_entities()
            == m.spec_archetypes().spec_table(t).spec_entities().drop_last(),
        forall|k: int| 0 <= k < m.spec_archetypes().spec_table(t).spec_num_columns()
            ==> p3.spec_archetypes().spec_table(t).spec_column(k)
                == m.spec_archetypes().spec_table(t).spec_column(k).drop_last(),
        // Push of the merged row.
        p4.spec_directory() == p3.spec_directory(),
        p4.spec_archetypes().wf(),
        p4.spec_archetypes().spec_num_tables() == p3.spec_archetypes().spec_num_tables(),
        forall|t2: int| 0 <= t2 < p3.spec_archetypes().spec_num_tables() && t2 != dst
            ==> p4.spec_archetypes().spec_table(t2) == p3.spec_archetypes().spec_table(t2),
        p4.spec_archetypes().spec_table(dst).spec_descriptor()
            == p3.spec_archetypes().spec_table(dst).spec_descriptor(),
        p4.spec_archetypes().spec_table(dst).spec_len()
            == p3.spec_archetypes().spec_table(dst).spec_len() + 1,
        p4.spec_archetypes().spec_table(dst).spec_entities()
            == p3.spec_archetypes().spec_table(dst).spec_entities().push(entity),
        forall|k: int| 0 <= k < p3.spec_archetypes().spec_table(dst).spec_num_columns()
            ==> p4.spec_archetypes().spec_table(dst).spec_column(k)
                == p3.spec_archetypes().spec_table(dst).spec_column(k).push(
                    merged[k].spec_data()),
        merged.len() == p3.spec_archetypes().spec_table(dst).spec_num_columns(),
        // The directory repoint.
        post.spec_archetypes() == p4.spec_archetypes(),
        post.spec_directory().wf(),
        post.spec_directory().spec_num_slots() == p4.spec_directory().spec_num_slots(),
        post.spec_directory().spec_slot(entity.spec_index() as int).spec_is_valid(),
        post.spec_directory().spec_slot(entity.spec_index() as int).spec_version()
            == p4.spec_directory().spec_slot(entity.spec_index() as int).spec_version(),
        post.spec_directory().spec_slot(entity.spec_index() as int).spec_archetype_index()
            == dst,
        post.spec_directory().spec_slot(entity.spec_index() as int)
            .spec_index_in_archetype() == g.spec_archetypes().spec_table(dst).spec_len(),
        forall|i: int| 0 <= i < p4.spec_directory().spec_num_slots()
            && i != entity.spec_index()
            ==> post.spec_directory().spec_slot(i) == p4.spec_directory().spec_slot(i),
    ensures
        post.wf(),
        post.spec_live(entity),
        post.spec_archetype_of(entity) == dst,
        post.spec_row_of(entity) == g.spec_archetypes().spec_table(dst).spec_len(),
        post.spec_descriptor_of(entity)
            == g.spec_archetypes().spec_table(dst).spec_descriptor(),
        forall|id: u16| crate::archetype_descriptor::ids_contain(
            g.spec_archetypes().spec_table(dst).spec_descriptor().spec_components(), id)
            ==> post.spec_component_of(entity, id) == merged[
                #[trigger] crate::archetype_descriptor::spec_find_pos(
                    g.spec_archetypes().spec_table(dst).spec_descriptor()
                        .spec_components(), id)].spec_data() && post.spec_has(entity, id),
        forall|e2: Entity| post.spec_live(e2) == pre.spec_live(e2),
        Registry::others_preserved(pre, post, entity),
{
    let dir_pre = pre.spec_directory();
    let dir_post = post.spec_directory();
    let tbl_pre = pre.spec_archetypes().spec_table(t);
    let tbl_p3 = p3.spec_archetypes().spec_table(t);
    let tbl_post = post.spec_archetypes().spec_table(t);
    let dtbl_g = g.spec_archetypes().spec_table(dst);
    let dtbl_post = post.spec_archetypes().spec_table(dst);
    let srclen = tbl_pre.spec_len();
    let dlen = dtbl_g.spec_len();

    assert(pre.spec_slot_consistent(entity.spec_index() as int));
    assert(pre.spec_row_consistent(t, row));
    assert(pre.spec_row_consistent(t, srclen - 1));
    crate::entity::lemma_entity_handle_determined(tbl_pre.spec_entities()[row], entity);
    if swapped {
        assert(moved.spec_index() != entity.spec_index());
    }
    // The moved-to row of the destination holds the entity itself.
    assert(dtbl_post.spec_entities()[dlen as int] == entity);
    assert(dtbl_post.spec_len() == dlen + 1);

    // Source rows after the pop: row r2 of p3/post table t.
    assert forall|r2: int| 0 <= r2 < tbl_post.spec_len()
        implies tbl_post.spec_entities()[r2] == (if swapped && r2 == row {
            moved
        } else {
            tbl_pre.spec_entities()[r2]
        }) by {
    }

    // Directory -> table direction.
    assert forall|i: int| 0 <= i < dir_post.spec_num_slots()
        implies #[trigger] post.spec_slot_consistent(i) by {
        if dir_post.spec_slot(i).spec_is_valid() {
            if i == entity.spec_index() {
                assert(dtbl_post.spec_entities()[dlen as int] == entity);
            } else if swapped && i == moved.spec_index() {
                assert(pre.spec_row_consistent(t, srclen - 1));
                assert(dir_pre.spec_slot(i).spec_archetype_index() == t);
                assert(tbl_post.spec_entities()[row] == moved);
                assert(row < tbl_post.spec_len());
            } else {
                assert(dir_post.spec_slot(i) == dir_pre.spec_slot(i));
                assert(pre.spec_slot_consistent(i));
                let t2 = dir_pre.spec_slot(i).spec_archetype_index() as int;
                let r2 = dir_pre.spec_slot(i).spec_index_in_archetype() as int;
                assert(pre.spec_row_consistent(t2, r2));
                if t2 == t {
                    assert(r2 != row) by {
                        if r2 == row {
                            assert(tbl_pre.spec_entities()[row].spec_index() == i);
                        }
                    }
                    assert(r2 != srclen - 1) by {
                        if r2 == srclen - 1 {
                            assert(tbl_pre.spec_entities()[srclen - 1].spec_index() == i);
                            assert(i == moved.spec_index());
                            if swapped {
                            } else {
                                assert(row == srclen - 1);
                            }
                        }
                    }
                    assert(tbl_post.spec_entities()[r2] == tbl_pre.spec_entities()[r2]);
                } else if t2 == dst {
                    assert(r2 < dlen);
                    assert(dtbl_post.spec_entities()[r2] == dtbl_g.spec_entities()[r2]);
                } else {
                    assert(post.spec_archetypes().spec_table(t2)
                        == pre.spec_archetypes().spec_table(t2));
                }
            }
        }
    }
    // Table -> directory direction.
    assert forall|t2: int, r2: int| 0 <= t2 < post.spec_archetypes().spec_num_tables()
        && 0 <= r2 < post.spec_archetypes().spec_table(t2).spec_len()
        implies #[trigger] post.spec_row_consistent(t2, r2) by {
        if t2 == t {
            if swapped && r2 == row {
                assert(tbl_post.spec_entities()[row] == moved);
                assert(pre.spec_row_consistent(t, srclen - 1));
            } else {
                let e2 = tbl_pre.spec_entities()[r2];
                assert(tbl_post.spec_entities()[r2] == e2);
                assert(pre.spec_row_consistent(t, r2));
                assert(e2.spec_index() != entity.spec_index()) by {
                    if e2.spec_index() == entity.spec_index() {
                        assert(dir_pre.spec_slot(e2.spec_index() as int)
                            .spec_index_in_archetype() == r2);
                        assert(r2 == row);
                        assert(!swapped);
                        assert(row == srclen - 1);
                    }
                }
                assert((swapped && e2.spec_index() == moved.spec_index()) == false) by {
                    if swapped && e2.spec_index() == moved.spec_index() {
                        assert(dir_pre.spec_slot(moved.spec_index() as int)
                            .spec_index_in_archetype() == srclen - 1);
                        assert(r2 == srclen - 1);
                    }
                }
                assert(dir_post.spec_slot(e2.spec_index() as int)
                    == dir_pre.spec_slot(e2.spec_index() as int));
            }
        } else if t2 == dst {
            if r2 == dlen {
                assert(dtbl_post.spec_entities()[r2] == entity);
            } else {
                let e2 = dtbl_g.spec_entities()[r2];
                assert(dtbl_post.spec_entities()[r2] == e2);
                assert(dst < pre.spec_archetypes().spec_num_tables()) by {
                    if dst >= pre.spec_archetypes().spec_num_tables() {
                        assert(dlen == 0);
                    }
                }
                assert(pre.spec_row_consistent(dst, r2));
                assert(e2.spec_index() != entity.spec_index()) by {
                    if e2.spec_index() == entity.spec_index() {
                        assert(dir_pre.spec_slot(e2.spec_index() as int)
                            .spec_archetype_index() == dst);
                    }
                }
                assert((swapped && e2.spec_index() == moved.spec_index()) == false) by {
                    if swapped && e2.spec_index() == moved.spec_index() {
                        assert(dir_pre.spec_slot(moved.spec_index() as int)
                            .spec_archetype_index() == t);
                        assert(dir_pre.spec_slot(e2.spec_index() as int)
                            .spec_archetype_index() == dst);
                    }
                }
                assert(dir_post.spec_slot(e2.spec_index() as int)
                    == dir_pre.spec_slot(e2.spec_index() as int));
            }
        } else {
            if t2 < pre.spec_archetypes().spec_num_tables() {
                assert(post.spec_archetypes().spec_table(t2)
                    == pre.spec_archetypes().spec_table(t2));
                let e2 = pre.spec_archetypes().spec_table(t2).spec_entities()[r2];
                assert(pre.spec_row_consistent(t2, r2));
                assert(e2.spec_index() != entity.spec_index()) by {
                    if e2.spec_index() == entity.spec_index() {
                        assert(dir_pre.spec_slot(e2.spec_index() as int)
                            .spec_archetype_index() == t2);
                    }
                }
                assert((swapped && e2.spec_index() == moved.spec_index()) == false) by {
                    if swapped && e2.spec_index() == moved.spec_index() {
                        assert(dir_pre.spec_slot(moved.spec_index() as int)
                            .spec_archetype_index() == t);
                    }
                }
                assert(dir_post.spec_slot(e2.spec_index() as int)
                    == dir_pre.spec_slot(e2.spec_index() as int));
            } else {
                assert(post.spec_archetypes().spec_table(t2)
                    == g.spec_archetypes().spec_table(t2));
                assert(g.spec_archetypes().spec_table(t2).spec_len() == 0);
            }
        }
    }
    // The live set is unchanged.
    assert forall|e2: Entity| post.spec_live(e2) == pre.spec_live(e2) by {
        if 0 <= e2.spec_index() < dir_pre.spec_num_slots() {
            assert(dir_post.spec_slot(e2.spec_index() as int).spec_is_valid()
                == dir_pre.spec_slot(e2.spec_index() as int).spec_is_valid());
            assert(dir_post.spec_slot(e2.spec_index() as int).spec_version()
                == dir_pre.spec_slot(e2.spec_index() as int).spec_version());
        }
    }
    // The moved entity's own location and components.
    assert(post.spec_live(entity));
    assert(post.spec_archetype_of(entity) == dst);
    assert(post.spec_row_of(entity) == dlen);
    assert forall|id: u16| crate::archetype_descriptor::ids_contain(
        dtbl_g.spec_descriptor().spec_components(), id)
        implies post.spec_component_of(entity, id) == merged[
            #[trigger] crate::archetype_descriptor::spec_find_pos(
                dtbl_g.spec_descriptor().spec_components(), id)].spec_data()
            && post.spec_has(entity, id) by {
        let fp = crate::archetype_descriptor::spec_find_pos(
            dtbl_g.spec_descriptor().spec_components(), id);
        crate::archetype_descriptor::lemma_find_pos_properties(
            dtbl_g.spec_descriptor().spec_components(), id);
        assert(dtbl_post.spec_column(fp)[dlen as int] == merged[fp].spec_data());
    }
    // Every other live entity keeps its state.
    assert forall|e2: Entity| #[trigger] pre.spec_live(e2) && e2 != entity implies {
        &&& post.spec_live(e2)
        &&& post.spec_descriptor_of(e2).spec_components()
            == pre.spec_descriptor_of(e2).spec_components()
        &&& post.spec_descriptor_of(e2).spec_archetype_id()
            == pre.spec_descriptor_of(e2).spec_archetype_id()
        &&& forall|id: u16| pre.spec_has(e2, id) ==> #[trigger] post.spec_component_of(e2, id)
            == pre.spec_component_of(e2, id)
    } by {
        assert(pre.spec_slot_consistent(e2.spec_index() as int));
        assert(e2.spec_index() != entity.spec_index()) by {
            if e2.spec_index() == entity.spec_index() {
                crate::entity::lemma_entity_handle_determined(e2, entity);
            }
        }
        let t2 = pre.spec_archetype_of(e2);
        let r2 = pre.spec_row_of(e2);
        assert(pre.spec_row_consistent(t2, r2));
        if swapped && e2.spec_index() == moved.spec_index() {
            // The displaced entity: moved from the last source row to `row`.
            assert(t2 == t);
            assert(r2 == srclen - 1);
            assert(post.spec_archetype_of(e2) == t);
            assert(post.spec_row_of(e2) == row);
            assert(post.spec_descriptor_of(e2) == pre.spec_descriptor_of(e2));
            assert forall|id: u16| pre.spec_has(e2, id)
                implies #[trigger] post.spec_component_of(e2, id)
                == pre.spec_component_of(e2, id) by {
                let k = crate::archetype_descriptor::spec_find_pos(
                    tbl_pre.spec_descriptor().spec_components(), id);
                crate::archetype_descriptor::lemma_find_pos_properties(
                    tbl_pre.spec_descriptor().spec_components(), id);
                assert(tbl_post.spec_column(k)[row] == tbl_pre.spec_column(k)[srclen - 1]);
            }
        } else {
            assert(post.spec_archetype_of(e2) == t2);
            if t2 == t {
                assert(r2 != row);
                assert(r2 != srclen - 1) by {
                    if r2 == srclen - 1 {
                        assert(tbl_pre.spec_entities()[srclen - 1].spec_index()
                            == e2.spec_index());
                        if swapped {
                        } else {
                            assert(row == srclen - 1);
                        }
                    }
                }
                assert(post.spec_row_of(e2) == r2);
                assert(post.spec_descriptor_of(e2) == pre.spec_descriptor_of(e2));
                assert forall|id: u16| pre.spec_has(e2, id)
                    implies #[trigger] post.spec_component_of(e2, id)
                    == pre.spec_component_of(e2, id) by {
                    let k = crate::archetype_descriptor::spec_find_pos(
                        tbl_pre.spec_descriptor().spec_components(), id);
                    crate::archetype_descriptor::lemma_find_pos_properties(
                        tbl_pre.spec_descriptor().spec_components(), id);
                    assert(tbl_post.spec_column(k)[r2] == tbl_pre.spec_column(k)[r2]);
                }
            } else if t2 == dst {
                assert(r2 < dlen);
                assert(post.spec_row_of(e2) == r2);
                assert(post.spec_descriptor_of(e2) == pre.spec_descriptor_of(e2));
                assert forall|id: u16| pre.spec_has(e2, id)
                    implies #[trigger] post.spec_component_of(e2, id)
                    == pre.spec_component_of(e2, id) by {
                    let k = crate::archetype_descriptor::spec_find_pos(
                        dtbl_g.spec_descriptor().spec_components(), id);
                    crate::archetype_descriptor::lemma_find_pos_properties(
                        dtbl_g.spec_descriptor().spec_components(), id);
                    assert(dtbl_post.spec_column(k)[r2] == dtbl_g.spec_column(k)[r2]);
                }
            } else {
                assert(post.spec_archetypes().spec_table(t2)
                    == pre.spec_archetypes().spec_table(t2));
            }
        }
    }
}


/// Changing only component bytes of one table (no entities, no
/// descriptors) keeps the engine invariant, which speaks of locations only.
proof fn lemma_write_wf(pre: Registry, post: Registry, t: int)
    requires
        pre.wf(),
        post.spec_directory() == pre.spec_directory(),
        post.spec_archetypes().wf(),
        post.spec_archetypes().spec_num_tables() == pre.spec_archetypes().spec_num_tables(),
        0 <= t < pre.spec_archetypes().spec_num_tables(),
        forall|t2: int| 0 <= t2 < pre.spec_archetypes().spec_num_tables() && t2 != t
            ==> post.spec_archetypes().spec_table(t2) == pre.spec_archetypes().spec_table(t2),
        post.spec_archetypes().spec_table(t).spec_descriptor()
            == pre.spec_archetypes().spec_table(t).spec_descriptor(),
        post.spec_archetypes().spec_table(t).spec_entities()
            == pre.spec_archetypes().spec_table(t).spec_entities(),
        post.spec_archetypes().spec_table(t).spec_len()
            == pre.spec_archetypes().spec_table(t).spec_len(),
    ensures
        post.wf(),
        forall|e2: Entity| post.spec_live(e2) == pre.spec_live(e2),
{
    assert forall|i: int| 0 <= i < post.spec_directory().spec_num_slots()
        implies #[trigger] post.spec_slot_consistent(i) by {
        assert(pre.spec_slot_consistent(i));
    }
    assert forall|t2: int, r2: int| 0 <= t2 < post.spec_archetypes().spec_num_tables()
        && 0 <= r2 < post.spec_archetypes().spec_table(t2).spec_len()
        implies #[trigger] post.spec_row_consistent(t2, r2) by {
        assert(pre.spec_row_consistent(t2, r2));
    }
}

} // verus!
