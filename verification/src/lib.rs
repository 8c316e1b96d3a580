//! An archetype-based entity-component storage engine.
//!
//! Entities are opaque generational handles. Each entity owns a set of
//! components, stored as plain byte records keyed by a 16-bit component type
//! id. All entities sharing one component set (an archetype) live together in
//! one columnar table; a directory maps entity handles to their table and row.

mod constants;
mod fnv1a;
mod entity;
mod component_type_id;
mod archetype_id;
mod component_descriptor;
mod archetype_descriptor;
mod component_group_descriptor;
mod component_value;
mod index_in_archetype;
mod archetype_index;
mod entity_entry;
mod entity_registry;
mod archetype;
mod sorted_archetype_key;
mod archetype_registry;
mod registry;
mod laws;

pub use constants::{
    ENTITY_HANDLE_BITS, ENTITY_VERSION_BITS, MAX_ENTITY_HANDLE_VALUE, MAX_ENTITY_VERSION_VALUE,
    INVALID_ENTITY_HANDLE_VALUE, MAX_COMPONENTS_PER_ENTITY, MAX_ARCHETYPE_COUNT,
    INVALID_ARCHETYPE_INDEX, MAX_ENTITIES_PER_ARCHETYPE, DEFAULT_ARCHETYPE_ALLOCATION_SIZE,
};
pub use fnv1a::{fnv1a_spec, fnv1a_fold_16_spec, fnv1a_hash_32, fnv1a_hash_16_xor};
pub use entity::{Entity, lemma_entity_handle_determined};
pub use component_type_id::{ComponentTypeId, id_le_bytes};
pub use archetype_id::ArchetypeId;
pub use component_descriptor::ComponentDescriptor;
pub use archetype_descriptor::{
    ArchetypeDescriptor, ids_strictly_sorted, ids_contain, archetype_id_hash_input,
    archetype_id_value, spec_insert_pos, spec_find_pos, lemma_insert_pos_matches,
    lemma_find_pos_matches, lemma_sorted_insert, lemma_sorted_remove,
    lemma_find_pos_properties,
};
pub use component_group_descriptor::{
    ComponentGroupDescriptor, group_input_clean, is_sorted_variant, spec_sorted_variant,
    lemma_sorted_variant_unique,
};
pub use component_value::ComponentValue;
pub use index_in_archetype::{IndexInArchetype, lemma_index_in_archetype_determined};
pub use archetype_index::ArchetypeIndex;
pub use entity_entry::EntityEntry;
pub use entity_registry::EntityRegistry;
pub use archetype::{Archetype, column_view};
pub use sorted_archetype_key::SortedArchetypeKey;
pub use archetype_registry::{ArchetypeRegistry, spec_table_order};
pub use registry::Registry;
pub use registry::lemma_others_preserved_trans;
pub use laws::{
    lemma_directory_points_at_rows, lemma_rows_resolve_back,
    lemma_level_indices_sorted_and_unique, lemma_live_set_equals_back_pointers,
    lemma_create_destroy_preserves_others, lemma_add_remove_component_round_trip,
    lemma_group_order_irrelevant, lemma_projection_round_trip, lemma_swap_drop_invariance,
    lemma_entity_order_total, lemma_matching_enumeration_determined,
};
