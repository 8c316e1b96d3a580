use vstd::prelude::*;

verus! {

/// Number of bits of an entity handle that carry the directory slot index.
pub const ENTITY_HANDLE_BITS: u8 = 24;

/// The largest value an entity slot index can take; also the slot capacity of
/// the directory.
pub const MAX_ENTITY_HANDLE_VALUE: u32 = 16777215;

/// Sentinel marking an empty free list in the entity directory.
pub const INVALID_ENTITY_HANDLE_VALUE: u32 = 16777216;

/// Number of bits of an entity handle that carry the generation counter.
pub const ENTITY_VERSION_BITS: u8 = 8;

/// The largest value an entity version can take.
pub const MAX_ENTITY_VERSION_VALUE: u8 = 255;

/// The maximum number of components a single entity may have.
pub const MAX_COMPONENTS_PER_ENTITY: usize = 14;

/// The maximum number of distinct archetypes a registry can hold.
pub const MAX_ARCHETYPE_COUNT: usize = 65534;

/// Valid archetype indices never take this value.
pub const INVALID_ARCHETYPE_INDEX: u16 = 65535;

/// The maximum number of rows a single archetype table can hold.
pub const MAX_ENTITIES_PER_ARCHETYPE: u32 = 16777215;

/// Row capacity reserved when the first row is pushed into an empty table.
pub const DEFAULT_ARCHETYPE_ALLOCATION_SIZE: usize = 128;

} // verus!
