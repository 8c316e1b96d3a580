use vstd::prelude::*;
use crate::constants::MAX_ENTITY_HANDLE_VALUE;

verus! {

/// An opaque handle to an entity. The upper 24 bits of the raw value carry
/// the directory slot index, the lower 8 bits carry the generation counter.
/// The all-ones value is the reserved invalid handle.
#[derive(Clone, Copy, PartialEq, Eq, Structural, Debug, Hash)]
pub struct Entity {
    handle: u32,
}

impl Entity {
    /// The slot index encoded in this handle.
    pub closed spec fn spec_index(&self) -> u32 {
        self.handle / 256
    }

    /// The generation counter encoded in this handle.
    pub closed spec fn spec_version(&self) -> u8 {
        (self.handle % 256) as u8
    }

    /// The raw 32-bit value of this handle.
    pub closed spec fn spec_raw(&self) -> u32 {
        self.handle
    }

    /// True unless this is the reserved invalid handle.
    pub open spec fn spec_is_valid(&self) -> bool {
        self.spec_raw() != 0xffffffffu32
    }

    /// Builds the handle with the given slot index and version.
    pub fn new(index: u32, version: u8) -> (r: Entity)
        requires
            index <= MAX_ENTITY_HANDLE_VALUE,
        ensures
            r.spec_index() == index,
            r.spec_version() == version,
            r.spec_raw() == index * 256 + version,
    {
        Entity { handle: index * 256 + (version as u32) }
    }

    /// Rebuilds an entity from its raw 32-bit value.
    pub fn from_raw(raw: u32) -> (r: Entity)
        ensures
            r.spec_raw() == raw,
    {
        Entity { handle: raw }
    }

    /// The reserved invalid handle, as a specification value.
    pub closed spec fn spec_invalid() -> Entity {
        Entity { handle: 0xffffffffu32 }
    }

    /// The reserved invalid handle.
    pub fn invalid() -> (r: Entity)
        ensures
            !r.spec_is_valid(),
            r.spec_index() == MAX_ENTITY_HANDLE_VALUE,
            r.spec_version() == 255,
            r == Entity::spec_invalid(),
    {
        Entity { handle: 0xffffffff }
    }

    /// True unless this is the reserved invalid handle.
    #[verifier::when_used_as_spec(spec_is_valid)]
    pub fn is_valid(&self) -> (r: bool)
        ensures
            r == self.spec_is_valid(),
    {
        self.handle != 0xffffffff
    }

    /// The slot index encoded in this handle.
    #[verifier::when_used_as_spec(spec_index)]
    pub fn index(&self) -> (r: u32)
        ensures
            r == self.spec_index(),
            r <= MAX_ENTITY_HANDLE_VALUE,
    {
        self.handle / 256
    }

    /// The generation counter encoded in this handle.
    #[verifier::when_used_as_spec(spec_version)]
    pub fn version(&self) -> (r: u8)
        ensures
            r == self.spec_version(),
    {
        (self.handle % 256) as u8
    }

    /// Replaces the version part of the handle, keeping the index part.
    pub fn set_version(&mut self, version: u8)
        ensures
            final(self).spec_index() == old(self).spec_index(),
            final(self).spec_version() == version,
    {
        let idx: u32 = self.handle / 256;
        self.handle = idx * 256 + (version as u32);
    }

    /// The raw 32-bit value of this handle.
    #[verifier::when_used_as_spec(spec_raw)]
    pub fn raw(&self) -> (r: u32)
        ensures
            r == self.spec_raw(),
    {
        self.handle
    }
}

/// Two handles with the same index and version are the same handle.
pub proof fn lemma_entity_handle_determined(a: Entity, b: Entity)
    requires
        a.spec_index() == b.spec_index(),
        a.spec_version() == b.spec_version(),
    ensures
        a == b,
{
    assert(a.spec_raw() == a.spec_index() * 256 + a.spec_version());
    assert(b.spec_raw() == b.spec_index() * 256 + b.spec_version());
}

} // verus!
