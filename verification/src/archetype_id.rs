use vstd::prelude::*;

verus! {

/// Identifies an archetype: the hash of its sorted component type ids.
/// The all-ones value is reserved as invalid.
#[derive(Clone, Copy, PartialEq, Eq, Structural, Debug, Hash)]
pub struct ArchetypeId {
    value: u32,
}

impl ArchetypeId {
    /// The numeric value of this id.
    pub closed spec fn spec_value(&self) -> u32 {
        self.value
    }

    /// True unless this is the reserved invalid id.
    pub open spec fn spec_is_valid(&self) -> bool {
        self.spec_value() != 0xffffffffu32
    }

    /// The reserved invalid archetype id.
    pub fn invalid() -> (r: ArchetypeId)
        ensures
            !r.spec_is_valid(),
    {
        ArchetypeId { value: 0xffffffff }
    }

    /// Wraps a raw 32-bit value as an archetype id.
    pub fn from_u32(v: u32) -> (r: ArchetypeId)
        ensures
            r.spec_value() == v,
    {
        ArchetypeId { value: v }
    }

    /// The numeric value of this id.
    pub fn into_u32(self) -> (r: u32)
        ensures
            r == self.spec_value(),
    {
        self.value
    }

    /// True unless this is the reserved invalid id.
    #[verifier::when_used_as_spec(spec_is_valid)]
    pub fn is_valid(&self) -> (r: bool)
        ensures
            r == self.spec_is_valid(),
    {
        self.value != 0xffffffff
    }

    /// The value as four bytes, low byte first.
    pub fn to_ne_bytes(self) -> (r: [u8; 4])
        ensures
            r@.len() == 4,
            r@[0] == self.spec_value() % 256,
            r@[1] == self.spec_value() / 256 % 256,
            r@[2] == self.spec_value() / 65536 % 256,
            r@[3] == self.spec_value() / 16777216 % 256,
    {
        let r: [u8; 4] = [
            (self.value % 256) as u8,
            (self.value / 256 % 256) as u8,
            (self.value / 65536 % 256) as u8,
            (self.value / 16777216 % 256) as u8,
        ];
        r
    }
}

/// Two archetype ids with the same numeric value are the same id.
pub proof fn lemma_archetype_id_determined(a: ArchetypeId, b: ArchetypeId)
    requires
        a.spec_value() == b.spec_value(),
    ensures
        a == b,
{
}

} // verus!
