use vstd::prelude::*;

verus! {

/// Identifies a component type. Derived by hashing the component's
/// program-unique name with the 16-bit folded FNV-1a hash; the all-ones
/// value is reserved as invalid.
#[derive(Clone, Copy, PartialEq, Eq, Structural, Debug, Hash)]
pub struct ComponentTypeId {
    value: u16,
}

impl ComponentTypeId {
    /// The numeric value of this id.
    pub closed spec fn spec_value(&self) -> u16 {
        self.value
    }

    /// True unless this is the reserved invalid id.
    pub open spec fn spec_is_valid(&self) -> bool {
        self.spec_value() != 0xffffu16
    }

    /// The reserved invalid component type id.
    pub fn invalid() -> (r: ComponentTypeId)
        ensures
            !r.spec_is_valid(),
    {
        ComponentTypeId { value: 0xffff }
    }

    /// Wraps a raw 16-bit value as a component type id.
    pub fn from_u16(v: u16) -> (r: ComponentTypeId)
        ensures
            r.spec_value() == v,
    {
        ComponentTypeId { value: v }
    }

    /// The numeric value of this id.
    pub fn into_u16(self) -> (r: u16)
        ensures
            r == self.spec_value(),
    {
        self.value
    }

    /// True unless this is the reserved invalid id.
    #[verifier::when_used_as_spec(spec_is_valid)]
    pub fn is_valid(&self) -> (r: bool)
        ensures
            r == self.spec_is_valid(),
    {
        self.value != 0xffff
    }

    /// The value as two bytes, low byte first.
    pub fn to_ne_bytes(self) -> (r: [u8; 2])
        ensures
            r@ == crate::component_type_id::id_le_bytes(self.spec_value()),
    {
        let lo: u8 = (self.value % 256) as u8;
        let hi: u8 = (self.value / 256) as u8;
        let r: [u8; 2] = [lo, hi];
        proof {
            assert(r@ =~= id_le_bytes(self.spec_value()));
        }
        r
    }
}

/// The two little-endian bytes of a 16-bit component type id.
pub open spec fn id_le_bytes(v: u16) -> Seq<u8> {
    seq![(v % 256) as u8, (v / 256) as u8]
}

} // verus!
