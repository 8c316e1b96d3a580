use vstd::prelude::*;
use crate::component_type_id::ComponentTypeId;

verus! {

/// Describes one component type: its stable id and the byte size and
/// alignment of one value of it. A component value of this type is stored
/// as exactly `size` bytes.
#[derive(Clone, Copy, PartialEq, Eq, Structural, Debug, Hash)]
pub struct ComponentDescriptor {
    component_type_id: ComponentTypeId,
    size: u16,
    align: u16,
}

impl ComponentDescriptor {
    /// The component type id of this descriptor.
    pub closed spec fn spec_component_type_id(&self) -> ComponentTypeId {
        self.component_type_id
    }

    /// The numeric component type id of this descriptor.
    pub open spec fn spec_id(&self) -> u16 {
        self.spec_component_type_id().spec_value()
    }

    /// The byte size of one component value.
    pub closed spec fn spec_size(&self) -> u16 {
        self.size
    }

    /// The alignment of one component value.
    pub closed spec fn spec_align(&self) -> u16 {
        self.align
    }

    /// True unless the descriptor carries the reserved invalid id.
    pub open spec fn spec_is_valid(&self) -> bool {
        self.spec_component_type_id().spec_is_valid()
    }

    /// The reserved invalid component descriptor.
    pub fn invalid() -> (r: ComponentDescriptor)
        ensures
            !r.spec_is_valid(),
            r.spec_size() == 0,
            r.spec_align() == 0,
    {
        ComponentDescriptor {
            component_type_id: ComponentTypeId::invalid(),
            size: 0,
            align: 0,
        }
    }

    /// Builds a descriptor from its parts. An invalid id yields the invalid
    /// descriptor.
    pub fn new(component_type_id: ComponentTypeId, size: u16, align: u16) -> (r:
        ComponentDescriptor)
        ensures
            component_type_id.spec_is_valid() ==> {
                &&& r.spec_component_type_id() == component_type_id
                &&& r.spec_size() == size
                &&& r.spec_align() == align
            },
            !component_type_id.spec_is_valid() ==> !r.spec_is_valid(),
            r.spec_is_valid() == component_type_id.spec_is_valid(),
    {
        if !component_type_id.is_valid() {
            ComponentDescriptor::invalid()
        } else {
            ComponentDescriptor { component_type_id, size, align }
        }
    }

    /// The component type id of this descriptor.
    #[verifier::when_used_as_spec(spec_component_type_id)]
    pub fn component_type_id(&self) -> (r: ComponentTypeId)
        ensures
            r == self.spec_component_type_id(),
    {
        self.component_type_id
    }

    /// True unless the descriptor carries the reserved invalid id.
    #[verifier::when_used_as_spec(spec_is_valid)]
    pub fn is_valid(&self) -> (r: bool)
        ensures
            r == self.spec_is_valid(),
    {
        self.component_type_id.is_valid()
    }

    /// The byte size of one component value.
    #[verifier::when_used_as_spec(spec_size)]
    pub fn size(&self) -> (r: u16)
        ensures
            r == self.spec_size(),
    {
        self.size
    }

    /// The alignment of one component value.
    #[verifier::when_used_as_spec(spec_align)]
    pub fn align(&self) -> (r: u16)
        ensures
            r == self.spec_align(),
    {
        self.align
    }
}

} // verus!
