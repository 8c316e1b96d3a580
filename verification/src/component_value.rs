use vstd::prelude::*;
use crate::component_descriptor::ComponentDescriptor;
use crate::component_type_id::ComponentTypeId;

verus! {

/// One component value as stored by the engine: the component's descriptor
/// together with the bytes of the value, exactly `descriptor.size()` of them.
#[derive(Debug)]
pub struct ComponentValue {
    descriptor: ComponentDescriptor,
    data: Vec<u8>,
}

impl ComponentValue {
    /// The descriptor of the component type this value belongs to.
    pub closed spec fn spec_descriptor(&self) -> ComponentDescriptor {
        self.descriptor
    }

    /// The numeric component type id of this value.
    pub open spec fn spec_id(&self) -> u16 {
        self.spec_descriptor().spec_id()
    }

    /// The bytes of the value.
    pub closed spec fn spec_data(&self) -> Seq<u8> {
        self.data@
    }

    /// The descriptor is valid and the byte count equals the declared size.
    #[verifier::type_invariant]
    pub closed spec fn wf(&self) -> bool {
        self.spec_descriptor().spec_is_valid() && self.spec_data().len()
            == self.spec_descriptor().spec_size()
    }

    /// The facts every component value satisfies by construction;
    /// `self.wf()` is obtained from `use_type_invariant`.
    pub proof fn lemma_wf(&self)
        requires
            self.wf(),
        ensures
            self.spec_descriptor().spec_is_valid(),
            self.spec_data().len() == self.spec_descriptor().spec_size(),
    {
    }

    /// Wraps `data` as a value of the component type `descriptor`. Returns
    /// `None` if the descriptor is invalid or the byte count does not match
    /// the descriptor's size.
    pub fn new(descriptor: ComponentDescriptor, data: Vec<u8>) -> (r: Option<ComponentValue>)
        ensures
            r.is_some() == (descriptor.spec_is_valid() && data@.len()
                == descriptor.spec_size()),
            r.is_some() ==> {
                &&& r.unwrap().spec_descriptor() == descriptor
                &&& r.unwrap().spec_data() == data@
            },
    {
        if !descriptor.is_valid() || data.len() != descriptor.size() as usize {
            return None;
        }
        Some(ComponentValue { descriptor, data })
    }

    /// The descriptor of the component type this value belongs to.
    pub fn descriptor(&self) -> (r: &ComponentDescriptor)
        ensures
            r == self.spec_descriptor(),
    {
        &self.descriptor
    }

    /// The component type id of this value.
    pub fn component_type_id(&self) -> (r: ComponentTypeId)
        ensures
            r == self.spec_descriptor().spec_component_type_id(),
    {
        self.descriptor.component_type_id()
    }

    /// The bytes of the value.
    pub fn data(&self) -> (r: &Vec<u8>)
        ensures
            r@ == self.spec_data(),
    {
        &self.data
    }

    /// Unwraps the value into its bytes.
    pub fn into_data(self) -> (r: Vec<u8>)
        ensures
            r@ == self.spec_data(),
    {
        self.data
    }
}

impl Clone for ComponentValue {
    /// Clones the value; the copy has the same descriptor and bytes.
    fn clone(&self) -> (r: Self)
        ensures
            r.spec_descriptor() == self.spec_descriptor(),
            r.spec_data() == self.spec_data(),
    {
        proof {
            use_type_invariant(self);
        }
        let r = ComponentValue { descriptor: self.descriptor, data: self.data.clone() };
        proof {
            assert(r.spec_data() =~= self.spec_data());
        }
        r
    }
}

} // verus!
