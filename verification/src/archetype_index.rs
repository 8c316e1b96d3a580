use vstd::prelude::*;

verus! {

/// The position of an archetype table in the registry's table vector,
/// strictly below the 16-bit sentinel value.
#[derive(Clone, Copy, PartialEq, Eq, Structural, Debug, Hash)]
pub struct ArchetypeIndex {
    value: u16,
}

impl ArchetypeIndex {
    /// The raw table index.
    pub closed spec fn spec_value(&self) -> u16 {
        self.value
    }

    /// Table indices are strictly below the sentinel.
    #[verifier::type_invariant]
    pub closed spec fn wf(&self) -> bool {
        self.spec_value() < 65535
    }

    /// Wraps a raw table index; `None` if it equals the sentinel value.
    pub fn new(value: u16) -> (r: Option<ArchetypeIndex>)
        ensures
            r.is_some() == (value != 65535),
            r.is_some() ==> r.unwrap().spec_value() == value,
    {
        if value == 65535 {
            return None;
        }
        Some(ArchetypeIndex { value })
    }

    /// The raw table index.
    #[verifier::when_used_as_spec(spec_value)]
    pub fn value(&self) -> (r: u16)
        ensures
            r == self.spec_value(),
            r < 65535,
    {
        proof {
            use_type_invariant(self);
        }
        self.value
    }
}

} // verus!
