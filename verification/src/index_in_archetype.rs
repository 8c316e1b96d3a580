use vstd::prelude::*;

verus! {

/// A row index within an archetype table, strictly below the 24-bit
/// sentinel value.
#[derive(Clone, Copy, PartialEq, Eq, Structural, Debug, Hash)]
pub struct IndexInArchetype {
    value: u32,
}

impl IndexInArchetype {
    /// The raw row index.
    pub closed spec fn spec_value(&self) -> u32 {
        self.value
    }

    /// Row indices are strictly below the sentinel.
    #[verifier::type_invariant]
    pub closed spec fn wf(&self) -> bool {
        self.spec_value() < 16777215
    }

    /// Every row index is strictly below the sentinel value;
    /// `self.wf()` is obtained from `use_type_invariant`.
    pub proof fn lemma_wf(&self)
        requires
            self.wf(),
        ensures
            self.spec_value() < 16777215,
    {
    }

    /// Wraps a raw row index; `None` if it reaches the sentinel value.
    pub fn new(value: u32) -> (r: Option<IndexInArchetype>)
        ensures
            r.is_some() == (value < 16777215),
            r.is_some() ==> r.unwrap().spec_value() == value,
    {
        if value >= 16777215 {
            return None;
        }
        Some(IndexInArchetype { value })
    }

    /// Rebuilds a row index from its three most significant bytes, high
    /// byte first.
    pub fn from_bytes(bytes: [u8; 3]) -> (r: Option<IndexInArchetype>)
        ensures
            r.is_some() == ((bytes@[0] as int) * 65536 + (bytes@[1] as int) * 256
                + (bytes@[2] as int) < 16777215),
            r.is_some() ==> r.unwrap().spec_value() == (bytes@[0] as int) * 65536
                + (bytes@[1] as int) * 256 + (bytes@[2] as int),
    {
        let value: u32 = (bytes[0] as u32) * 65536 + (bytes[1] as u32) * 256 + (bytes[2] as u32);
        IndexInArchetype::new(value)
    }

    /// The three bytes of the row index, high byte first.
    pub fn to_bytes(&self) -> (r: [u8; 3])
        ensures
            r@.len() == 3,
            r@[0] == self.spec_value() / 65536 % 256,
            r@[1] == self.spec_value() / 256 % 256,
            r@[2] == self.spec_value() % 256,
    {
        let r: [u8; 3] = [
            (self.value / 65536 % 256) as u8,
            (self.value / 256 % 256) as u8,
            (self.value % 256) as u8,
        ];
        r
    }

    /// The raw row index.
    #[verifier::when_used_as_spec(spec_value)]
    pub fn value(&self) -> (r: u32)
        ensures
            r == self.spec_value(),
            r < 16777215,
    {
        proof {
            use_type_invariant(self);
        }
        self.value
    }
}

/// Two row indices with the same raw value are the same index.
pub proof fn lemma_index_in_archetype_determined(a: IndexInArchetype, b: IndexInArchetype)
    requires
        a.spec_value() == b.spec_value(),
    ensures
        a == b,
{
}

} // verus!
