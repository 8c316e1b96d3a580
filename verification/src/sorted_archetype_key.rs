use vstd::prelude::*;
use crate::archetype_id::ArchetypeId;

verus! {

/// One entry of a level's sorted lookup index: an archetype id and the
/// position of its table in the registry's table vector.
#[derive(Clone, Copy, PartialEq, Eq, Structural, Debug)]
pub struct SortedArchetypeKey {
    id: ArchetypeId,
    archetype_index: u16,
}

impl SortedArchetypeKey {
    /// The archetype id of the entry.
    pub closed spec fn spec_id(&self) -> ArchetypeId {
        self.id
    }

    /// The table position of the entry.
    pub closed spec fn spec_archetype_index(&self) -> u16 {
        self.archetype_index
    }

    /// Builds an index entry.
    pub fn new(id: ArchetypeId, archetype_index: u16) -> (r: SortedArchetypeKey)
        ensures
            r.spec_id() == id,
            r.spec_archetype_index() == archetype_index,
    {
        SortedArchetypeKey { id, archetype_index }
    }

    /// The archetype id of the entry.
    #[verifier::when_used_as_spec(spec_id)]
    pub fn id(&self) -> (r: ArchetypeId)
        ensures
            r == self.spec_id(),
    {
        self.id
    }

    /// The table position of the entry.
    #[verifier::when_used_as_spec(spec_archetype_index)]
    pub fn archetype_index(&self) -> (r: u16)
        ensures
            r == self.spec_archetype_index(),
    {
        self.archetype_index
    }
}

} // verus!
