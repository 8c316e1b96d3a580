use vstd::prelude::*;
use crate::archetype_index::ArchetypeIndex;
use crate::index_in_archetype::IndexInArchetype;

verus! {

/// One directory slot: the slot's generation counter and, when the slot is
/// live, the location of its entity as an archetype index and a row index.
/// A free slot is marked by the sentinel archetype index; its row index
/// field then threads the free list (the next free slot, or the 24-bit
/// sentinel for the end of the list).
#[derive(Clone, Copy, PartialEq, Eq, Structural, Debug)]
pub struct EntityEntry {
    version: u8,
    archetype_index: u16,
    index_in_archetype: u32,
}

impl EntityEntry {
    /// The generation counter of the slot.
    pub closed spec fn spec_version(&self) -> u8 {
        self.version
    }

    /// The archetype index field of the slot.
    pub closed spec fn spec_archetype_index(&self) -> u16 {
        self.archetype_index
    }

    /// The row index field of the slot (the free-list pointer when free).
    pub closed spec fn spec_index_in_archetype(&self) -> u32 {
        self.index_in_archetype
    }

    /// True if the slot is live (its archetype index is not the sentinel).
    pub open spec fn spec_is_valid(&self) -> bool {
        self.spec_archetype_index() != 65535
    }

    /// The row index field always fits in 24 bits.
    #[verifier::type_invariant]
    pub closed spec fn wf(&self) -> bool {
        self.spec_index_in_archetype() <= 16777215
    }

    /// The row index field always fits in 24 bits; `self.wf()` is obtained
    /// from `use_type_invariant`.
    pub proof fn lemma_wf(&self)
        requires
            self.wf(),
        ensures
            self.spec_index_in_archetype() <= 16777215,
    {
    }

    /// A fresh free slot: generation 0, sentinel archetype index, empty
    /// free-list pointer.
    pub fn new_free() -> (r: EntityEntry)
        ensures
            !r.spec_is_valid(),
            r.spec_version() == 0,
            r.spec_index_in_archetype() == 16777215,
    {
        EntityEntry { version: 0, archetype_index: 65535, index_in_archetype: 16777215 }
    }

    /// The generation counter of the slot.
    #[verifier::when_used_as_spec(spec_version)]
    pub fn version(&self) -> (r: u8)
        ensures
            r == self.spec_version(),
    {
        self.version
    }

    /// Replaces the generation counter of the slot.
    pub fn set_version(&mut self, version: u8)
        ensures
            final(self).spec_version() == version,
            final(self).spec_archetype_index() == old(self).spec_archetype_index(),
            final(self).spec_index_in_archetype() == old(self).spec_index_in_archetype(),
    {
        proof {
            use_type_invariant(&*self);
        }
        self.version = version;
    }

    /// True if the slot is live.
    #[verifier::when_used_as_spec(spec_is_valid)]
    pub fn is_valid(&self) -> (r: bool)
        ensures
            r == self.spec_is_valid(),
    {
        self.archetype_index != 65535
    }

    /// Marks the slot free by writing the sentinel archetype index.
    pub fn set_invalid(&mut self)
        ensures
            !final(self).spec_is_valid(),
            final(self).spec_version() == old(self).spec_version(),
            final(self).spec_index_in_archetype() == old(self).spec_index_in_archetype(),
    {
        proof {
            use_type_invariant(&*self);
        }
        self.archetype_index = 65535;
    }

    /// The archetype index field of the slot.
    #[verifier::when_used_as_spec(spec_archetype_index)]
    pub fn archetype_index(&self) -> (r: u16)
        ensures
            r == self.spec_archetype_index(),
    {
        self.archetype_index
    }

    /// Replaces the archetype index field of the slot.
    pub fn set_archetype_index(&mut self, archetype_index: u16)
        ensures
            final(self).spec_archetype_index() == archetype_index,
            final(self).spec_version() == old(self).spec_version(),
            final(self).spec_index_in_archetype() == old(self).spec_index_in_archetype(),
    {
        proof {
            use_type_invariant(&*self);
        }
        self.archetype_index = archetype_index;
    }

    /// The row index field of the slot.
    #[verifier::when_used_as_spec(spec_index_in_archetype)]
    pub fn index_in_archetype(&self) -> (r: u32)
        ensures
            r == self.spec_index_in_archetype(),
            r <= 16777215,
    {
        proof {
            use_type_invariant(&*self);
        }
        self.index_in_archetype
    }

    /// Replaces the row index field of the slot.
    pub fn set_index_in_archetype(&mut self, index: IndexInArchetype)
        ensures
            final(self).spec_index_in_archetype() == index.spec_value(),
            final(self).spec_version() == old(self).spec_version(),
            final(self).spec_archetype_index() == old(self).spec_archetype_index(),
    {
        proof {
            use_type_invariant(&*self);
            use_type_invariant(&index);
            index.lemma_wf();
        }
        self.index_in_archetype = index.value();
    }

    /// Threads the slot onto the free list: writes the next free slot (or
    /// the 24-bit sentinel) into the row index field.
    pub fn set_next_free_slot(&mut self, next: u32)
        requires
            next <= 16777215,
        ensures
            final(self).spec_index_in_archetype() == next,
            final(self).spec_version() == old(self).spec_version(),
            final(self).spec_archetype_index() == old(self).spec_archetype_index(),
    {
        proof {
            use_type_invariant(&*self);
        }
        self.index_in_archetype = next;
    }
}

impl Default for EntityEntry {
    /// The default slot is a fresh free slot.
    fn default() -> (r: Self)
        ensures
            !r.spec_is_valid(),
            r.spec_version() == 0,
            r.spec_index_in_archetype() == 16777215,
    {
        EntityEntry::new_free()
    }
}

} // verus!
