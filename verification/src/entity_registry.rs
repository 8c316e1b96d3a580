use vstd::prelude::*;
use crate::archetype_index::ArchetypeIndex;
use crate::entity::Entity;
use crate::entity_entry::EntityEntry;
use crate::index_in_archetype::IndexInArchetype;

verus! {

/// The entity directory: one slot per entity ever allocated, a generational
/// version per slot, and a free list threaded through the row index fields
/// of free slots. Slot handles are stable; destroying an entity bumps the
/// slot's version so stale handles no longer resolve.
pub struct EntityRegistry {
    entities: Vec<EntityEntry>,
    next_free_slot: u32,
    free_list: Ghost<Seq<u32>>,
}

impl EntityRegistry {
    /// The directory slots.
    pub closed spec fn spec_entries(&self) -> Seq<EntityEntry> {
        self.entities@
    }

    /// The number of slots allocated so far.
    pub open spec fn spec_num_slots(&self) -> nat {
        self.spec_entries().len()
    }

    /// The slot at index `i`.
    pub open spec fn spec_slot(&self, i: int) -> EntityEntry {
        self.spec_entries()[i]
    }

    /// The head of the free list (the 24-bit sentinel when empty).
    pub closed spec fn spec_next_free_slot(&self) -> u32 {
        self.next_free_slot
    }

    /// The free slots, in pop order.
    pub closed spec fn spec_free_list(&self) -> Seq<u32> {
        self.free_list@
    }

    /// True if `entity` resolves to a live slot: its index is in range, the
    /// slot is live, and the slot's version matches the handle's.
    pub open spec fn spec_live(&self, entity: Entity) -> bool {
        &&& entity.spec_index() < self.spec_num_slots()
        &&& self.spec_slot(entity.spec_index() as int).spec_is_valid()
        &&& self.spec_slot(entity.spec_index() as int).spec_version() == entity.spec_version()
    }

    /// Directory well-formedness: at most the maximum number of slots; live
    /// slots carry representable row indices; the ghost free list mirrors
    /// the threaded free list exactly, holds only free in-range slots, each
    /// at most once.
    pub open spec fn wf(&self) -> bool {
        &&& self.spec_num_slots() <= 16777215
        &&& (if self.spec_free_list().len() == 0 {
            self.spec_next_free_slot() == 16777215
        } else {
            self.spec_next_free_slot() == self.spec_free_list()[0]
        })
        &&& forall|k: int| 0 <= k < self.spec_free_list().len() ==> {
            &&& (#[trigger] self.spec_free_list()[k]) < self.spec_num_slots()
            &&& !self.spec_slot(self.spec_free_list()[k] as int).spec_is_valid()
            &&& self.spec_slot(self.spec_free_list()[k] as int).spec_index_in_archetype() == (
                if k + 1 < self.spec_free_list().len() {
                    self.spec_free_list()[k + 1]
                } else {
                    16777215u32
                })
        }
        &&& forall|k1: int, k2: int| 0 <= k1 < k2 < self.spec_free_list().len()
            ==> self.spec_free_list()[k1] != self.spec_free_list()[k2]
        &&& forall|i: int| 0 <= i < self.spec_num_slots()
            ==> (#[trigger] self.spec_slot(i)).spec_index_in_archetype() <= 16777215
    }

    /// An empty directory.
    pub fn new() -> (r: EntityRegistry)
        ensures
            r.wf(),
            r.spec_num_slots() == 0,
            r.spec_free_list().len() == 0,
    {
        EntityRegistry {
            entities: Vec::new(),
            next_free_slot: 16777215,
            free_list: Ghost(Seq::empty()),
        }
    }

    /// True if a new entity can still be registered.
    pub fn can_create_new_entity(&self) -> (r: bool)
        ensures
            r == (self.spec_num_slots() < 16777215),
    {
        self.entities.len() < 16777215
    }

    /// Registers a new entity pointing at the given table location. Pops the
    /// free list if it is not empty, otherwise appends a new slot. Fails
    /// exactly when the slot count has reached its maximum.
    pub fn create_entity(&mut self, index_in_archetype: IndexInArchetype, archetype_index:
        ArchetypeIndex) -> (r: Option<Entity>)
        requires
            old(self).wf(),
        ensures
            final(self).wf(),
            r.is_some() == (old(self).spec_num_slots() < 16777215),
            r.is_none() ==> *final(self) == *old(self),
            r.is_some() ==> ({
                let e = r.unwrap();
                &&& e.spec_is_valid()
                &&& e.spec_index() < final(self).spec_num_slots()
                &&& (e.spec_index() < old(self).spec_num_slots() ==> {
                    &&& !old(self).spec_slot(e.spec_index() as int).spec_is_valid()
                    &&& final(self).spec_num_slots() == old(self).spec_num_slots()
                })
                &&& (e.spec_index() >= old(self).spec_num_slots() ==> {
                    &&& e.spec_index() == old(self).spec_num_slots()
                    &&& final(self).spec_num_slots() == old(self).spec_num_slots() + 1
                })
                &&& final(self).spec_slot(e.spec_index() as int).spec_is_valid()
                &&& final(self).spec_slot(e.spec_index() as int).spec_version()
                    == e.spec_version()
                &&& final(self).spec_slot(e.spec_index() as int).spec_archetype_index()
                    == archetype_index.spec_value()
                &&& final(self).spec_slot(e.spec_index() as int).spec_index_in_archetype()
                    == index_in_archetype.spec_value()
                &&& forall|i: int| 0 <= i < old(self).spec_num_slots() && i != e.spec_index()
                    ==> final(self).spec_slot(i) == old(self).spec_slot(i)
                &&& final(self).spec_live(e)
                &&& !old(self).spec_live(e)
                &&& (old(self).spec_free_list().len() == 0 ==> {
                    &&& e.spec_index() == old(self).spec_num_slots()
                    &&& e.spec_version() == 0
                    &&& final(self).spec_free_list() == old(self).spec_free_list()
                })
                &&& (old(self).spec_free_list().len() > 0 ==> {
                    &&& e.spec_index() == old(self).spec_free_list()[0]
                    &&& e.spec_index() == old(self).spec_next_free_slot()
                    &&& e.spec_version() == old(self).spec_slot(
                        e.spec_index() as int).spec_version()
                    &&& final(self).spec_free_list()
                        == old(self).spec_free_list().drop_first()
                })
            }),
    {
        proof {
            use_type_invariant(&index_in_archetype);
            index_in_archetype.lemma_wf();
            use_type_invariant(&archetype_index);
        }
        if self.entities.len() >= 16777215 {
            return None;
        }
        if self.next_free_slot == 16777215 {
            // The free list is empty: append a fresh slot.
            let idx: usize = self.entities.len();
            let mut entry: EntityEntry = EntityEntry::new_free();
            entry.set_archetype_index(archetype_index.value());
            entry.set_index_in_archetype(index_in_archetype);
            self.entities.push(entry);
            let e: Entity = Entity::new(idx as u32, 0);
            proof {
                assert(self.spec_free_list() == old(self).spec_free_list());
                assert forall|k: int| 0 <= k < self.spec_free_list().len() implies {
                    &&& (#[trigger] self.spec_free_list()[k]) < self.spec_num_slots()
                    &&& !self.spec_slot(self.spec_free_list()[k] as int).spec_is_valid()
                    &&& self.spec_slot(self.spec_free_list()[k] as int)
                        .spec_index_in_archetype() == (
                        if k + 1 < self.spec_free_list().len() {
                            self.spec_free_list()[k + 1]
                        } else {
                            16777215u32
                        })
                } by {
                    assert(old(self).spec_free_list()[k] < old(self).spec_num_slots());
                }
                assert forall|i: int| 0 <= i < self.spec_num_slots() implies (#[trigger] self
                    .spec_slot(i)).spec_index_in_archetype() <= 16777215 by {
                    if i < old(self).spec_num_slots() {
                        assert(old(self).spec_slot(i).spec_index_in_archetype() <= 16777215);
                    }
                }
            }
            Some(e)
        } else {
            // Pop the head of the free list.
            let slot: u32 = self.next_free_slot;
            let ghost old_free = self.free_list@;
            proof {
                assert(old_free[0] == slot);
                assert(slot < self.spec_num_slots());
            }
            let version: u8 = self.entities[slot as usize].version();
            let next: u32 = self.entities[slot as usize].index_in_archetype();
            let mut entry: EntityEntry = self.entities[slot as usize];
            entry.set_archetype_index(archetype_index.value());
            entry.set_index_in_archetype(index_in_archetype);
            self.entities[slot as usize] = entry;
            self.next_free_slot = next;
            self.free_list = Ghost(old_free.drop_first());
            let e: Entity = Entity::new(slot, version);
            proof {
                let fl = self.spec_free_list();
                assert forall|k: int| 0 <= k < fl.len() implies {
                    &&& (#[trigger] fl[k]) < self.spec_num_slots()
                    &&& !self.spec_slot(fl[k] as int).spec_is_valid()
                    &&& self.spec_slot(fl[k] as int).spec_index_in_archetype() == (
                        if k + 1 < fl.len() {
                            fl[k + 1]
                        } else {
                            16777215u32
                        })
                } by {
                    assert(fl[k] == old_free[k + 1]);
                    assert(old_free[k + 1] != old_free[0]);
                }
                if fl.len() > 0 {
                    assert(next == old_free[1]);
                }
                assert forall|i: int| 0 <= i < self.spec_num_slots() implies (#[trigger] self
                    .spec_slot(i)).spec_index_in_archetype() <= 16777215 by {
                    if i != slot {
                        assert(old(self).spec_slot(i).spec_index_in_archetype() <= 16777215);
                    }
                }
            }
            Some(e)
        }
    }

    /// Frees the slot of a live entity: marks it free, bumps the version
    /// with wrap-around, and threads the slot onto the free list. Returns
    /// false, changing nothing, if the handle does not resolve.
    pub fn destroy_entity(&mut self, entity: Entity) -> (r: bool)
        requires
            old(self).wf(),
        ensures
            final(self).wf(),
            r == old(self).spec_live(entity),
            !r ==> *final(self) == *old(self),
            r ==> ({
                &&& final(self).spec_num_slots() == old(self).spec_num_slots()
                &&& !final(self).spec_slot(entity.spec_index() as int).spec_is_valid()
                &&& final(self).spec_slot(entity.spec_index() as int).spec_version() == (
                    if old(self).spec_slot(entity.spec_index() as int).spec_version() == 255 {
                        0u8
                    } else {
                        (old(self).spec_slot(entity.spec_index() as int).spec_version()
                            + 1) as u8
                    })
                &&& forall|i: int| 0 <= i < old(self).spec_num_slots()
                    && i != entity.spec_index()
                    ==> final(self).spec_slot(i) == old(self).spec_slot(i)
                &&& !final(self).spec_live(entity)
                &&& final(self).spec_free_list() == seq![entity.spec_index()]
                    + old(self).spec_free_list()
                &&& final(self).spec_next_free_slot() == entity.spec_index()
                &&& final(self).spec_slot(entity.spec_index() as int)
                    .spec_index_in_archetype() == old(self).spec_next_free_slot()
            }),
    {
        let idx: u32 = entity.index();
        if idx as usize >= self.entities.len() {
            return false;
        }
        let entry_version: u8 = self.entities[idx as usize].version();
        let entry_valid: bool = self.entities[idx as usize].is_valid();
        if entry_version != entity.version() || !entry_valid {
            return false;
        }
        let ghost old_free = self.free_list@;
        let old_head: u32 = self.next_free_slot;
        let bumped: u8 = if entry_version == 255 { 0 } else { entry_version + 1 };
        let mut entry: EntityEntry = self.entities[idx as usize];
        entry.set_invalid();
        entry.set_version(bumped);
        entry.set_next_free_slot(old_head);
        self.entities[idx as usize] = entry;
        self.next_free_slot = idx;
        self.free_list = Ghost(seq![idx] + old_free);
        proof {
            let fl = self.spec_free_list();
            assert forall|k: int| 0 <= k < fl.len() implies {
                &&& (#[trigger] fl[k]) < self.spec_num_slots()
                &&& !self.spec_slot(fl[k] as int).spec_is_valid()
                &&& self.spec_slot(fl[k] as int).spec_index_in_archetype() == (
                    if k + 1 < fl.len() {
                        fl[k + 1]
                    } else {
                        16777215u32
                    })
            } by {
                if k == 0 {
                    assert(fl[0] == idx);
                    if fl.len() > 1 {
                        assert(fl[1] == old_free[0]);
                        assert(old_head == old_free[0]);
                    }
                } else {
                    assert(fl[k] == old_free[k - 1]);
                    // The freed slot was live, so it was not on the old list.
                    assert(old(self).spec_slot(old_free[k - 1] as int).spec_is_valid()
                        == false);
                    assert(old_free[k - 1] != idx);
                    if k + 1 < fl.len() {
                        assert(fl[k + 1] == old_free[k]);
                        assert(old_free[k] != idx);
                    }
                }
            }
            assert forall|k1: int, k2: int| 0 <= k1 < k2 < fl.len() implies fl[k1] != fl[k2] by {
                if k1 == 0 {
                    assert(fl[k2] == old_free[k2 - 1]);
                    assert(old(self).spec_slot(old_free[k2 - 1] as int).spec_is_valid()
                        == false);
                }
            }
            assert forall|i: int| 0 <= i < self.spec_num_slots() implies (#[trigger] self
                .spec_slot(i)).spec_index_in_archetype() <= 16777215 by {
                if i != idx {
                    assert(old(self).spec_slot(i).spec_index_in_archetype() <= 16777215);
                }
            }
        }
        true
    }

    /// The entry of a live entity, or `None` if the handle does not resolve.
    pub fn entity_entry(&self, entity: Entity) -> (r: Option<&EntityEntry>)
        ensures
            r.is_some() == self.spec_live(entity),
            r.is_some() ==> *r.unwrap() == self.spec_slot(entity.spec_index() as int),
    {
        let idx: u32 = entity.index();
        if idx as usize >= self.entities.len() {
            return None;
        }
        let entry = &self.entities[idx as usize];
        if entry.version() != entity.version() || !entry.is_valid() {
            return None;
        }
        Some(entry)
    }

    /// Moves a live entity to a new row in its archetype table. Returns
    /// false, changing nothing, if the handle does not resolve.
    pub fn update_index_in_archetype(&mut self, entity: Entity, index_in_archetype:
        IndexInArchetype) -> (r: bool)
        requires
            old(self).wf(),
        ensures
            final(self).wf(),
            r == old(self).spec_live(entity),
            !r ==> *final(self) == *old(self),
            r ==> ({
                &&& final(self).spec_num_slots() == old(self).spec_num_slots()
                &&& final(self).spec_slot(entity.spec_index() as int).spec_is_valid()
                &&& final(self).spec_slot(entity.spec_index() as int).spec_version()
                    == old(self).spec_slot(entity.spec_index() as int).spec_version()
                &&& final(self).spec_slot(entity.spec_index() as int).spec_archetype_index()
                    == old(self).spec_slot(entity.spec_index() as int).spec_archetype_index()
                &&& final(self).spec_slot(entity.spec_index() as int).spec_index_in_archetype()
                    == index_in_archetype.spec_value()
                &&& forall|i: int| 0 <= i < old(self).spec_num_slots()
                    && i != entity.spec_index()
                    ==> final(self).spec_slot(i) == old(self).spec_slot(i)
                &&& final(self).spec_live(entity)
            }),
    {
        let idx: u32 = entity.index();
        if idx as usize >= self.entities.len() {
            return false;
        }
        let entry_version: u8 = self.entities[idx as usize].version();
        let entry_valid: bool = self.entities[idx as usize].is_valid();
        if entry_version != entity.version() || !entry_valid {
            return false;
        }
        let mut entry: EntityEntry = self.entities[idx as usize];
        entry.set_index_in_archetype(index_in_archetype);
        self.entities[idx as usize] = entry;
        proof {
            use_type_invariant(&index_in_archetype);
            index_in_archetype.lemma_wf();
            lemma_free_list_untouched(old(self), &*self, idx as int);
        }
        true
    }

    /// Moves a live entity to a new table location. Returns false, changing
    /// nothing, if the handle does not resolve.
    pub fn update_location(&mut self, entity: Entity, archetype_index: ArchetypeIndex,
        index_in_archetype: IndexInArchetype) -> (r: bool)
        requires
            old(self).wf(),
        ensures
            final(self).wf(),
            r == old(self).spec_live(entity),
            !r ==> *final(self) == *old(self),
            r ==> ({
                &&& final(self).spec_num_slots() == old(self).spec_num_slots()
                &&& final(self).spec_slot(entity.spec_index() as int).spec_is_valid()
                &&& final(self).spec_slot(entity.spec_index() as int).spec_version()
                    == old(self).spec_slot(entity.spec_index() as int).spec_version()
                &&& final(self).spec_slot(entity.spec_index() as int).spec_archetype_index()
                    == archetype_index.spec_value()
                &&& final(self).spec_slot(entity.spec_index() as int).spec_index_in_archetype()
                    == index_in_archetype.spec_value()
                &&& forall|i: int| 0 <= i < old(self).spec_num_slots()
                    && i != entity.spec_index()
                    ==> final(self).spec_slot(i) == old(self).spec_slot(i)
                &&& final(self).spec_live(entity)
            }),
    {
        proof {
            use_type_invariant(&archetype_index);
        }
        let idx: u32 = entity.index();
        if idx as usize >= self.entities.len() {
            return false;
        }
        let entry_version: u8 = self.entities[idx as usize].version();
        let entry_valid: bool = self.entities[idx as usize].is_valid();
        if entry_version != entity.version() || !entry_valid {
            return false;
        }
        let mut entry: EntityEntry = self.entities[idx as usize];
        entry.set_archetype_index(archetype_index.value());
        entry.set_index_in_archetype(index_in_archetype);
        self.entities[idx as usize] = entry;
        proof {
            use_type_invariant(&index_in_archetype);
            index_in_archetype.lemma_wf();
            lemma_free_list_untouched(old(self), &*self, idx as int);
        }
        true
    }

    /// The live entities, in ascending slot order.
    pub fn iter(&self) -> (r: Vec<Entity>)
        requires
            self.wf(),
        ensures
            forall|j: int| 0 <= j < r@.len() ==> self.spec_live(#[trigger] r@[j]),
            forall|e: Entity| self.spec_live(e) ==> r@.contains(e),
            forall|j1: int, j2: int| 0 <= j1 < j2 < r@.len() ==> r@[j1].spec_index()
                < r@[j2].spec_index(),
    {
        let mut r: Vec<Entity> = Vec::new();
        let mut i: usize = 0;
        while i < self.entities.len()
            invariant
                self.wf(),
                i <= self.spec_num_slots(),
                forall|j: int| 0 <= j < r@.len() ==> self.spec_live(#[trigger] r@[j]),
                forall|j: int| 0 <= j < r@.len() ==> (#[trigger] r@[j]).spec_index() < i,
                forall|e: Entity| e.spec_index() < i && self.spec_live(e) ==> r@.contains(e),
                forall|j1: int, j2: int| 0 <= j1 < j2 < r@.len() ==> r@[j1].spec_index()
                    < r@[j2].spec_index(),
            decreases self.spec_num_slots() - i,
        {
            let ghost old_r = r@;
            if self.entities[i].is_valid() {
                let e: Entity = Entity::new(i as u32, self.entities[i].version());
                r.push(e);
                proof {
                    assert(self.spec_live(e));
                    assert forall|e2: Entity| e2.spec_index() < i + 1 && self.spec_live(e2)
                        implies r@.contains(e2) by {
                        if e2.spec_index() < i {
                            let j = choose|j: int| 0 <= j < old_r.len() && old_r[j] == e2;
                            assert(r@[j] == e2);
                        } else {
                            crate::entity::lemma_entity_handle_determined(e2, e);
                            assert(r@[r@.len() - 1] == e2);
                        }
                    }
                }
            } else {
                proof {
                    assert forall|e2: Entity| e2.spec_index() < i + 1 && self.spec_live(e2)
                        implies r@.contains(e2) by {
                        assert(e2.spec_index() != i);
                    }
                }
            }
            i = i + 1;
        }
        r
    }
}

/// Changing only a live slot's location fields leaves the free list intact.
proof fn lemma_free_list_untouched(pre: &EntityRegistry, post: &EntityRegistry, idx: int)
    requires
        pre.wf(),
        0 <= idx < pre.spec_num_slots(),
        pre.spec_slot(idx).spec_is_valid(),
        post.spec_num_slots() == pre.spec_num_slots(),
        post.spec_free_list() == pre.spec_free_list(),
        post.spec_next_free_slot() == pre.spec_next_free_slot(),
        forall|i: int| 0 <= i < pre.spec_num_slots() && i != idx ==> post.spec_slot(i)
            == pre.spec_slot(i),
        post.spec_slot(idx).spec_index_in_archetype() <= 16777215,
    ensures
        post.wf(),
{
    assert forall|k: int| 0 <= k < post.spec_free_list().len() implies {
        &&& (#[trigger] post.spec_free_list()[k]) < post.spec_num_slots()
        &&& !post.spec_slot(post.spec_free_list()[k] as int).spec_is_valid()
        &&& post.spec_slot(post.spec_free_list()[k] as int).spec_index_in_archetype() == (
            if k + 1 < post.spec_free_list().len() {
                post.spec_free_list()[k + 1]
            } else {
                16777215u32
            })
    } by {
        assert(!pre.spec_slot(pre.spec_free_list()[k] as int).spec_is_valid());
        assert(pre.spec_free_list()[k] != idx);
    }
}

} // verus!
