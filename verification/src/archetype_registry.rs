use vstd::prelude::*;
use crate::archetype::Archetype;
use crate::archetype_descriptor::ArchetypeDescriptor;
use crate::component_value::ComponentValue;
use crate::entity::Entity;
use crate::sorted_archetype_key::SortedArchetypeKey;

verus! {

/// Binary search in a level index whose entries are strictly ascending by
/// archetype id. Returns whether `id` is present and either its position or
/// the position where an entry with `id` would be inserted.
fn search_level(level: &Vec<SortedArchetypeKey>, id: u32) -> (r: (bool, usize))
    requires
        forall|k1: int, k2: int| 0 <= k1 < k2 < level@.len()
            ==> level@[k1].spec_id().spec_value() < level@[k2].spec_id().spec_value(),
    ensures
        r.1 <= level@.len(),
        r.0 ==> r.1 < level@.len() && level@[r.1 as int].spec_id().spec_value() == id,
        !r.0 ==> {
            &&& forall|k: int| 0 <= k < level@.len()
                ==> (#[trigger] level@[k]).spec_id().spec_value() != id
            &&& forall|k: int| 0 <= k < r.1 ==> (#[trigger] level@[k]).spec_id().spec_value()
                < id
            &&& forall|k: int| r.1 <= k < level@.len()
                ==> (#[trigger] level@[k]).spec_id().spec_value() > id
        },
{
    let mut lo: usize = 0;
    let mut hi: usize = level.len();
    while lo < hi
        invariant
            lo <= hi <= level@.len(),
            forall|k1: int, k2: int| 0 <= k1 < k2 < level@.len()
                ==> level@[k1].spec_id().spec_value() < level@[k2].spec_id().spec_value(),
            forall|k: int| 0 <= k < lo ==> (#[trigger] level@[k]).spec_id().spec_value() < id,
            forall|k: int| hi <= k < level@.len()
                ==> (#[trigger] level@[k]).spec_id().spec_value() > id,
        decreases hi - lo,
    {
        let mid: usize = lo + (hi - lo) / 2;
        let here: u32 = level[mid].id().into_u32();
        if here == id {
            return (true, mid);
        } else if here < id {
            proof {
                assert forall|k: int| 0 <= k < mid + 1 implies (#[trigger] level@[k]).spec_id()
                    .spec_value() < id by {
                    if k < mid {
                        assert(level@[k].spec_id().spec_value()
                            < level@[mid as int].spec_id().spec_value());
                    }
                }
            }
            lo = mid + 1;
        } else {
            proof {
                assert forall|k: int| mid <= k < level@.len() implies (#[trigger] level@[k])
                    .spec_id().spec_value() > id by {
                    if k > mid {
                        assert(level@[mid as int].spec_id().spec_value()
                            < level@[k].spec_id().spec_value());
                    }
                }
            }
            hi = mid;
        }
    }
    (false, lo)
}

/// Owns every archetype table. Tables are found by component count (their
/// level) and archetype id through one sorted index per level; tables are
/// only ever appended, so table indices stay valid for the registry's
/// lifetime.
pub struct ArchetypeRegistry {
    sorted_mappings: Vec<Vec<SortedArchetypeKey>>,
    archetypes: Vec<Archetype>,
}

impl ArchetypeRegistry {
    /// The archetype tables, in creation order.
    pub closed spec fn spec_tables(&self) -> Seq<Archetype> {
        self.archetypes@
    }

    /// The number of tables.
    pub open spec fn spec_num_tables(&self) -> nat {
        self.spec_tables().len()
    }

    /// The table at position `t`.
    pub open spec fn spec_table(&self, t: int) -> Archetype {
        self.spec_tables()[t]
    }

    /// The sorted index of level `l` (tables with `l + 1` components).
    pub closed spec fn spec_level(&self, l: int) -> Seq<SortedArchetypeKey> {
        self.sorted_mappings@[l]@
    }

    /// True if some table stores archetypes of `len` components with
    /// archetype id `id`.
    pub open spec fn spec_has_table(&self, len: nat, id: u32) -> bool {
        exists|t: int| 0 <= t < self.spec_num_tables()
            && (#[trigger] self.spec_table(t)).spec_descriptor().spec_len() == len
            && self.spec_table(t).spec_descriptor().spec_archetype_id().spec_value() == id
    }

    /// The position of the table of `len` components with archetype id `id`.
    pub open spec fn spec_table_index(&self, len: nat, id: u32) -> int {
        choose|t: int| 0 <= t < self.spec_num_tables()
            && (#[trigger] self.spec_table(t)).spec_descriptor().spec_len() == len
            && self.spec_table(t).spec_descriptor().spec_archetype_id().spec_value() == id
    }

    /// Registry well-formedness: fourteen level indices, each strictly
    /// ascending by archetype id and pointing at tables of its level with
    /// the recorded id; every table well-formed, listed in its level's
    /// index, and no two tables sharing both component count and id.
    pub open spec fn wf(&self) -> bool {
        &&& self.spec_levels_len() == 14
        &&& self.spec_num_tables() <= 65534
        &&& forall|l: int, k1: int, k2: int| 0 <= l < 14 && 0 <= k1 < k2
            < self.spec_level(l).len() ==> self.spec_level(l)[k1].spec_id().spec_value()
            < self.spec_level(l)[k2].spec_id().spec_value()
        &&& forall|l: int, k: int| 0 <= l < 14 && 0 <= k < self.spec_level(l).len() ==> {
            &&& (#[trigger] self.spec_level(l)[k]).spec_archetype_index()
                < self.spec_num_tables()
            &&& self.spec_table(self.spec_level(l)[k].spec_archetype_index() as int)
                .spec_descriptor().spec_len() == l + 1
            &&& self.spec_table(self.spec_level(l)[k].spec_archetype_index() as int)
                .spec_descriptor().spec_archetype_id() == self.spec_level(l)[k].spec_id()
        }
        &&& forall|t: int| 0 <= t < self.spec_num_tables() ==> {
            &&& (#[trigger] self.spec_table(t)).wf()
            &&& 1 <= self.spec_table(t).spec_descriptor().spec_len() <= 14
            &&& exists|k: int| 0 <= k < self.spec_level(
                self.spec_table(t).spec_descriptor().spec_len() - 1).len()
                && (#[trigger] self.spec_level(self.spec_table(t).spec_descriptor().spec_len()
                    - 1)[k]).spec_archetype_index() == t
        }
        &&& forall|t1: int, t2: int| 0 <= t1 < t2 < self.spec_num_tables()
            ==> !(self.spec_table(t1).spec_descriptor().spec_len()
                == self.spec_table(t2).spec_descriptor().spec_len()
                && self.spec_table(t1).spec_descriptor().spec_archetype_id()
                == self.spec_table(t2).spec_descriptor().spec_archetype_id())
    }

    /// The number of level indices.
    pub closed spec fn spec_levels_len(&self) -> nat {
        self.sorted_mappings@.len()
    }

    /// An empty registry with no tables.
    pub fn new() -> (r: ArchetypeRegistry)
        ensures
            r.wf(),
            r.spec_num_tables() == 0,
    {
        let mut sorted_mappings: Vec<Vec<SortedArchetypeKey>> = Vec::new();
        let mut l: usize = 0;
        while l < 14
            invariant
                l <= 14,
                sorted_mappings@.len() == l,
                forall|j: int| 0 <= j < l ==> (#[trigger] sorted_mappings@[j])@.len() == 0,
            decreases 14 - l,
        {
            let ghost maps0 = sorted_mappings@;
            let level: Vec<SortedArchetypeKey> = Vec::new();
            sorted_mappings.push(level);
            proof {
                assert forall|j: int| 0 <= j < l + 1 implies (#[trigger] sorted_mappings@[j])@
                    .len() == 0 by {
                    if j < l {
                        assert(sorted_mappings@[j] == maps0[j]);
                    }
                }
            }
            l = l + 1;
        }
        ArchetypeRegistry { sorted_mappings, archetypes: Vec::new() }
    }

    /// A shared reference to the table at position `index`.
    pub fn table_at(&self, index: u16) -> (r: &Archetype)
        requires
            self.wf(),
            index < self.spec_num_tables(),
        ensures
            r == self.spec_table(index as int),
            r.wf(),
    {
        proof {
            lemma_table_wf(self, index as int);
        }
        &self.archetypes[index as usize]
    }

    /// The number of tables.
    pub fn len(&self) -> (r: usize)
        ensures
            r == self.spec_num_tables(),
    {
        self.archetypes.len()
    }

    /// Finds the table that stores exactly the archetype `archetype_descriptor`,
    /// or `None` if the descriptor is invalid or no table with its component
    /// count, id and component list exists.
    pub fn find_archetype(&self, archetype_descriptor: &ArchetypeDescriptor) -> (r: Option<
        &Archetype>)
        requires
            self.wf(),
        ensures
            r.is_some() ==> {
                &&& archetype_descriptor.spec_is_valid()
                &&& r.unwrap().wf()
                &&& r.unwrap().spec_descriptor().spec_archetype_id()
                    == archetype_descriptor.spec_archetype_id()
                &&& r.unwrap().spec_descriptor().spec_components()
                    == archetype_descriptor.spec_components()
                &&& exists|t: int| 0 <= t < self.spec_num_tables()
                    && *r.unwrap() == #[trigger] self.spec_table(t)
            },
            r.is_none() ==> !archetype_descriptor.spec_is_valid() || !self.spec_has_table(
                archetype_descriptor.spec_len(),
                archetype_descriptor.spec_archetype_id().spec_value())
                || self.spec_table(self.spec_table_index(archetype_descriptor.spec_len(),
                    archetype_descriptor.spec_archetype_id().spec_value())).spec_descriptor()
                    .spec_components() != archetype_descriptor.spec_components(),
    {
        let idx: u16 = match self.find_archetype_index(archetype_descriptor) {
            Some(i) => i,
            None => {
                return None;
            },
        };
        Some(&self.archetypes[idx as usize])
    }

    /// Like `find_archetype`, but returns the table's position.
    pub fn find_archetype_index(&self, archetype_descriptor: &ArchetypeDescriptor) -> (r:
        Option<u16>)
        requires
            self.wf(),
        ensures
            r.is_some() ==> {
                &&& archetype_descriptor.spec_is_valid()
                &&& r.unwrap() < self.spec_num_tables()
                &&& self.spec_table(r.unwrap() as int).spec_descriptor().spec_archetype_id()
                    == archetype_descriptor.spec_archetype_id()
                &&& self.spec_table(r.unwrap() as int).spec_descriptor().spec_components()
                    == archetype_descriptor.spec_components()
            },
            r.is_none() ==> !archetype_descriptor.spec_is_valid() || !self.spec_has_table(
                archetype_descriptor.spec_len(),
                archetype_descriptor.spec_archetype_id().spec_value())
                || self.spec_table(self.spec_table_index(archetype_descriptor.spec_len(),
                    archetype_descriptor.spec_archetype_id().spec_value())).spec_descriptor()
                    .spec_components() != archetype_descriptor.spec_components(),
    {
        proof {
            use_type_invariant(archetype_descriptor);
            archetype_descriptor.lemma_wf();
        }
        if !archetype_descriptor.is_valid() {
            return None;
        }
        let level_number: usize = archetype_descriptor.len() as usize - 1;
        let level = &self.sorted_mappings[level_number];
        proof {
            lemma_level_sorted(self, level_number as int);
            assert forall|k1: int, k2: int| 0 <= k1 < k2 < level@.len() implies level@[k1]
                .spec_id().spec_value() < level@[k2].spec_id().spec_value() by {
                assert(level@ == self.spec_level(level_number as int));
                assert(self.spec_level(level_number as int)[k1].spec_id().spec_value()
                    < self.spec_level(level_number as int)[k2].spec_id().spec_value());
            }
        }
        let (found, pos) = search_level(level, archetype_descriptor.archetype_id().into_u32());
        if !found {
            proof {
                if self.spec_has_table(archetype_descriptor.spec_len(),
                    archetype_descriptor.spec_archetype_id().spec_value()) {
                    let t = choose|t: int| 0 <= t < self.spec_num_tables()
                        && (#[trigger] self.spec_table(t)).spec_descriptor().spec_len()
                            == archetype_descriptor.spec_len()
                        && self.spec_table(t).spec_descriptor().spec_archetype_id()
                            .spec_value()
                            == archetype_descriptor.spec_archetype_id().spec_value();
                    let k = choose|k: int| 0 <= k < self.spec_level(
                        level_number as int).len() && (#[trigger] self.spec_level(
                        level_number as int)[k]).spec_archetype_index() == t;
                    assert(self.spec_level(level_number as int)[k].spec_id().spec_value()
                        == archetype_descriptor.spec_archetype_id().spec_value());
                    assert(false);
                }
            }
            return None;
        }
        let table_index: u16 = level[pos].archetype_index();
        proof {
            lemma_level_entry(self, level_number as int, pos as int);
        }
        let table = &self.archetypes[table_index as usize];
        proof {
            crate::archetype_id::lemma_archetype_id_determined(
                self.spec_table(table_index as int).spec_descriptor().spec_archetype_id(),
                archetype_descriptor.spec_archetype_id());
        }
        if !table.descriptor().equals(archetype_descriptor) {
            proof {
                lemma_unique_table(self, table_index as int,
                    archetype_descriptor.spec_len(),
                    archetype_descriptor.spec_archetype_id().spec_value());
            }
            return None;
        }
        proof {
            lemma_unique_table(self, table_index as int, archetype_descriptor.spec_len(),
                archetype_descriptor.spec_archetype_id().spec_value());
        }
        Some(table_index)
    }

    /// Finds the table storing exactly `archetype_descriptor`, creating an
    /// empty one if none exists. Returns its position, or `None` if the
    /// descriptor is invalid, a table with the same component count and id
    /// stores a different component list, or the registry is full.
    pub fn find_or_create_archetype(&mut self, archetype_descriptor: &ArchetypeDescriptor)
        -> (r: Option<u16>)
        requires
            old(self).wf(),
        ensures
            final(self).wf(),
            final(self).spec_num_tables() >= old(self).spec_num_tables(),
            forall|t: int| 0 <= t < old(self).spec_num_tables()
                ==> final(self).spec_table(t) == old(self).spec_table(t),
            r.is_none() ==> *final(self) == *old(self),
            r.is_none() ==> !archetype_descriptor.spec_is_valid() || (old(self).spec_has_table(
                archetype_descriptor.spec_len(),
                archetype_descriptor.spec_archetype_id().spec_value())
                && old(self).spec_table(old(self).spec_table_index(
                    archetype_descriptor.spec_len(),
                    archetype_descriptor.spec_archetype_id().spec_value())).spec_descriptor()
                    .spec_components() != archetype_descriptor.spec_components())
                || (!old(self).spec_has_table(archetype_descriptor.spec_len(),
                    archetype_descriptor.spec_archetype_id().spec_value())
                    && old(self).spec_num_tables() >= 65534),
            r.is_some() ==> ({
                let i = r.unwrap() as int;
                &&& archetype_descriptor.spec_is_valid()
                &&& i < final(self).spec_num_tables()
                &&& final(self).spec_table(i).spec_descriptor().spec_archetype_id()
                    == archetype_descriptor.spec_archetype_id()
                &&& final(self).spec_table(i).spec_descriptor().spec_components()
                    == archetype_descriptor.spec_components()
                &&& (old(self).spec_has_table(archetype_descriptor.spec_len(),
                    archetype_descriptor.spec_archetype_id().spec_value())
                    ==> *final(self) == *old(self))
                &&& (!old(self).spec_has_table(archetype_descriptor.spec_len(),
                    archetype_descriptor.spec_archetype_id().spec_value()) ==> {
                    &&& i == old(self).spec_num_tables()
                    &&& final(self).spec_num_tables() == old(self).spec_num_tables() + 1
                    &&& final(self).spec_table(i).spec_len() == 0
                    &&& final(self).spec_table(i).spec_capacity() == 128
                })
            }),
    {
        proof {
            use_type_invariant(archetype_descriptor);
            archetype_descriptor.lemma_wf();
        }
        if !archetype_descriptor.is_valid() {
            return None;
        }
        let level_number: usize = archetype_descriptor.len() as usize - 1;
        let (found, pos) = {
            let level = &self.sorted_mappings[level_number];
            proof {
                lemma_level_sorted(self, level_number as int);
                assert forall|k1: int, k2: int| 0 <= k1 < k2 < level@.len() implies level@[k1]
                    .spec_id().spec_value() < level@[k2].spec_id().spec_value() by {
                    assert(level@ == self.spec_level(level_number as int));
                    assert(self.spec_level(level_number as int)[k1].spec_id().spec_value()
                        < self.spec_level(level_number as int)[k2].spec_id().spec_value());
                }
            }
            search_level(level, archetype_descriptor.archetype_id().into_u32())
        };
        if found {
            let table_index: u16 = {
                let level = &self.sorted_mappings[level_number];
                level[pos].archetype_index()
            };
            proof {
                lemma_level_entry(self, level_number as int, pos as int);
            }
            let matches: bool = {
                let table = &self.archetypes[table_index as usize];
                table.descriptor().equals(archetype_descriptor)
            };
            proof {
                lemma_unique_table(self, table_index as int, archetype_descriptor.spec_len(),
                    archetype_descriptor.spec_archetype_id().spec_value());
                crate::archetype_id::lemma_archetype_id_determined(
                    self.spec_table(table_index as int).spec_descriptor().spec_archetype_id(),
                    archetype_descriptor.spec_archetype_id());
            }
            if !matches {
                return None;
            }
            return Some(table_index);
        }
        // The archetype is new: append a table and index it.
        proof {
            if self.spec_has_table(archetype_descriptor.spec_len(),
                archetype_descriptor.spec_archetype_id().spec_value()) {
                let t = choose|t: int| 0 <= t < self.spec_num_tables()
                    && (#[trigger] self.spec_table(t)).spec_descriptor().spec_len()
                        == archetype_descriptor.spec_len()
                    && self.spec_table(t).spec_descriptor().spec_archetype_id().spec_value()
                        == archetype_descriptor.spec_archetype_id().spec_value();
                let k = choose|k: int| 0 <= k < self.spec_level(level_number as int).len()
                    && (#[trigger] self.spec_level(level_number as int)[k])
                        .spec_archetype_index() == t;
                assert(self.spec_level(level_number as int)[k].spec_id().spec_value()
                    == archetype_descriptor.spec_archetype_id().spec_value());
                assert(false);
            }
        }
        if self.archetypes.len() >= 65534 {
            return None;
        }
        let table: Archetype = Archetype::new(archetype_descriptor);
        let new_index: u16 = self.archetypes.len() as u16;
        let key: SortedArchetypeKey = SortedArchetypeKey::new(
            archetype_descriptor.archetype_id(), new_index);
        let ghost old_tables = self.archetypes@;
        let ghost old_levels = self.sorted_mappings@;
        self.archetypes.push(table);
        let level_ref = &mut self.sorted_mappings[level_number];
        level_ref.insert(pos, key);
        proof {
            let lno = level_number as int;
            let nt = self.spec_num_tables();
            assert(self.spec_tables() == old_tables.push(self.spec_table(nt - 1)));
            assert forall|l: int| 0 <= l < 14 && l != lno implies #[trigger] self.spec_level(l)
                == old(self).spec_level(l) by {
                assert(self.sorted_mappings@[l] == old_levels[l]);
            }
            assert(self.spec_level(lno) =~= old(self).spec_level(lno).insert(pos as int, key));
            // Sortedness of the updated level.
            assert forall|k1: int, k2: int| 0 <= k1 < k2 < self.spec_level(lno).len()
                implies self.spec_level(lno)[k1].spec_id().spec_value()
                < self.spec_level(lno)[k2].spec_id().spec_value() by {
                let s = old(self).spec_level(lno);
                let p = pos as int;
                assert(self.spec_level(lno)[k1] == (if k1 < p {
                    s[k1]
                } else if k1 == p {
                    key
                } else {
                    s[k1 - 1]
                }));
                assert(self.spec_level(lno)[k2] == (if k2 < p {
                    s[k2]
                } else if k2 == p {
                    key
                } else {
                    s[k2 - 1]
                }));
                if k1 < p && k2 > p && !(s[k1].spec_id().spec_value()
                    < s[k2 - 1].spec_id().spec_value()) {
                    assert(k1 < k2 - 1);
                }
            }
            // Entries still point at tables of their level.
            assert forall|l: int, k: int| 0 <= l < 14 && 0 <= k < self.spec_level(l).len()
                implies {
                &&& (#[trigger] self.spec_level(l)[k]).spec_archetype_index() < nt
                &&& self.spec_table(self.spec_level(l)[k].spec_archetype_index() as int)
                    .spec_descriptor().spec_len() == l + 1
                &&& self.spec_table(self.spec_level(l)[k].spec_archetype_index() as int)
                    .spec_descriptor().spec_archetype_id() == self.spec_level(l)[k].spec_id()
            } by {
                if l == lno {
                    let s = old(self).spec_level(lno);
                    let p = pos as int;
                    assert(self.spec_level(lno)[k] == (if k < p {
                        s[k]
                    } else if k == p {
                        key
                    } else {
                        s[k - 1]
                    }));
                    if k != p {
                        let k0 = if k < p { k } else { k - 1 };
                        assert(old(self).spec_level(lno)[k0].spec_archetype_index()
                            < old(self).spec_num_tables());
                        assert(self.spec_table(s[k0].spec_archetype_index() as int)
                            == old(self).spec_table(s[k0].spec_archetype_index() as int));
                    }
                } else {
                    assert(self.spec_level(l)[k] == old(self).spec_level(l)[k]);
                    assert(old(self).spec_level(l)[k].spec_archetype_index()
                        < old(self).spec_num_tables());
                    assert(self.spec_table(self.spec_level(l)[k].spec_archetype_index() as int)
                        == old(self).spec_table(
                            self.spec_level(l)[k].spec_archetype_index() as int));
                }
            }
            // Every table is indexed in its level.
            assert forall|t: int| 0 <= t < nt implies {
                &&& (#[trigger] self.spec_table(t)).wf()
                &&& 1 <= self.spec_table(t).spec_descriptor().spec_len() <= 14
                &&& exists|k: int| 0 <= k < self.spec_level(
                    self.spec_table(t).spec_descriptor().spec_len() - 1).len()
                    && (#[trigger] self.spec_level(self.spec_table(t).spec_descriptor()
                        .spec_len() - 1)[k]).spec_archetype_index() == t
            } by {
                if t < nt - 1 {
                    assert(self.spec_table(t) == old(self).spec_table(t));
                    assert(old(self).spec_table(t).wf());
                    let lv = old(self).spec_table(t).spec_descriptor().spec_len() - 1;
                    let k0 = choose|k: int| 0 <= k < old(self).spec_level(lv).len()
                        && (#[trigger] old(self).spec_level(lv)[k]).spec_archetype_index()
                            == t;
                    if lv == lno {
                        let knew = if k0 < pos as int { k0 } else { k0 + 1 };
                        assert(self.spec_level(lno)[knew]
                            == old(self).spec_level(lno)[k0]);
                    } else {
                        assert(self.spec_level(lv)[k0] == old(self).spec_level(lv)[k0]);
                    }
                } else {
                    assert(self.spec_level(lno)[pos as int] == key);
                }
            }
            // No two tables share component count and id.
            assert forall|t1: int, t2: int| 0 <= t1 < t2 < nt
                implies !(self.spec_table(t1).spec_descriptor().spec_len()
                    == self.spec_table(t2).spec_descriptor().spec_len()
                    && self.spec_table(t1).spec_descriptor().spec_archetype_id()
                    == self.spec_table(t2).spec_descriptor().spec_archetype_id()) by {
                if t2 == nt - 1 {
                    assert(self.spec_table(t1) == old(self).spec_table(t1));
                    if self.spec_table(t1).spec_descriptor().spec_len()
                        == archetype_descriptor.spec_len()
                        && self.spec_table(t1).spec_descriptor().spec_archetype_id()
                        == archetype_descriptor.spec_archetype_id() {
                        assert(old(self).spec_has_table(archetype_descriptor.spec_len(),
                            archetype_descriptor.spec_archetype_id().spec_value()));
                    }
                } else {
                    assert(self.spec_table(t1) == old(self).spec_table(t1));
                    assert(self.spec_table(t2) == old(self).spec_table(t2));
                }
            }
        }
        Some(new_index)
    }

    /// Resolves (or creates) the neighbor archetype reached by adding one
    /// component to the archetype of the table at `source_archetype_index`,
    /// returning the neighbor table's position. `None`, changing nothing,
    /// if the component cannot be added to the source archetype, a table
    /// with the neighbor's component count and id stores a different
    /// component list, or the registry is full.
    pub fn find_or_create_archetype_adding_component(&mut self, source_archetype_index: u16,
        component_descriptor: &crate::component_descriptor::ComponentDescriptor) -> (r:
        Option<u16>)
        requires
            old(self).wf(),
            source_archetype_index < old(self).spec_num_tables(),
        ensures
            final(self).wf(),
            final(self).spec_num_tables() >= old(self).spec_num_tables(),
            forall|t: int| 0 <= t < old(self).spec_num_tables()
                ==> final(self).spec_table(t) == old(self).spec_table(t),
            r.is_none() ==> *final(self) == *old(self),
            r.is_none() ==> ({
                let src = old(self).spec_table(source_archetype_index as int)
                    .spec_descriptor();
                let neighbor = src.spec_with_added(*component_descriptor);
                let nid = crate::archetype_descriptor::archetype_id_value(
                    neighbor.map_values(
                        |d: crate::component_descriptor::ComponentDescriptor| d.spec_id()));
                ||| !src.spec_can_add(*component_descriptor)
                ||| (old(self).spec_has_table(neighbor.len(), nid)
                    && old(self).spec_table(old(self).spec_table_index(neighbor.len(),
                        nid)).spec_descriptor().spec_components() != neighbor)
                ||| (!old(self).spec_has_table(neighbor.len(), nid)
                    && old(self).spec_num_tables() >= 65534)
            }),
            r.is_some() ==> ({
                let i = r.unwrap() as int;
                let src = old(self).spec_table(source_archetype_index as int)
                    .spec_descriptor();
                &&& src.spec_can_add(*component_descriptor)
                &&& i < final(self).spec_num_tables()
                &&& i != source_archetype_index as int
                &&& final(self).spec_table(i).spec_descriptor().spec_components()
                    == src.spec_with_added(*component_descriptor)
            }),
    {
        proof {
            lemma_table_wf(self, source_archetype_index as int);
        }
        let neighbor = match {
            let table = &self.archetypes[source_archetype_index as usize];
            table.descriptor().add_component(component_descriptor)
        } {
            Some(d) => d,
            None => {
                return None;
            },
        };
        let destination: u16 = match self.find_or_create_archetype(&neighbor) {
            Some(d) => d,
            None => {
                return None;
            },
        };
        proof {
            if destination as int == source_archetype_index as int {
                assert(self.spec_table(destination as int).spec_descriptor()
                    .spec_components().len() == neighbor.spec_components().len());
                crate::archetype_descriptor::lemma_insert_pos_bounds(
                    old(self).spec_table(source_archetype_index as int).spec_descriptor()
                        .spec_components(),
                    component_descriptor.spec_id());
                assert(false);
            }
        }
        Some(destination)
    }

    /// Resolves (or creates) the neighbor archetype reached by removing one
    /// component from the archetype of the table at
    /// `source_archetype_index`, returning the neighbor table's position.
    /// `None`, changing nothing, if the component cannot be removed from
    /// the source archetype, a table with the neighbor's component count
    /// and id stores a different component list, or the registry is full.
    pub fn find_or_create_archetype_removing_component(&mut self,
        source_archetype_index: u16,
        component: crate::component_type_id::ComponentTypeId) -> (r: Option<u16>)
        requires
            old(self).wf(),
            source_archetype_index < old(self).spec_num_tables(),
        ensures
            final(self).wf(),
            final(self).spec_num_tables() >= old(self).spec_num_tables(),
            forall|t: int| 0 <= t < old(self).spec_num_tables()
                ==> final(self).spec_table(t) == old(self).spec_table(t),
            r.is_none() ==> *final(self) == *old(self),
            r.is_none() ==> ({
                let src = old(self).spec_table(source_archetype_index as int)
                    .spec_descriptor();
                let neighbor = src.spec_with_removed(component.spec_value());
                let nid = crate::archetype_descriptor::archetype_id_value(
                    neighbor.map_values(
                        |d: crate::component_descriptor::ComponentDescriptor| d.spec_id()));
                ||| !src.spec_can_remove(component.spec_value())
                ||| (old(self).spec_has_table(neighbor.len(), nid)
                    && old(self).spec_table(old(self).spec_table_index(neighbor.len(),
                        nid)).spec_descriptor().spec_components() != neighbor)
                ||| (!old(self).spec_has_table(neighbor.len(), nid)
                    && old(self).spec_num_tables() >= 65534)
            }),
            r.is_some() ==> ({
                let i = r.unwrap() as int;
                let src = old(self).spec_table(source_archetype_index as int)
                    .spec_descriptor();
                &&& src.spec_can_remove(component.spec_value())
                &&& i < final(self).spec_num_tables()
                &&& i != source_archetype_index as int
                &&& final(self).spec_table(i).spec_descriptor().spec_components()
                    == src.spec_with_removed(component.spec_value())
            }),
    {
        proof {
            lemma_table_wf(self, source_archetype_index as int);
        }
        let neighbor = match {
            let table = &self.archetypes[source_archetype_index as usize];
            table.descriptor().remove_component(component)
        } {
            Some(d) => d,
            None => {
                return None;
            },
        };
        let destination: u16 = match self.find_or_create_archetype(&neighbor) {
            Some(d) => d,
            None => {
                return None;
            },
        };
        proof {
            if destination as int == source_archetype_index as int {
                assert(self.spec_table(destination as int).spec_descriptor()
                    .spec_components().len() == neighbor.spec_components().len());
                crate::archetype_descriptor::lemma_find_pos_properties(
                    old(self).spec_table(source_archetype_index as int).spec_descriptor()
                        .spec_components(),
                    component.spec_value());
                assert(false);
            }
        }
        Some(destination)
    }

    /// Swap-drops row `row` of the table at `index`; see
    /// `Archetype::swap_drop`. Only that table changes.
    pub fn table_swap_drop(&mut self, index: u16, row: u32) -> (r: bool)
        requires
            old(self).wf(),
            index < old(self).spec_num_tables(),
            row < old(self).spec_table(index as int).spec_len(),
        ensures
            final(self).wf(),
            final(self).spec_num_tables() == old(self).spec_num_tables(),
            forall|t: int| 0 <= t < old(self).spec_num_tables() && t != index
                ==> final(self).spec_table(t) == old(self).spec_table(t),
            final(self).spec_table(index as int).spec_descriptor()
                == old(self).spec_table(index as int).spec_descriptor(),
            r == (row < old(self).spec_table(index as int).spec_len() - 1),
            final(self).spec_table(index as int).spec_len()
                == old(self).spec_table(index as int).spec_len() - 1,
            final(self).spec_table(index as int).spec_entities()
                == old(self).spec_table(index as int).spec_entities().update(row as int,
                    old(self).spec_table(index as int).spec_entities().last()).drop_last(),
            forall|k: int| 0 <= k < old(self).spec_table(index as int).spec_num_columns()
                ==> final(self).spec_table(index as int).spec_column(k)
                    == old(self).spec_table(index as int).spec_column(k).update(row as int,
                        old(self).spec_table(index as int).spec_column(k).last()).drop_last(),
    {
        proof {
            lemma_table_wf(self, index as int);
        }
        let table = &mut self.archetypes[index as usize];
        let r: bool = table.swap_drop(row);
        proof {
            lemma_table_replaced(old(self), self, index as int);
        }
        r
    }

    /// Moves row `row` of the table at `index` to the last position; see
    /// `Archetype::swap_to_last`. Only that table changes.
    pub fn table_swap_to_last(&mut self, index: u16, row: u32) -> (r: bool)
        requires
            old(self).wf(),
            index < old(self).spec_num_tables(),
            row < old(self).spec_table(index as int).spec_len(),
        ensures
            final(self).wf(),
            final(self).spec_num_tables() == old(self).spec_num_tables(),
            forall|t: int| 0 <= t < old(self).spec_num_tables() && t != index
                ==> final(self).spec_table(t) == old(self).spec_table(t),
            final(self).spec_table(index as int).spec_descriptor()
                == old(self).spec_table(index as int).spec_descriptor(),
            r == (row < old(self).spec_table(index as int).spec_len() - 1),
            final(self).spec_table(index as int).spec_len()
                == old(self).spec_table(index as int).spec_len(),
            final(self).spec_table(index as int).spec_entities()
                == old(self).spec_table(index as int).spec_entities().update(row as int,
                    old(self).spec_table(index as int).spec_entities().last()).update(
                    old(self).spec_table(index as int).spec_len() - 1,
                    old(self).spec_table(index as int).spec_entities()[row as int]),
            forall|k: int| 0 <= k < old(self).spec_table(index as int).spec_num_columns()
                ==> final(self).spec_table(index as int).spec_column(k)
                    == old(self).spec_table(index as int).spec_column(k).update(row as int,
                        old(self).spec_table(index as int).spec_column(k).last()).update(
                        old(self).spec_table(index as int).spec_len() - 1,
                        old(self).spec_table(index as int).spec_column(k)[row as int]),
    {
        proof {
            lemma_table_wf(self, index as int);
        }
        let table = &mut self.archetypes[index as usize];
        let r: bool = table.swap_to_last(row);
        proof {
            lemma_table_replaced(old(self), self, index as int);
        }
        r
    }

    /// Removes the last row of the table at `index`, returning its entity
    /// and component values; see `Archetype::pop_row`. Only that table
    /// changes.
    pub fn table_pop_row(&mut self, index: u16) -> (r: (Entity, Vec<ComponentValue>))
        requires
            old(self).wf(),
            index < old(self).spec_num_tables(),
            old(self).spec_table(index as int).spec_len() > 0,
        ensures
            final(self).wf(),
            final(self).spec_num_tables() == old(self).spec_num_tables(),
            forall|t: int| 0 <= t < old(self).spec_num_tables() && t != index
                ==> final(self).spec_table(t) == old(self).spec_table(t),
            final(self).spec_table(index as int).spec_descriptor()
                == old(self).spec_table(index as int).spec_descriptor(),
            final(self).spec_table(index as int).spec_len()
                == old(self).spec_table(index as int).spec_len() - 1,
            final(self).spec_table(index as int).spec_entities()
                == old(self).spec_table(index as int).spec_entities().drop_last(),
            forall|k: int| 0 <= k < old(self).spec_table(index as int).spec_num_columns()
                ==> final(self).spec_table(index as int).spec_column(k)
                    == old(self).spec_table(index as int).spec_column(k).drop_last(),
            r.0 == old(self).spec_table(index as int).spec_entities().last(),
            r.0.spec_is_valid(),
            r.1@.len() == old(self).spec_table(index as int).spec_num_columns(),
            forall|k: int| 0 <= k < r.1@.len() ==> (#[trigger] r.1@[k]).spec_descriptor()
                == old(self).spec_table(index as int).spec_descriptor().spec_components()[k],
            forall|k: int| 0 <= k < r.1@.len() ==> (#[trigger] r.1@[k]).spec_data()
                == old(self).spec_table(index as int).spec_column(k).last(),
    {
        proof {
            lemma_table_wf(self, index as int);
        }
        let table = &mut self.archetypes[index as usize];
        let r = table.pop_row();
        proof {
            lemma_table_replaced(old(self), self, index as int);
        }
        r
    }

    /// Appends a row to the table at `index`; see `Archetype::push_entity`.
    /// Only that table changes.
    pub fn table_push_entity(&mut self, index: u16, entity: Entity, components: Vec<
        ComponentValue>) -> (r: u32)
        requires
            old(self).wf(),
            index < old(self).spec_num_tables(),
            entity.spec_is_valid(),
            old(self).spec_table(index as int).spec_len() < 16777215,
            components@.len() == old(self).spec_table(index as int).spec_num_columns(),
            forall|k: int| 0 <= k < components@.len()
                ==> (#[trigger] components@[k]).spec_descriptor()
                    == old(self).spec_table(index as int).spec_descriptor()
                        .spec_components()[k],
        ensures
            final(self).wf(),
            final(self).spec_num_tables() == old(self).spec_num_tables(),
            forall|t: int| 0 <= t < old(self).spec_num_tables() && t != index
                ==> final(self).spec_table(t) == old(self).spec_table(t),
            final(self).spec_table(index as int).spec_descriptor()
                == old(self).spec_table(index as int).spec_descriptor(),
            r == old(self).spec_table(index as int).spec_len(),
            final(self).spec_table(index as int).spec_len()
                == old(self).spec_table(index as int).spec_len() + 1,
            final(self).spec_table(index as int).spec_entities()
                == old(self).spec_table(index as int).spec_entities().push(entity),
            forall|k: int| 0 <= k < old(self).spec_table(index as int).spec_num_columns()
                ==> final(self).spec_table(index as int).spec_column(k)
                    == old(self).spec_table(index as int).spec_column(k).push(
                        components@[k].spec_data()),
    {
        proof {
            lemma_table_wf(self, index as int);
        }
        let table = &mut self.archetypes[index as usize];
        let r: u32 = table.push_entity(entity, components);
        proof {
            lemma_table_replaced(old(self), self, index as int);
        }
        r
    }

    /// Overwrites one component of row `row` of the table at `index`; see
    /// `Archetype::write_single_component`. Only that table changes.
    pub fn table_write_component(&mut self, index: u16, row: u32, value: ComponentValue)
        -> (r: bool)
        requires
            old(self).wf(),
            index < old(self).spec_num_tables(),
            row < old(self).spec_table(index as int).spec_len(),
        ensures
            final(self).wf(),
            final(self).spec_num_tables() == old(self).spec_num_tables(),
            forall|t: int| 0 <= t < old(self).spec_num_tables() && t != index
                ==> final(self).spec_table(t) == old(self).spec_table(t),
            final(self).spec_table(index as int).spec_descriptor()
                == old(self).spec_table(index as int).spec_descriptor(),
            final(self).spec_table(index as int).spec_len()
                == old(self).spec_table(index as int).spec_len(),
            final(self).spec_table(index as int).spec_entities()
                == old(self).spec_table(index as int).spec_entities(),
            r == (old(self).spec_table(index as int).spec_descriptor().spec_has_id(
                value.spec_descriptor().spec_id())
                && old(self).spec_table(index as int).spec_descriptor().spec_components()[
                    crate::archetype_descriptor::spec_find_pos(
                        old(self).spec_table(index as int).spec_descriptor()
                            .spec_components(),
                        value.spec_descriptor().spec_id())] == value.spec_descriptor()),
            !r ==> final(self).spec_table(index as int) == old(self).spec_table(index as int),
            !r ==> forall|k: int| 0 <= k < old(self).spec_table(index as int)
                .spec_num_columns() ==> final(self).spec_table(index as int).spec_column(k)
                == old(self).spec_table(index as int).spec_column(k),
            r ==> ({
                let k = crate::archetype_descriptor::spec_find_pos(
                    old(self).spec_table(index as int).spec_descriptor().spec_components(),
                    value.spec_descriptor().spec_id());
                &&& final(self).spec_table(index as int).spec_column(k)
                    == old(self).spec_table(index as int).spec_column(k).update(row as int,
                        value.spec_data())
                &&& forall|j: int| 0 <= j < old(self).spec_table(index as int)
                    .spec_num_columns() && j != k
                    ==> final(self).spec_table(index as int).spec_column(j)
                        == old(self).spec_table(index as int).spec_column(j)
            }),
    {
        proof {
            lemma_table_wf(self, index as int);
        }
        let table = &mut self.archetypes[index as usize];
        let r: bool = table.write_single_component(row, value);
        proof {
            lemma_table_replaced(old(self), self, index as int);
        }
        r
    }
}

/// A strictly sorted component list that contains every id of another
/// strictly sorted list is at least as long.
pub proof fn lemma_subset_len(q: Seq<crate::component_descriptor::ComponentDescriptor>,
    t: Seq<crate::component_descriptor::ComponentDescriptor>)
    requires
        crate::archetype_descriptor::ids_strictly_sorted(q),
        crate::archetype_descriptor::ids_strictly_sorted(t),
        forall|k: int| 0 <= k < q.len()
            ==> crate::archetype_descriptor::ids_contain(t, (#[trigger] q[k]).spec_id()),
    ensures
        q.len() <= t.len(),
    decreases t.len(),
{
    if q.len() > 0 {
        assert(crate::archetype_descriptor::ids_contain(t, q.last().spec_id()));
        let pt = choose|k: int| 0 <= k < t.len() && t[k].spec_id() == q.last().spec_id();
        if pt == t.len() - 1 {
            let q2 = q.drop_last();
            let t2 = t.drop_last();
            assert forall|k: int| 0 <= k < q2.len()
                implies crate::archetype_descriptor::ids_contain(t2,
                    (#[trigger] q2[k]).spec_id()) by {
                assert(q2[k] == q[k]);
                assert(crate::archetype_descriptor::ids_contain(t, q[k].spec_id()));
                let j = choose|j: int| 0 <= j < t.len() && t[j].spec_id() == q[k].spec_id();
                assert(q[k].spec_id() < q.last().spec_id());
                assert(j != t.len() - 1);
                assert(t2[j] == t[j]);
            }
            lemma_subset_len(q2, t2);
        } else {
            let t2 = t.drop_last();
            assert forall|k: int| 0 <= k < q.len()
                implies crate::archetype_descriptor::ids_contain(t2,
                    (#[trigger] q[k]).spec_id()) by {
                assert(crate::archetype_descriptor::ids_contain(t, q[k].spec_id()));
                let j = choose|j: int| 0 <= j < t.len() && t[j].spec_id() == q[k].spec_id();
                if j == t.len() - 1 {
                    // Then q[k] has the largest id of t, above t[pt] = q.last().
                    assert(t[pt].spec_id() < t[j].spec_id());
                    assert(q[k].spec_id() <= q.last().spec_id());
                    assert(false);
                }
                assert(t2[j] == t[j]);
            }
            lemma_subset_len(q, t2);
        }
    }
}

/// The traversal order of archetype tables: fewer components first, and
/// ascending archetype id among tables with the same component count.
pub open spec fn spec_table_order(d1: ArchetypeDescriptor, d2: ArchetypeDescriptor) -> bool {
    ||| d1.spec_len() < d2.spec_len()
    ||| (d1.spec_len() == d2.spec_len() && d1.spec_archetype_id().spec_value()
        < d2.spec_archetype_id().spec_value())
}

impl ArchetypeRegistry {
    /// The positions of every table whose archetype holds all of the
    /// query's components, walked level by level and in ascending id order
    /// within each level; each matching table appears exactly once.
    pub fn matching_tables(&self, query: &ArchetypeDescriptor) -> (r: Vec<u16>)
        requires
            self.wf(),
        ensures
            !query.spec_is_valid() ==> r@.len() == 0,
            forall|j: int| 0 <= j < r@.len() ==> (#[trigger] r@[j]) < self.spec_num_tables(),
            forall|j: int| 0 <= j < r@.len() ==> self.spec_table((#[trigger] r@[j]) as int)
                .spec_descriptor().spec_contains_subset(query),
            query.spec_is_valid() ==> forall|ti: int| 0 <= ti < self.spec_num_tables()
                && (#[trigger] self.spec_table(ti)).spec_descriptor().spec_contains_subset(
                    query) ==> r@.contains(ti as u16),
            forall|j1: int, j2: int| 0 <= j1 < j2 < r@.len() ==> r@[j1] != r@[j2],
            forall|j1: int, j2: int| 0 <= j1 < j2 < r@.len() ==> spec_table_order(
                self.spec_table(r@[j1] as int).spec_descriptor(),
                self.spec_table(r@[j2] as int).spec_descriptor()),
    {
        proof {
            use_type_invariant(query);
            query.lemma_wf();
        }
        let mut r: Vec<u16> = Vec::new();
        if !query.is_valid() {
            return r;
        }
        let start: usize = query.len() as usize - 1;
        proof {
            assert forall|ti: int| 0 <= ti < self.spec_num_tables()
                && (#[trigger] self.spec_table(ti)).spec_descriptor().spec_contains_subset(
                    query) implies self.spec_table(ti).spec_descriptor().spec_len()
                > start by {
                assert(self.spec_table(ti).wf());
                self.spec_table(ti).spec_descriptor().lemma_wf();
                lemma_subset_len(query.spec_components(),
                    self.spec_table(ti).spec_descriptor().spec_components());
            }
        }
        let mut l: usize = start;
        while l < 14
            invariant
                self.wf(),
                query.spec_is_valid(),
                query.wf(),
                start == query.spec_len() - 1,
                start <= l <= 14,
                forall|j: int| 0 <= j < r@.len() ==> (#[trigger] r@[j])
                    < self.spec_num_tables(),
                forall|j: int| 0 <= j < r@.len() ==> self.spec_table(
                    (#[trigger] r@[j]) as int).spec_descriptor().spec_contains_subset(
                    query),
                forall|j: int| 0 <= j < r@.len() ==> self.spec_table(
                    (#[trigger] r@[j]) as int).spec_descriptor().spec_len() <= l,
                forall|ti: int| 0 <= ti < self.spec_num_tables()
                    && (#[trigger] self.spec_table(ti)).spec_descriptor()
                        .spec_contains_subset(query)
                    && self.spec_table(ti).spec_descriptor().spec_len() <= l
                    ==> r@.contains(ti as u16),
                forall|j1: int, j2: int| 0 <= j1 < j2 < r@.len() ==> r@[j1] != r@[j2],
                forall|j1: int, j2: int| 0 <= j1 < j2 < r@.len() ==> spec_table_order(
                    self.spec_table(r@[j1] as int).spec_descriptor(),
                    self.spec_table(r@[j2] as int).spec_descriptor()),
            decreases 14 - l,
        {
            let mut k: usize = 0;
            let level_len: usize = {
                let level = &self.sorted_mappings[l];
                level.len()
            };
            while k < level_len
                invariant
                    self.wf(),
                    query.spec_is_valid(),
                    query.wf(),
                    start == query.spec_len() - 1,
                    start <= l < 14,
                    k <= level_len,
                    level_len == self.spec_level(l as int).len(),
                    forall|j: int| 0 <= j < r@.len() ==> (#[trigger] r@[j])
                        < self.spec_num_tables(),
                    forall|j: int| 0 <= j < r@.len() ==> self.spec_table(
                        (#[trigger] r@[j]) as int).spec_descriptor().spec_contains_subset(
                        query),
                    forall|j: int| 0 <= j < r@.len() ==> self.spec_table(
                        (#[trigger] r@[j]) as int).spec_descriptor().spec_len() <= l + 1,
                    forall|j: int| 0 <= j < r@.len() && self.spec_table(
                        (#[trigger] r@[j]) as int).spec_descriptor().spec_len() == l + 1
                        ==> exists|k0: int| 0 <= k0 < k && (#[trigger] self.spec_level(
                            l as int)[k0]).spec_archetype_index() == r@[j],
                    forall|ti: int| 0 <= ti < self.spec_num_tables()
                        && (#[trigger] self.spec_table(ti)).spec_descriptor()
                            .spec_contains_subset(query)
                        && self.spec_table(ti).spec_descriptor().spec_len() <= l
                        ==> r@.contains(ti as u16),
                    forall|ti: int| 0 <= ti < self.spec_num_tables()
                        && (#[trigger] self.spec_table(ti)).spec_descriptor()
                            .spec_contains_subset(query)
                        && self.spec_table(ti).spec_descriptor().spec_len() == l + 1
                        && (exists|k0: int| 0 <= k0 < k && (#[trigger] self.spec_level(
                            l as int)[k0]).spec_archetype_index() == ti)
                        ==> r@.contains(ti as u16),
                    forall|j1: int, j2: int| 0 <= j1 < j2 < r@.len() ==> r@[j1] != r@[j2],
                    forall|j1: int, j2: int| 0 <= j1 < j2 < r@.len() ==> spec_table_order(
                        self.spec_table(r@[j1] as int).spec_descriptor(),
                        self.spec_table(r@[j2] as int).spec_descriptor()),
                decreases level_len - k,
            {
                let idx: u16 = {
                    let level = &self.sorted_mappings[l];
                    level[k].archetype_index()
                };
                proof {
                    lemma_level_entry(self, l as int, k as int);
                }
                let matches: bool = self.archetypes[idx as usize].descriptor()
                    .contains_subset(query);
                let ghost r0 = r@;
                if matches {
                    proof {
                        // Not seen before: its level entry is at position k.
                        assert forall|j: int| 0 <= j < r0.len() implies r0[j] != idx by {
                            if r0[j] == idx {
                                if self.spec_table(idx as int).spec_descriptor().spec_len()
                                    == l + 1 {
                                    let k0 = choose|k0: int| 0 <= k0 < k
                                        && (#[trigger] self.spec_level(l as int)[k0])
                                            .spec_archetype_index() == idx;
                                    assert(self.spec_level(l as int)[k0].spec_id()
                                        == self.spec_table(idx as int).spec_descriptor()
                                            .spec_archetype_id());
                                    assert(self.spec_level(l as int)[k0].spec_id()
                                        .spec_value() < self.spec_level(l as int)[
                                        k as int].spec_id().spec_value());
                                }
                            }
                        }
                    }
                    r.push(idx);
                }
                proof {
                    assert forall|v: u16| r0.contains(v) implies r@.contains(v) by {
                        let j = choose|j: int| 0 <= j < r0.len() && r0[j] == v;
                        assert(r@[j] == v);
                    }
                    assert forall|ti: int| 0 <= ti < self.spec_num_tables()
                        && (#[trigger] self.spec_table(ti)).spec_descriptor()
                            .spec_contains_subset(query)
                        && self.spec_table(ti).spec_descriptor().spec_len() == l + 1
                        && (exists|k0: int| 0 <= k0 < k + 1 && (#[trigger] self.spec_level(
                            l as int)[k0]).spec_archetype_index() == ti)
                        implies r@.contains(ti as u16) by {
                        let k0 = choose|k0: int| 0 <= k0 < k + 1 && (#[trigger] self
                            .spec_level(l as int)[k0]).spec_archetype_index() == ti;
                        if k0 < k {
                            assert(r0.contains(ti as u16));
                            let j = choose|j: int| 0 <= j < r0.len() && r0[j] == ti as u16;
                            assert(r@[j] == ti as u16);
                        } else {
                            assert(ti == idx as int);
                            assert(r@[r@.len() - 1] == idx);
                        }
                    }
                    assert forall|j: int| 0 <= j < r@.len()
                        && self.spec_table((#[trigger] r@[j]) as int).spec_descriptor()
                            .spec_len() == l + 1
                        implies exists|k0: int| 0 <= k0 < k + 1
                            && (#[trigger] self.spec_level(l as int)[k0])
                                .spec_archetype_index() == r@[j] by {
                        if j < r0.len() {
                            assert(r@[j] == r0[j]);
                            if self.spec_table(r0[j] as int).spec_descriptor()
                                .spec_len() == l + 1 {
                                let k0 = choose|k0: int| 0 <= k0 < k
                                    && (#[trigger] self.spec_level(l as int)[k0])
                                        .spec_archetype_index() == r0[j];
                                assert(0 <= k0 < k + 1 && self.spec_level(
                                    l as int)[k0].spec_archetype_index() == r@[j]);
                            }
                        } else {
                            assert(r@[j] == idx);
                            assert(self.spec_level(l as int)[k as int]
                                .spec_archetype_index() == r@[j]);
                        }
                    }
                }
                k = k + 1;
            }
            proof {
                // Every matching table of this level is indexed in it.
                assert forall|ti: int| 0 <= ti < self.spec_num_tables()
                    && (#[trigger] self.spec_table(ti)).spec_descriptor()
                        .spec_contains_subset(query)
                    && self.spec_table(ti).spec_descriptor().spec_len() <= l + 1
                    implies r@.contains(ti as u16) by {
                    if self.spec_table(ti).spec_descriptor().spec_len() == l + 1 {
                        assert(self.spec_table(ti).wf());
                        let k0 = choose|k0: int| 0 <= k0 < self.spec_level(
                            self.spec_table(ti).spec_descriptor().spec_len() - 1).len()
                            && (#[trigger] self.spec_level(self.spec_table(ti)
                                .spec_descriptor().spec_len() - 1)[k0])
                                .spec_archetype_index() == ti;
                        assert(0 <= k0 < level_len && self.spec_level(l as int)[k0]
                            .spec_archetype_index() == ti);
                    }
                }
            }
            l = l + 1;
        }
        proof {
            // A table with fewer components than the query cannot match.
            assert forall|ti: int| 0 <= ti < self.spec_num_tables()
                && (#[trigger] self.spec_table(ti)).spec_descriptor().spec_contains_subset(
                    query) implies r@.contains(ti as u16) by {
                assert(self.spec_table(ti).wf());
                self.spec_table(ti).spec_descriptor().lemma_wf();
                query.lemma_wf();
                lemma_subset_len(query.spec_components(),
                    self.spec_table(ti).spec_descriptor().spec_components());
            }
        }
        r
    }
}

/// Replacing one table with a well-formed table of the same descriptor
/// keeps the whole registry well-formed.
proof fn lemma_table_replaced(pre: &ArchetypeRegistry, post: &ArchetypeRegistry, t: int)
    requires
        pre.wf(),
        0 <= t < pre.spec_num_tables(),
        post.spec_num_tables() == pre.spec_num_tables(),
        post.sorted_mappings@ == pre.sorted_mappings@,
        forall|t2: int| 0 <= t2 < pre.spec_num_tables() && t2 != t
            ==> post.spec_table(t2) == pre.spec_table(t2),
        post.spec_table(t).wf(),
        post.spec_table(t).spec_descriptor() == pre.spec_table(t).spec_descriptor(),
    ensures
        post.wf(),
{
    assert forall|l: int| 0 <= l < 14 implies #[trigger] post.spec_level(l)
        == pre.spec_level(l) by {
        assert(post.sorted_mappings@[l] == pre.sorted_mappings@[l]);
    }
    assert forall|l: int, k1: int, k2: int| 0 <= l < 14 && 0 <= k1 < k2
        < post.spec_level(l).len() implies post.spec_level(l)[k1].spec_id().spec_value()
        < post.spec_level(l)[k2].spec_id().spec_value() by {
        assert(pre.spec_level(l)[k1].spec_id().spec_value()
            < pre.spec_level(l)[k2].spec_id().spec_value());
    }
    assert forall|l: int, k: int| 0 <= l < 14 && 0 <= k < post.spec_level(l).len() implies {
        &&& (#[trigger] post.spec_level(l)[k]).spec_archetype_index()
            < post.spec_num_tables()
        &&& post.spec_table(post.spec_level(l)[k].spec_archetype_index() as int)
            .spec_descriptor().spec_len() == l + 1
        &&& post.spec_table(post.spec_level(l)[k].spec_archetype_index() as int)
            .spec_descriptor().spec_archetype_id() == post.spec_level(l)[k].spec_id()
    } by {
        assert((#[trigger] pre.spec_level(l)[k]).spec_archetype_index()
            < pre.spec_num_tables());
        let ti = pre.spec_level(l)[k].spec_archetype_index() as int;
        if ti != t {
            assert(post.spec_table(ti) == pre.spec_table(ti));
        }
    }
    assert forall|t2: int| 0 <= t2 < post.spec_num_tables() implies {
        &&& (#[trigger] post.spec_table(t2)).wf()
        &&& 1 <= post.spec_table(t2).spec_descriptor().spec_len() <= 14
        &&& exists|k: int| 0 <= k < post.spec_level(
            post.spec_table(t2).spec_descriptor().spec_len() - 1).len()
            && (#[trigger] post.spec_level(post.spec_table(t2).spec_descriptor().spec_len()
                - 1)[k]).spec_archetype_index() == t2
    } by {
        assert(pre.spec_table(t2).wf());
        let lv = pre.spec_table(t2).spec_descriptor().spec_len() - 1;
        let k0 = choose|k: int| 0 <= k < pre.spec_level(lv).len()
            && (#[trigger] pre.spec_level(lv)[k]).spec_archetype_index() == t2;
        assert(post.spec_level(lv)[k0].spec_archetype_index() == t2);
        if t2 != t {
            assert(post.spec_table(t2) == pre.spec_table(t2));
        }
    }
    assert forall|t1: int, t2: int| 0 <= t1 < t2 < post.spec_num_tables()
        implies !(post.spec_table(t1).spec_descriptor().spec_len()
            == post.spec_table(t2).spec_descriptor().spec_len()
            && post.spec_table(t1).spec_descriptor().spec_archetype_id()
            == post.spec_table(t2).spec_descriptor().spec_archetype_id()) by {
        assert(post.spec_table(t1).spec_descriptor()
            == pre.spec_table(t1).spec_descriptor());
        assert(post.spec_table(t2).spec_descriptor()
            == pre.spec_table(t2).spec_descriptor());
    }
}

/// The level index `l` of a well-formed registry is strictly ascending by
/// archetype id.
proof fn lemma_level_sorted(reg: &ArchetypeRegistry, l: int)
    requires
        reg.wf(),
        0 <= l < 14,
    ensures
        forall|k1: int, k2: int| 0 <= k1 < k2 < reg.spec_level(l).len()
            ==> reg.spec_level(l)[k1].spec_id().spec_value()
                < reg.spec_level(l)[k2].spec_id().spec_value(),
{
}

/// Entry `k` of level `l` points at a table of that level carrying the
/// entry's archetype id.
proof fn lemma_level_entry(reg: &ArchetypeRegistry, l: int, k: int)
    requires
        reg.wf(),
        0 <= l < 14,
        0 <= k < reg.spec_level(l).len(),
    ensures
        reg.spec_level(l)[k].spec_archetype_index() < reg.spec_num_tables(),
        reg.spec_table(reg.spec_level(l)[k].spec_archetype_index() as int).spec_descriptor()
            .spec_len() == l + 1,
        reg.spec_table(reg.spec_level(l)[k].spec_archetype_index() as int).spec_descriptor()
            .spec_archetype_id() == reg.spec_level(l)[k].spec_id(),
{
    assert(reg.spec_level(l)[k].spec_archetype_index() < reg.spec_num_tables());
}

/// Every table of a well-formed registry is itself well-formed.
proof fn lemma_table_wf(reg: &ArchetypeRegistry, t: int)
    requires
        reg.wf(),
        0 <= t < reg.spec_num_tables(),
    ensures
        reg.spec_table(t).wf(),
        1 <= reg.spec_table(t).spec_descriptor().spec_len() <= 14,
{
    assert(reg.spec_table(t).wf());
}

/// Within one registry there is at most one table of a given component
/// count and archetype id; any found one is therefore the `choose`n one.
pub proof fn lemma_unique_table(reg: &ArchetypeRegistry, t: int, len: nat, id: u32)
    requires
        reg.wf(),
        0 <= t < reg.spec_num_tables(),
        reg.spec_table(t).spec_descriptor().spec_len() == len,
        reg.spec_table(t).spec_descriptor().spec_archetype_id().spec_value() == id,
    ensures
        reg.spec_has_table(len, id),
        reg.spec_table_index(len, id) == t,
{
    assert(reg.spec_has_table(len, id));
    let t2 = reg.spec_table_index(len, id);
    if t2 != t {
        crate::archetype_id::lemma_archetype_id_determined(
            reg.spec_table(t).spec_descriptor().spec_archetype_id(),
            reg.spec_table(t2).spec_descriptor().spec_archetype_id());
        if t < t2 {
            assert(!(reg.spec_table(t).spec_descriptor().spec_len()
                == reg.spec_table(t2).spec_descriptor().spec_len()
                && reg.spec_table(t).spec_descriptor().spec_archetype_id()
                == reg.spec_table(t2).spec_descriptor().spec_archetype_id()));
        } else {
            assert(!(reg.spec_table(t2).spec_descriptor().spec_len()
                == reg.spec_table(t).spec_descriptor().spec_len()
                && reg.spec_table(t2).spec_descriptor().spec_archetype_id()
                == reg.spec_table(t).spec_descriptor().spec_archetype_id()));
        }
        assert(false);
    }
}

} // verus!
