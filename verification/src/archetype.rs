use vstd::prelude::*;
use crate::archetype_descriptor::{ArchetypeDescriptor, spec_find_pos, lemma_find_pos_matches};
use crate::component_descriptor::ComponentDescriptor;
use crate::component_type_id::ComponentTypeId;
use crate::component_value::ComponentValue;
use crate::entity::Entity;

verus! {

/// The deep view of column `k` of a column vector: a sequence of byte
/// records.
pub open spec fn column_view(cols: Seq<Vec<Vec<u8>>>, k: int) -> Seq<Seq<u8>> {
    cols[k]@.map_values(|row: Vec<u8>| row@)
}

/// Swaps two rows of one column without requiring the rows to be copyable.
fn swap_column_rows(col: &mut Vec<Vec<u8>>, i: usize, j: usize)
    requires
        i < old(col)@.len(),
        j < old(col)@.len(),
    ensures
        final(col)@ == old(col)@.update(i as int, old(col)@[j as int]).update(
            j as int, old(col)@[i as int]),
{
    if i == j {
        proof {
            assert(col@ =~= old(col)@.update(i as int, old(col)@[j as int]).update(
                j as int, old(col)@[i as int]));
        }
        return ;
    }
    let lo: usize = if i < j { i } else { j };
    let hi: usize = if i < j { j } else { i };
    let b: Vec<u8> = col.remove(hi);
    let a: Vec<u8> = col.remove(lo);
    col.insert(lo, b);
    col.insert(hi, a);
    proof {
        assert(col@ =~= old(col)@.update(i as int, old(col)@[j as int]).update(
            j as int, old(col)@[i as int]));
    }
}

/// Replaces one row of one column.
fn set_column_row(col: &mut Vec<Vec<u8>>, row: usize, bytes: Vec<u8>)
    requires
        row < old(col)@.len(),
    ensures
        final(col)@ == old(col)@.update(row as int, bytes),
{
    let _discarded: Vec<u8> = col.remove(row);
    col.insert(row, bytes);
    proof {
        assert(col@ =~= old(col)@.update(row as int, bytes));
    }
}

/// The columnar table for one archetype: one byte-record column per
/// component of the descriptor, in canonical order, plus a parallel column
/// of entity back-pointers. Row `r` of column `k` holds the bytes of the
/// `k`-th component of the entity `entities[r]`.
#[derive(Debug)]
pub struct Archetype {
    descriptor: ArchetypeDescriptor,
    columns: Vec<Vec<Vec<u8>>>,
    entities: Vec<Entity>,
    capacity: u32,
}

impl Archetype {
    /// The archetype descriptor this table was built for.
    pub closed spec fn spec_descriptor(&self) -> ArchetypeDescriptor {
        self.descriptor
    }

    /// The entity back-pointers, one per row.
    pub closed spec fn spec_entities(&self) -> Seq<Entity> {
        self.entities@
    }

    /// The number of rows.
    pub open spec fn spec_len(&self) -> nat {
        self.spec_entities().len()
    }

    /// The declared row capacity.
    pub closed spec fn spec_capacity(&self) -> u32 {
        self.capacity
    }

    /// The number of columns.
    pub open spec fn spec_num_columns(&self) -> nat {
        self.spec_descriptor().spec_len()
    }

    /// The number of column vectors actually allocated.
    pub closed spec fn spec_columns_len(&self) -> nat {
        self.columns@.len()
    }

    /// Column `k` as a sequence of byte records, one per row.
    pub closed spec fn spec_column(&self, k: int) -> Seq<Seq<u8>> {
        column_view(self.columns@, k)
    }

    /// The bytes of the component with id `id` in row `row`.
    pub open spec fn spec_component(&self, row: int, id: u16) -> Seq<u8> {
        self.spec_column(spec_find_pos(self.spec_descriptor().spec_components(), id))[row]
    }

    /// Table well-formedness: a valid descriptor, one column per component,
    /// all columns as long as the entity column, each record of the size its
    /// component descriptor declares, valid back-pointers, and a row count
    /// within the declared capacity.
    pub open spec fn wf(&self) -> bool {
        &&& self.spec_descriptor().wf()
        &&& self.spec_descriptor().spec_is_valid()
        &&& self.spec_columns_len() == self.spec_num_columns()
        &&& forall|k: int| 0 <= k < self.spec_num_columns()
            ==> (#[trigger] self.spec_column(k)).len() == self.spec_len()
        &&& forall|k: int, r: int| 0 <= k < self.spec_num_columns() && 0 <= r < self.spec_len()
            ==> (#[trigger] self.spec_column(k)[r]).len()
                == self.spec_descriptor().spec_components()[k].spec_size()
        &&& forall|r: int| 0 <= r < self.spec_len()
            ==> (#[trigger] self.spec_entities()[r]).spec_is_valid()
        &&& self.spec_len() <= self.spec_capacity()
        &&& self.spec_capacity() <= 16777215
    }

    /// Builds an empty table for `archetype_descriptor` with the default
    /// row capacity.
    pub fn new(archetype_descriptor: &ArchetypeDescriptor) -> (r: Archetype)
        requires
            archetype_descriptor.spec_is_valid(),
        ensures
            r.wf(),
            r.spec_descriptor().spec_archetype_id()
                == archetype_descriptor.spec_archetype_id(),
            r.spec_descriptor().spec_components() == archetype_descriptor.spec_components(),
            r.spec_len() == 0,
            r.spec_capacity() == 128,
    {
        Archetype::with_capacity(archetype_descriptor, 128)
    }

    /// Builds an empty table for `archetype_descriptor` with the given row
    /// capacity; a request above the largest admissible row count reserves
    /// nothing and leaves the capacity at zero.
    pub fn with_capacity(archetype_descriptor: &ArchetypeDescriptor, capacity: u32) -> (r:
        Archetype)
        requires
            archetype_descriptor.spec_is_valid(),
        ensures
            r.wf(),
            r.spec_descriptor().spec_archetype_id()
                == archetype_descriptor.spec_archetype_id(),
            r.spec_descriptor().spec_components() == archetype_descriptor.spec_components(),
            r.spec_len() == 0,
            r.spec_capacity() == (if capacity <= 16777215 { capacity } else { 0u32 }),
    {
        proof {
            use_type_invariant(archetype_descriptor);
            archetype_descriptor.lemma_wf();
        }
        let descriptor: ArchetypeDescriptor = archetype_descriptor.clone();
        let n: usize = descriptor.len() as usize;
        let mut columns: Vec<Vec<Vec<u8>>> = Vec::new();
        let mut k: usize = 0;
        while k < n
            invariant
                k <= n,
                columns@.len() == k,
                forall|j: int| 0 <= j < k ==> column_view(columns@, j).len() == 0,
            decreases n - k,
        {
            let ghost cols0 = columns@;
            let col: Vec<Vec<u8>> = Vec::new();
            columns.push(col);
            proof {
                assert forall|j: int| 0 <= j < k + 1 implies column_view(columns@, j).len()
                    == 0 by {
                    if j < k {
                        assert(columns@[j] == cols0[j]);
                        assert(column_view(cols0, j).len() == 0);
                    }
                }
            }
            k = k + 1;
        }
        let cap: u32 = if capacity <= 16777215 { capacity } else { 0 };
        let ghost cols_view = columns@;
        let r = Archetype { descriptor, columns, entities: Vec::new(), capacity: cap };
        proof {
            use_type_invariant(&r.descriptor);
            r.descriptor.lemma_wf();
            assert forall|j: int| 0 <= j < r.spec_num_columns() implies (#[trigger] r
                .spec_column(j)).len() == 0 by {
                assert(column_view(cols_view, j).len() == 0);
            }
        }
        r
    }

    /// The archetype descriptor this table was built for.
    pub fn descriptor(&self) -> (r: &ArchetypeDescriptor)
        ensures
            r == self.spec_descriptor(),
    {
        &self.descriptor
    }

    /// The number of rows.
    pub fn len(&self) -> (r: u32)
        requires
            self.wf(),
        ensures
            r == self.spec_len(),
    {
        self.entities.len() as u32
    }

    /// The declared row capacity.
    pub fn capacity(&self) -> (r: u32)
        ensures
            r == self.spec_capacity(),
    {
        self.capacity
    }

    /// True if the row count has reached the declared capacity.
    pub fn is_full(&self) -> (r: bool)
        requires
            self.wf(),
        ensures
            r == (self.spec_len() == self.spec_capacity()),
    {
        self.entities.len() == self.capacity as usize
    }

    /// The entity back-pointers, one per row.
    pub fn entities(&self) -> (r: &[Entity])
        ensures
            r@ == self.spec_entities(),
    {
        self.entities.as_slice()
    }

    /// The entity that owns row `row`.
    pub fn entity_at(&self, row: u32) -> (r: Entity)
        requires
            self.wf(),
            row < self.spec_len(),
        ensures
            r == self.spec_entities()[row as int],
    {
        self.entities[row as usize]
    }

    /// The canonical position of the column holding component id `id`, or
    /// `None` if the archetype lacks that component.
    pub fn find_column(&self, id: ComponentTypeId) -> (r: Option<usize>)
        requires
            self.wf(),
        ensures
            r.is_some() == self.spec_descriptor().spec_has_id(id.spec_value()),
            r.is_some() ==> {
                &&& r.unwrap() < self.spec_num_columns()
                &&& r.unwrap() == spec_find_pos(self.spec_descriptor().spec_components(),
                    id.spec_value())
                &&& self.spec_descriptor().spec_components()[r.unwrap() as int].spec_id()
                    == id.spec_value()
            },
    {
        let components = self.descriptor.components();
        let mut k: usize = 0;
        while k < components.len()
            invariant
                k <= components@.len(),
                components@ == self.spec_descriptor().spec_components(),
                forall|i: int| 0 <= i < k ==> (#[trigger] components@[i]).spec_id()
                    != id.spec_value(),
            decreases components@.len() - k,
        {
            if components[k].component_type_id().into_u16() == id.into_u16() {
                proof {
                    lemma_find_pos_matches(self.spec_descriptor().spec_components(),
                        id.spec_value(), k as int);
                }
                return Some(k);
            }
            k = k + 1;
        }
        None
    }

    /// Grows the declared capacity if the table is full: to the default
    /// floor from zero, doubling otherwise, capped at the largest
    /// admissible row count.
    fn reserve_for_push(&mut self)
        requires
            old(self).wf(),
        ensures
            final(self).wf(),
            final(self).spec_descriptor() == old(self).spec_descriptor(),
            final(self).spec_entities() == old(self).spec_entities(),
            final(self).spec_columns_len() == old(self).spec_columns_len(),
            forall|k: int| 0 <= k < old(self).spec_num_columns()
                ==> final(self).spec_column(k) == old(self).spec_column(k),
            old(self).spec_len() < 16777215 ==> final(self).spec_len()
                < final(self).spec_capacity(),
            final(self).spec_capacity() == (if old(self).spec_len()
                < old(self).spec_capacity() {
                old(self).spec_capacity()
            } else if old(self).spec_capacity() == 0 {
                128u32
            } else if old(self).spec_capacity() * 2 <= 16777215 {
                (old(self).spec_capacity() * 2) as u32
            } else {
                16777215u32
            }),
    {
        if self.entities.len() < self.capacity as usize {
            return ;
        }
        if self.capacity == 0 {
            self.capacity = 128;
        } else if self.capacity <= 8388607 {
            self.capacity = self.capacity * 2;
        } else {
            self.capacity = 16777215;
        }
        proof {
            assert forall|k: int| 0 <= k < old(self).spec_num_columns()
                implies #[trigger] self.spec_column(k) == old(self).spec_column(k) by {
                assert(self.columns@[k] == old(self).columns@[k]);
            }
        }
    }

    /// Appends a row holding `entity` and the given component values, which
    /// must match the archetype's components one for one in canonical
    /// order. Returns the new row's index.
    pub fn push_entity(&mut self, entity: Entity, components: Vec<ComponentValue>) -> (r: u32)
        requires
            old(self).wf(),
            entity.spec_is_valid(),
            old(self).spec_len() < 16777215,
            components@.len() == old(self).spec_num_columns(),
            forall|k: int| 0 <= k < components@.len()
                ==> (#[trigger] components@[k]).spec_descriptor()
                    == old(self).spec_descriptor().spec_components()[k],
        ensures
            final(self).wf(),
            r == old(self).spec_len(),
            final(self).spec_descriptor() == old(self).spec_descriptor(),
            final(self).spec_len() == old(self).spec_len() + 1,
            final(self).spec_entities() == old(self).spec_entities().push(entity),
            forall|k: int| 0 <= k < old(self).spec_num_columns()
                ==> final(self).spec_column(k) == old(self).spec_column(k).push(
                    components@[k].spec_data()),
            final(self).spec_capacity() == (if old(self).spec_len()
                < old(self).spec_capacity() {
                old(self).spec_capacity()
            } else if old(self).spec_capacity() == 0 {
                128u32
            } else if old(self).spec_capacity() * 2 <= 16777215 {
                (old(self).spec_capacity() * 2) as u32
            } else {
                16777215u32
            }),
    {
        self.reserve_for_push();
        let ghost reserved_capacity = self.spec_capacity();
        let row: u32 = self.entities.len() as u32;
        self.entities.push(entity);
        let n: usize = self.columns.len();
        let mut comps: Vec<ComponentValue> = components;
        let mut k: usize = n;
        while k > 0
            invariant
                k <= n,
                n == old(self).spec_num_columns(),
                comps@ == components@.take(k as int),
                components@.len() == n,
                self.spec_descriptor() == old(self).spec_descriptor(),
                self.spec_entities() == old(self).spec_entities().push(entity),
                self.spec_columns_len() == old(self).spec_columns_len(),
                old(self).spec_columns_len() == n,
                self.spec_capacity() == reserved_capacity,
                self.spec_capacity() >= old(self).spec_len() + 1,
                self.spec_capacity() <= 16777215,
                old(self).wf(),
                forall|j: int| 0 <= j < components@.len()
                    ==> (#[trigger] components@[j]).spec_descriptor()
                        == old(self).spec_descriptor().spec_components()[j],
                forall|j: int| 0 <= j < k ==> #[trigger] self.spec_column(j)
                    == old(self).spec_column(j),
                forall|j: int| k <= j < n ==> #[trigger] self.spec_column(j)
                    == old(self).spec_column(j).push(components@[j].spec_data()),
                forall|j: int| k <= j < n ==> (#[trigger] components@[j]).spec_data().len()
                    == old(self).spec_descriptor().spec_components()[j].spec_size(),
            decreases k,
        {
            k = k - 1;
            let cv: ComponentValue = comps.pop().unwrap();
            proof {
                use_type_invariant(&cv);
                cv.lemma_wf();
                assert(comps@ =~= components@.take(k as int));
                assert(cv == components@[k as int]);
            }
            let ghost self0 = *self;
            let bytes: Vec<u8> = cv.into_data();
            let col = &mut self.columns[k];
            col.push(bytes);
            proof {
                assert forall|j: int| 0 <= j < n && j != k as int
                    implies #[trigger] self.spec_column(j) == self0.spec_column(j) by {
                    assert(self.columns@[j] == self0.columns@[j]);
                }
                assert(self.spec_column(k as int) =~= self0.spec_column(k as int).push(
                    components@[k as int].spec_data()));
                assert(self0.spec_column(k as int) == old(self).spec_column(k as int));
            }
        }
        proof {
            assert forall|k2: int, r2: int| 0 <= k2 < self.spec_num_columns() && 0 <= r2
                < self.spec_len() implies (#[trigger] self.spec_column(k2)[r2]).len()
                == self.spec_descriptor().spec_components()[k2].spec_size() by {
                if r2 < old(self).spec_len() {
                    assert(old(self).spec_column(k2)[r2].len()
                        == old(self).spec_descriptor().spec_components()[k2].spec_size());
                }
            }
        }
        row
    }

    /// Removes the last row, returning its entity and its component values
    /// in canonical order.
    pub fn pop_row(&mut self) -> (r: (Entity, Vec<ComponentValue>))
        requires
            old(self).wf(),
            old(self).spec_len() > 0,
        ensures
            final(self).wf(),
            final(self).spec_descriptor() == old(self).spec_descriptor(),
            final(self).spec_len() == old(self).spec_len() - 1,
            final(self).spec_entities() == old(self).spec_entities().drop_last(),
            forall|k: int| 0 <= k < old(self).spec_num_columns()
                ==> final(self).spec_column(k) == old(self).spec_column(k).drop_last(),
            r.0 == old(self).spec_entities().last(),
            r.0.spec_is_valid(),
            r.1@.len() == old(self).spec_num_columns(),
            forall|k: int| 0 <= k < r.1@.len() ==> (#[trigger] r.1@[k]).spec_descriptor()
                == old(self).spec_descriptor().spec_components()[k],
            forall|k: int| 0 <= k < r.1@.len() ==> (#[trigger] r.1@[k]).spec_data()
                == old(self).spec_column(k).last(),
            final(self).spec_capacity() == old(self).spec_capacity(),
    {
        proof {
            use_type_invariant(&self.descriptor);
            self.descriptor.lemma_wf();
        }
        let entity: Entity = self.entities.pop().unwrap();
        let n: usize = self.columns.len();
        let mut comps: Vec<ComponentValue> = Vec::new();
        let mut k: usize = 0;
        while k < n
            invariant
                k <= n,
                n == old(self).spec_columns_len(),
                old(self).wf(),
                old(self).spec_len() > 0,
                self.spec_descriptor() == old(self).spec_descriptor(),
                self.spec_entities() == old(self).spec_entities().drop_last(),
                self.spec_columns_len() == old(self).spec_columns_len(),
                self.spec_capacity() == old(self).spec_capacity(),
                forall|j: int| 0 <= j < k ==> #[trigger] self.spec_column(j)
                    == old(self).spec_column(j).drop_last(),
                forall|j: int| k <= j < n ==> #[trigger] self.spec_column(j)
                    == old(self).spec_column(j),
                comps@.len() == k,
                forall|j: int| 0 <= j < k ==> (#[trigger] comps@[j]).spec_descriptor()
                    == old(self).spec_descriptor().spec_components()[j],
                forall|j: int| 0 <= j < k ==> (#[trigger] comps@[j]).spec_data()
                    == old(self).spec_column(j).last(),
            decreases n - k,
        {
            proof {
                use_type_invariant(&self.descriptor);
                self.descriptor.lemma_wf();
            }
            let desc: ComponentDescriptor = self.descriptor.components()[k];
            let ghost self0 = *self;
            proof {
                assert(self0.spec_column(k as int) == old(self).spec_column(k as int));
                assert(old(self).spec_column(k as int).len() == old(self).spec_len());
            }
            let col = &mut self.columns[k];
            let bytes: Vec<u8> = col.pop().unwrap();
            proof {
                assert forall|j: int| 0 <= j < n && j != k as int
                    implies #[trigger] self.spec_column(j) == self0.spec_column(j) by {
                    assert(self.columns@[j] == self0.columns@[j]);
                }
                assert(self.spec_column(k as int) =~= self0.spec_column(
                    k as int).drop_last());
                assert(bytes@ == old(self).spec_column(k as int).last());
                assert(old(self).spec_column(k as int)[old(self).spec_len() - 1].len()
                    == old(self).spec_descriptor().spec_components()[k as int].spec_size());
                assert(desc == old(self).spec_descriptor().spec_components()[k as int]);
                assert(desc.spec_is_valid());
                assert(bytes@.len() == desc.spec_size());
            }
            let cv: ComponentValue = ComponentValue::new(desc, bytes).unwrap();
            let ghost comps0 = comps@;
            comps.push(cv);
            proof {
                assert forall|j: int| 0 <= j < k + 1 implies {
                    &&& (#[trigger] comps@[j]).spec_descriptor()
                        == old(self).spec_descriptor().spec_components()[j]
                    &&& comps@[j].spec_data() == old(self).spec_column(j).last()
                } by {
                    if j < k {
                        assert(comps@[j] == comps0[j]);
                    }
                }
            }
            k = k + 1;
        }
        (entity, comps)
    }

    /// Swaps rows `i` and `j`: all component columns and the entity column.
    pub fn swap_rows(&mut self, i: u32, j: u32)
        requires
            old(self).wf(),
            i < old(self).spec_len(),
            j < old(self).spec_len(),
        ensures
            final(self).wf(),
            final(self).spec_descriptor() == old(self).spec_descriptor(),
            final(self).spec_len() == old(self).spec_len(),
            final(self).spec_capacity() == old(self).spec_capacity(),
            final(self).spec_entities() == old(self).spec_entities().update(
                i as int, old(self).spec_entities()[j as int]).update(
                j as int, old(self).spec_entities()[i as int]),
            forall|k: int| 0 <= k < old(self).spec_num_columns()
                ==> final(self).spec_column(k) == old(self).spec_column(k).update(
                    i as int, old(self).spec_column(k)[j as int]).update(
                    j as int, old(self).spec_column(k)[i as int]),
    {
        let a: Entity = self.entities[i as usize];
        let b: Entity = self.entities[j as usize];
        self.entities[i as usize] = b;
        self.entities[j as usize] = a;
        let n: usize = self.columns.len();
        let mut k: usize = 0;
        while k < n
            invariant
                k <= n,
                n == old(self).spec_columns_len(),
                old(self).wf(),
                i < old(self).spec_len(),
                j < old(self).spec_len(),
                self.spec_descriptor() == old(self).spec_descriptor(),
                self.spec_capacity() == old(self).spec_capacity(),
                self.spec_columns_len() == old(self).spec_columns_len(),
                self.spec_entities() == old(self).spec_entities().update(
                    i as int, old(self).spec_entities()[j as int]).update(
                    j as int, old(self).spec_entities()[i as int]),
                forall|m: int| 0 <= m < k ==> #[trigger] self.spec_column(m)
                    == old(self).spec_column(m).update(
                        i as int, old(self).spec_column(m)[j as int]).update(
                        j as int, old(self).spec_column(m)[i as int]),
                forall|m: int| k <= m < n ==> #[trigger] self.spec_column(m)
                    == old(self).spec_column(m),
            decreases n - k,
        {
            let ghost self0 = *self;
            proof {
                assert(self0.spec_column(k as int) == old(self).spec_column(k as int));
                assert(old(self).spec_column(k as int).len() == old(self).spec_len());
            }
            let col = &mut self.columns[k];
            swap_column_rows(col, i as usize, j as usize);
            proof {
                assert forall|m: int| 0 <= m < n && m != k as int
                    implies #[trigger] self.spec_column(m) == self0.spec_column(m) by {
                    assert(self.columns@[m] == self0.columns@[m]);
                }
                assert(self.spec_column(k as int) =~= self0.spec_column(k as int).update(
                    i as int, self0.spec_column(k as int)[j as int]).update(
                    j as int, self0.spec_column(k as int)[i as int]));
            }
            k = k + 1;
        }
        proof {
            assert forall|k2: int, r: int| 0 <= k2 < self.spec_num_columns() && 0 <= r
                < self.spec_len() implies (#[trigger] self.spec_column(k2)[r]).len()
                == self.spec_descriptor().spec_components()[k2].spec_size() by {
                assert(old(self).spec_column(k2)[r].len()
                    == old(self).spec_descriptor().spec_components()[k2].spec_size());
                assert(old(self).spec_column(k2)[i as int].len()
                    == old(self).spec_descriptor().spec_components()[k2].spec_size());
                assert(old(self).spec_column(k2)[j as int].len()
                    == old(self).spec_descriptor().spec_components()[k2].spec_size());
            }
        }
    }

    /// Moves row `row` to the last position by a swap; reports whether a
    /// swap happened (that is, whether `row` was not already last).
    pub fn swap_to_last(&mut self, row: u32) -> (r: bool)
        requires
            old(self).wf(),
            row < old(self).spec_len(),
        ensures
            final(self).wf(),
            r == (row < old(self).spec_len() - 1),
            final(self).spec_descriptor() == old(self).spec_descriptor(),
            final(self).spec_len() == old(self).spec_len(),
            final(self).spec_capacity() == old(self).spec_capacity(),
            !r ==> *final(self) == *old(self),
            final(self).spec_entities() == old(self).spec_entities().update(
                row as int, old(self).spec_entities().last()).update(
                old(self).spec_len() - 1, old(self).spec_entities()[row as int]),
            forall|k: int| 0 <= k < old(self).spec_num_columns()
                ==> final(self).spec_column(k) == old(self).spec_column(k).update(
                    row as int, old(self).spec_column(k).last()).update(
                    old(self).spec_len() - 1, old(self).spec_column(k)[row as int]),
    {
        let last: u32 = self.entities.len() as u32 - 1;
        if row == last {
            proof {
                assert(self.spec_entities() =~= self.spec_entities().update(
                    row as int, self.spec_entities().last()).update(
                    self.spec_len() - 1, self.spec_entities()[row as int]));
                assert forall|k: int| 0 <= k < self.spec_num_columns()
                    implies #[trigger] self.spec_column(k) == self.spec_column(k).update(
                        row as int, self.spec_column(k).last()).update(
                        self.spec_len() - 1, self.spec_column(k)[row as int]) by {
                    assert(self.spec_column(k) =~= self.spec_column(k).update(
                        row as int, self.spec_column(k).last()).update(
                        self.spec_len() - 1, self.spec_column(k)[row as int]));
                }
            }
            false
        } else {
            self.swap_rows(row, last);
            true
        }
    }

    /// Drops row `row` by swapping it with the last row and removing the
    /// last row. Reports whether a swap happened; if it did, the entity
    /// formerly in the last row now owns row `row`. Dropping the last row
    /// itself is a plain removal with no swap.
    pub fn swap_drop(&mut self, row: u32) -> (r: bool)
        requires
            old(self).wf(),
            row < old(self).spec_len(),
        ensures
            final(self).wf(),
            r == (row < old(self).spec_len() - 1),
            final(self).spec_descriptor() == old(self).spec_descriptor(),
            final(self).spec_len() == old(self).spec_len() - 1,
            final(self).spec_capacity() == old(self).spec_capacity(),
            final(self).spec_entities() == old(self).spec_entities().update(
                row as int, old(self).spec_entities().last()).drop_last(),
            forall|k: int| 0 <= k < old(self).spec_num_columns()
                ==> final(self).spec_column(k) == old(self).spec_column(k).update(
                    row as int, old(self).spec_column(k).last()).drop_last(),
    {
        let r: bool = self.swap_to_last(row);
        let (_entity, _components) = self.pop_row();
        proof {
            assert(self.spec_entities() =~= old(self).spec_entities().update(
                row as int, old(self).spec_entities().last()).drop_last());
            assert forall|k: int| 0 <= k < old(self).spec_num_columns()
                implies #[trigger] self.spec_column(k) == old(self).spec_column(k).update(
                    row as int, old(self).spec_column(k).last()).drop_last() by {
                assert(self.spec_column(k) =~= old(self).spec_column(k).update(
                    row as int, old(self).spec_column(k).last()).drop_last());
            }
        }
        r
    }

    /// Like `swap_drop`, but first reads the dropped row out and returns
    /// its component values in canonical order, with the swap flag.
    pub fn swap_remove(&mut self, row: u32) -> (r: (Vec<ComponentValue>, bool))
        requires
            old(self).wf(),
            row < old(self).spec_len(),
        ensures
            final(self).wf(),
            r.1 == (row < old(self).spec_len() - 1),
            final(self).spec_descriptor() == old(self).spec_descriptor(),
            final(self).spec_len() == old(self).spec_len() - 1,
            final(self).spec_capacity() == old(self).spec_capacity(),
            final(self).spec_entities() == old(self).spec_entities().update(
                row as int, old(self).spec_entities().last()).drop_last(),
            forall|k: int| 0 <= k < old(self).spec_num_columns()
                ==> final(self).spec_column(k) == old(self).spec_column(k).update(
                    row as int, old(self).spec_column(k).last()).drop_last(),
            r.0@.len() == old(self).spec_num_columns(),
            forall|k: int| 0 <= k < r.0@.len() ==> (#[trigger] r.0@[k]).spec_descriptor()
                == old(self).spec_descriptor().spec_components()[k],
            forall|k: int| 0 <= k < r.0@.len() ==> (#[trigger] r.0@[k]).spec_data()
                == old(self).spec_column(k)[row as int],
    {
        let swapped: bool = self.swap_to_last(row);
        let ghost mid = *self;
        let (_entity, comps) = self.pop_row();
        proof {
            assert(self.spec_entities() =~= old(self).spec_entities().update(
                row as int, old(self).spec_entities().last()).drop_last());
            assert forall|k: int| 0 <= k < old(self).spec_num_columns()
                implies #[trigger] self.spec_column(k) == old(self).spec_column(k).update(
                    row as int, old(self).spec_column(k).last()).drop_last() by {
                assert(self.spec_column(k) =~= old(self).spec_column(k).update(
                    row as int, old(self).spec_column(k).last()).drop_last());
            }
            assert forall|k: int| 0 <= k < comps@.len() implies (#[trigger] comps@[k])
                .spec_data() == old(self).spec_column(k)[row as int] by {
                assert(comps@[k].spec_data() == mid.spec_column(k).last());
            }
        }
        (comps, swapped)
    }

    /// The bytes of the component with id `id` in row `row`, or `None` if
    /// the archetype lacks that component.
    pub fn get_component(&self, row: u32, id: ComponentTypeId) -> (r: Option<Vec<u8>>)
        requires
            self.wf(),
            row < self.spec_len(),
        ensures
            r.is_some() == self.spec_descriptor().spec_has_id(id.spec_value()),
            r.is_some() ==> r.unwrap()@ == self.spec_component(row as int, id.spec_value()),
    {
        let k: usize = match self.find_column(id) {
            Some(k) => k,
            None => {
                return None;
            },
        };
        proof {
            assert(self.spec_column(k as int).len() == self.spec_len());
        }
        let bytes: Vec<u8> = self.columns[k][row as usize].clone();
        proof {
            assert(bytes@ =~= self.spec_column(k as int)[row as int]);
        }
        Some(bytes)
    }

    /// Reads row `row` out as component values in canonical order, without
    /// changing the table.
    pub fn read_row(&self, row: u32) -> (r: Vec<ComponentValue>)
        requires
            self.wf(),
            row < self.spec_len(),
        ensures
            r@.len() == self.spec_num_columns(),
            forall|k: int| 0 <= k < r@.len() ==> (#[trigger] r@[k]).spec_descriptor()
                == self.spec_descriptor().spec_components()[k],
            forall|k: int| 0 <= k < r@.len() ==> (#[trigger] r@[k]).spec_data()
                == self.spec_column(k)[row as int],
    {
        proof {
            use_type_invariant(&self.descriptor);
            self.descriptor.lemma_wf();
        }
        let n: usize = self.columns.len();
        let mut comps: Vec<ComponentValue> = Vec::new();
        let mut k: usize = 0;
        while k < n
            invariant
                k <= n,
                n == self.spec_columns_len(),
                self.wf(),
                row < self.spec_len(),
                comps@.len() == k,
                forall|j: int| 0 <= j < k ==> (#[trigger] comps@[j]).spec_descriptor()
                    == self.spec_descriptor().spec_components()[j],
                forall|j: int| 0 <= j < k ==> (#[trigger] comps@[j]).spec_data()
                    == self.spec_column(j)[row as int],
            decreases n - k,
        {
            proof {
                assert(self.spec_column(k as int).len() == self.spec_len());
                assert(self.spec_column(k as int)[row as int].len()
                    == self.spec_descriptor().spec_components()[k as int].spec_size());
            }
            let bytes: Vec<u8> = self.columns[k][row as usize].clone();
            let desc: ComponentDescriptor = self.descriptor.components()[k];
            proof {
                self.descriptor.lemma_wf();
                assert(bytes@ =~= self.spec_column(k as int)[row as int]);
                assert(desc == self.spec_descriptor().spec_components()[k as int]);
                assert(desc.spec_is_valid());
                assert(bytes@.len() == desc.spec_size());
            }
            let cv: ComponentValue = ComponentValue::new(desc, bytes).unwrap();
            let ghost comps0 = comps@;
            comps.push(cv);
            proof {
                assert forall|j: int| 0 <= j < k + 1 implies {
                    &&& (#[trigger] comps@[j]).spec_descriptor()
                        == self.spec_descriptor().spec_components()[j]
                    &&& comps@[j].spec_data() == self.spec_column(j)[row as int]
                } by {
                    if j < k {
                        assert(comps@[j] == comps0[j]);
                    }
                }
            }
            k = k + 1;
        }
        comps
    }

    /// Overwrites the component with `value`'s id in row `row`. Returns
    /// false, changing nothing, if the archetype lacks that component.
    pub fn write_single_component(&mut self, row: u32, value: ComponentValue) -> (r: bool)
        requires
            old(self).wf(),
            row < old(self).spec_len(),
        ensures
            final(self).wf(),
            r == (old(self).spec_descriptor().spec_has_id(value.spec_descriptor().spec_id())
                && old(self).spec_descriptor().spec_components()[spec_find_pos(
                    old(self).spec_descriptor().spec_components(),
                    value.spec_descriptor().spec_id())] == value.spec_descriptor()),
            !r ==> *final(self) == *old(self),
            final(self).spec_descriptor() == old(self).spec_descriptor(),
            final(self).spec_len() == old(self).spec_len(),
            final(self).spec_capacity() == old(self).spec_capacity(),
            final(self).spec_entities() == old(self).spec_entities(),
            r ==> ({
                let k = spec_find_pos(old(self).spec_descriptor().spec_components(),
                    value.spec_descriptor().spec_id());
                &&& final(self).spec_column(k) == old(self).spec_column(k).update(
                    row as int, value.spec_data())
                &&& forall|j: int| 0 <= j < old(self).spec_num_columns() && j != k
                    ==> final(self).spec_column(j) == old(self).spec_column(j)
            }),
    {
        proof {
            use_type_invariant(&value);
            value.lemma_wf();
        }
        let k: usize = match self.find_column(value.component_type_id()) {
            Some(k) => k,
            None => {
                return false;
            },
        };
        if !(self.descriptor.components()[k] == *value.descriptor()) {
            return false;
        }
        let ghost kk = k as int;
        let ghost data = value.spec_data();
        proof {
            assert(self.spec_column(kk).len() == self.spec_len());
        }
        let bytes: Vec<u8> = value.into_data();
        let col = &mut self.columns[k];
        set_column_row(col, row as usize, bytes);
        proof {
            assert(self.spec_column(kk) =~= old(self).spec_column(kk).update(row as int, data));
            assert forall|j: int| 0 <= j < old(self).spec_num_columns() && j != kk
                implies #[trigger] self.spec_column(j) == old(self).spec_column(j) by {
                assert(self.columns@[j] == old(self).columns@[j]);
            }
            assert forall|k2: int, r2: int| 0 <= k2 < self.spec_num_columns() && 0 <= r2
                < self.spec_len() implies (#[trigger] self.spec_column(k2)[r2]).len()
                == self.spec_descriptor().spec_components()[k2].spec_size() by {
                assert(old(self).spec_column(k2)[r2].len()
                    == old(self).spec_descriptor().spec_components()[k2].spec_size());
            }
        }
        true
    }
}

} // verus!
