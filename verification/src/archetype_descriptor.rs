use vstd::prelude::*;
use crate::archetype_id::ArchetypeId;
use crate::component_descriptor::ComponentDescriptor;
use crate::component_type_id::ComponentTypeId;
use crate::fnv1a::fnv1a_spec;

verus! {

/// True if the component type ids of `s` are strictly ascending.
pub open spec fn ids_strictly_sorted(s: Seq<ComponentDescriptor>) -> bool {
    forall|i: int, j: int| 0 <= i < j < s.len() ==> s[i].spec_id() < s[j].spec_id()
}

/// True if some element of `s` carries the component type id `id`.
pub open spec fn ids_contain(s: Seq<ComponentDescriptor>, id: u16) -> bool {
    exists|k: int| 0 <= k < s.len() && s[k].spec_id() == id
}

/// The 28-byte hash input for an archetype id: the little-endian bytes of
/// each component type id in order, zero-padded to the right.
pub open spec fn archetype_id_hash_input(ids: Seq<u16>) -> Seq<u8> {
    Seq::new(28, |i: int|
        if i / 2 < ids.len() {
            if i % 2 == 0 {
                (ids[i / 2] % 256) as u8
            } else {
                (ids[i / 2] / 256) as u8
            }
        } else {
            0u8
        })
}

/// The archetype id of a sorted list of component type ids: the id itself for
/// a single component, the FNV-1a hash of the padded id bytes otherwise. The
/// empty list maps to the reserved invalid value.
pub open spec fn archetype_id_value(ids: Seq<u16>) -> u32 {
    if ids.len() == 0 {
        0xffffffffu32
    } else if ids.len() == 1 {
        ids[0] as u32
    } else {
        fnv1a_spec(archetype_id_hash_input(ids))
    }
}

/// The position at which a component with id `id` belongs in the sorted list
/// `s`: the number of elements whose id is below `id`.
pub open spec fn spec_insert_pos(s: Seq<ComponentDescriptor>, id: u16) -> int
    decreases s.len(),
{
    if s.len() == 0 {
        0
    } else if s[0].spec_id() >= id {
        0
    } else {
        1 + spec_insert_pos(s.drop_first(), id)
    }
}

/// The position of the element of `s` carrying id `id`, assuming one exists.
pub open spec fn spec_find_pos(s: Seq<ComponentDescriptor>, id: u16) -> int
    decreases s.len(),
{
    if s.len() == 0 {
        0
    } else if s[0].spec_id() == id {
        0
    } else {
        1 + spec_find_pos(s.drop_first(), id)
    }
}

/// `spec_insert_pos` always lands within the list, past every smaller id.
pub proof fn lemma_insert_pos_bounds(s: Seq<ComponentDescriptor>, id: u16)
    ensures
        0 <= spec_insert_pos(s, id) <= s.len(),
        forall|k: int| 0 <= k < spec_insert_pos(s, id) ==> s[k].spec_id() < id,
    decreases s.len(),
{
    if s.len() > 0 && s[0].spec_id() < id {
        lemma_insert_pos_bounds(s.drop_first(), id);
        assert forall|k: int| 0 <= k < spec_insert_pos(s, id) implies s[k].spec_id() < id by {
            if k > 0 {
                assert(s.drop_first()[k - 1] == s[k]);
            }
        }
    }
}

/// Where `ids_contain` holds, `spec_find_pos` lands on the element that
/// carries the id.
pub proof fn lemma_find_pos_properties(s: Seq<ComponentDescriptor>, id: u16)
    requires
        ids_contain(s, id),
    ensures
        0 <= spec_find_pos(s, id) < s.len(),
        s[spec_find_pos(s, id)].spec_id() == id,
    decreases s.len(),
{
    if s.len() > 0 && s[0].spec_id() != id {
        assert(ids_contain(s.drop_first(), id)) by {
            let k = choose|k: int| 0 <= k < s.len() && s[k].spec_id() == id;
            assert(s.drop_first()[k - 1] == s[k]);
        }
        lemma_find_pos_properties(s.drop_first(), id);
    }
}

/// Pins `spec_insert_pos` down to a concretely found position.
pub proof fn lemma_insert_pos_matches(s: Seq<ComponentDescriptor>, id: u16, pos: int)
    requires
        ids_strictly_sorted(s),
        0 <= pos <= s.len(),
        forall|i: int| 0 <= i < pos ==> s[i].spec_id() < id,
        pos < s.len() ==> s[pos].spec_id() > id,
    ensures
        spec_insert_pos(s, id) == pos,
        !ids_contain(s, id),
    decreases s.len(),
{
    assert forall|k: int| 0 <= k < s.len() implies s[k].spec_id() != id by {
        if k >= pos && k < s.len() {
            if k > pos {
                assert(s[pos].spec_id() < s[k].spec_id());
            }
        }
    }
    if s.len() > 0 && pos > 0 {
        assert(s[0].spec_id() < id);
        assert forall|i: int| 0 <= i < pos - 1 implies s.drop_first()[i].spec_id() < id by {
            assert(s.drop_first()[i] == s[i + 1]);
        }
        assert(forall|i: int, j: int| 0 <= i < j < s.drop_first().len()
            ==> s.drop_first()[i].spec_id() < s.drop_first()[j].spec_id());
        lemma_insert_pos_matches(s.drop_first(), id, pos - 1);
    }
}

/// Pins `spec_find_pos` down to a concretely found position.
pub proof fn lemma_find_pos_matches(s: Seq<ComponentDescriptor>, id: u16, pos: int)
    requires
        0 <= pos < s.len(),
        forall|i: int| 0 <= i < pos ==> s[i].spec_id() != id,
        s[pos].spec_id() == id,
    ensures
        spec_find_pos(s, id) == pos,
        ids_contain(s, id),
    decreases s.len(),
{
    if pos > 0 {
        assert forall|i: int| 0 <= i < pos - 1 implies s.drop_first()[i].spec_id() != id by {
            assert(s.drop_first()[i] == s[i + 1]);
        }
        assert(s.drop_first()[pos - 1] == s[pos]);
        lemma_find_pos_matches(s.drop_first(), id, pos - 1);
    }
}

/// Inserting at the found position keeps the list strictly sorted.
pub proof fn lemma_sorted_insert(s: Seq<ComponentDescriptor>, c: ComponentDescriptor, pos: int)
    requires
        ids_strictly_sorted(s),
        0 <= pos <= s.len(),
        forall|i: int| 0 <= i < pos ==> s[i].spec_id() < c.spec_id(),
        pos < s.len() ==> s[pos].spec_id() > c.spec_id(),
    ensures
        ids_strictly_sorted(s.take(pos).push(c) + s.skip(pos)),
{
    let t = s.take(pos).push(c) + s.skip(pos);
    assert forall|i: int, j: int| 0 <= i < j < t.len() implies t[i].spec_id() < t[j].spec_id() by {
        assert(t[i] == (if i < pos { s[i] } else if i == pos { c } else { s[i - 1] }));
        assert(t[j] == (if j < pos { s[j] } else if j == pos { c } else { s[j - 1] }));
        if i < pos && j > pos && !(s[i].spec_id() < s[j - 1].spec_id()) {
            assert(i < j - 1);
        }
    }
}

/// Removing an element keeps the list strictly sorted.
pub proof fn lemma_sorted_remove(s: Seq<ComponentDescriptor>, pos: int)
    requires
        ids_strictly_sorted(s),
        0 <= pos < s.len(),
    ensures
        ids_strictly_sorted(s.remove(pos)),
{
    let t = s.remove(pos);
    assert forall|i: int, j: int| 0 <= i < j < t.len() implies t[i].spec_id() < t[j].spec_id() by {
        assert(t[i] == (if i < pos { s[i] } else { s[i + 1] }));
        assert(t[j] == (if j < pos { s[j] } else { s[j + 1] }));
    }
}

/// The canonical description of an archetype: its component descriptors in
/// strictly ascending component type id order, together with the archetype id
/// computed from those ids. A descriptor is either fully valid or the
/// reserved empty invalid descriptor.
#[derive(Debug)]
pub struct ArchetypeDescriptor {
    archetype_id: ArchetypeId,
    components: Vec<ComponentDescriptor>,
}

impl ArchetypeDescriptor {
    /// The component descriptors, in canonical (sorted) order.
    pub closed spec fn spec_components(&self) -> Seq<ComponentDescriptor> {
        self.components@
    }

    /// The component type ids, in canonical (sorted) order.
    pub open spec fn spec_ids(&self) -> Seq<u16> {
        self.spec_components().map_values(|d: ComponentDescriptor| d.spec_id())
    }

    /// The archetype id.
    pub closed spec fn spec_archetype_id(&self) -> ArchetypeId {
        self.archetype_id
    }

    /// The number of components.
    pub open spec fn spec_len(&self) -> nat {
        self.spec_components().len()
    }

    /// True unless this is the reserved invalid descriptor.
    pub open spec fn spec_is_valid(&self) -> bool {
        self.spec_archetype_id().spec_is_valid()
    }

    /// True if some component of this descriptor carries id `id`.
    pub open spec fn spec_has_id(&self, id: u16) -> bool {
        ids_contain(self.spec_components(), id)
    }

    /// True if every component id of `other` also occurs in `self`.
    pub open spec fn spec_contains_subset(&self, other: &ArchetypeDescriptor) -> bool {
        forall|k: int| 0 <= k < other.spec_components().len()
            ==> self.spec_has_id(#[trigger] other.spec_components()[k].spec_id())
    }

    /// True if no component id of `other` occurs in `self`.
    pub open spec fn spec_excludes_subset(&self, other: &ArchetypeDescriptor) -> bool {
        forall|k: int| 0 <= k < other.spec_components().len()
            ==> !self.spec_has_id(#[trigger] other.spec_components()[k].spec_id())
    }

    /// Either the empty invalid descriptor, or a valid one: between 1 and 14
    /// components, all with valid ids, strictly sorted, and an archetype id
    /// that equals the hash of the sorted ids.
    #[verifier::type_invariant]
    pub closed spec fn wf(&self) -> bool {
        if self.spec_is_valid() {
            &&& 1 <= self.spec_components().len() <= 14
            &&& ids_strictly_sorted(self.spec_components())
            &&& forall|k: int| 0 <= k < self.spec_components().len()
                ==> (#[trigger] self.spec_components()[k]).spec_is_valid()
            &&& self.spec_archetype_id().spec_value() == archetype_id_value(self.spec_ids())
        } else {
            self.spec_components().len() == 0
        }
    }

    /// The well-formedness facts every descriptor satisfies by construction;
    /// `self.wf()` is obtained from `use_type_invariant`.
    pub proof fn lemma_wf(&self)
        requires
            self.wf(),
        ensures
            self.spec_is_valid() ==> {
                &&& 1 <= self.spec_components().len() <= 14
                &&& ids_strictly_sorted(self.spec_components())
                &&& forall|k: int| 0 <= k < self.spec_components().len()
                    ==> (#[trigger] self.spec_components()[k]).spec_is_valid()
                &&& self.spec_archetype_id().spec_value() == archetype_id_value(self.spec_ids())
            },
            !self.spec_is_valid() ==> self.spec_components().len() == 0,
    {
    }

    /// The reserved invalid archetype descriptor: no components, invalid id.
    pub fn invalid() -> (r: ArchetypeDescriptor)
        ensures
            !r.spec_is_valid(),
            r.spec_components().len() == 0,
    {
        ArchetypeDescriptor { archetype_id: ArchetypeId::invalid(), components: Vec::new() }
    }

    /// Builds a descriptor from an id and a component list. Returns the
    /// invalid descriptor unless the list is sorted, valid, of admissible
    /// length, and the id equals the hash of the list's ids.
    pub fn new(archetype_id: ArchetypeId, components: Vec<ComponentDescriptor>) -> (r:
        ArchetypeDescriptor)
        ensures
            ({
                &&& 1 <= components@.len() <= 14
                &&& ids_strictly_sorted(components@)
                &&& forall|k: int| 0 <= k < components@.len()
                    ==> (#[trigger] components@[k]).spec_is_valid()
                &&& archetype_id.spec_is_valid()
                &&& archetype_id.spec_value() == archetype_id_value(
                    components@.map_values(|d: ComponentDescriptor| d.spec_id()))
            }) ==> {
                &&& r.spec_archetype_id() == archetype_id
                &&& r.spec_components() == components@
                &&& r.spec_is_valid()
            },
    {
        if components.len() < 1 || components.len() > 14 || !archetype_id.is_valid() {
            return ArchetypeDescriptor::invalid();
        }
        let mut k: usize = 0;
        while k < components.len()
            invariant
                k <= components@.len(),
                forall|i: int, j: int| 0 <= i < j < k ==> components@[i].spec_id()
                    < components@[j].spec_id(),
                forall|i: int| 0 <= i < k ==> (#[trigger] components@[i]).spec_is_valid(),
            decreases components@.len() - k,
        {
            if !components[k].is_valid() {
                return ArchetypeDescriptor::invalid();
            }
            if k > 0 {
                if components[k - 1].component_type_id().into_u16()
                    >= components[k].component_type_id().into_u16() {
                    return ArchetypeDescriptor::invalid();
                }
            }
            proof {
                assert forall|i: int, j: int| 0 <= i < j < k + 1 implies components@[i].spec_id()
                    < components@[j].spec_id() by {
                    if j == k && k > 0 && i < k - 1 {
                        assert(components@[i].spec_id() < components@[k - 1].spec_id());
                    }
                }
            }
            k = k + 1;
        }
        let computed: ArchetypeId = Self::compute_archetype_id(components.as_slice());
        if computed.into_u32() != archetype_id.into_u32() {
            return ArchetypeDescriptor::invalid();
        }
        ArchetypeDescriptor { archetype_id, components }
    }

    /// Computes the archetype id of a component list: the single component's
    /// own id for a one-element list, otherwise the FNV-1a hash of the
    /// little-endian id bytes zero-padded to 28 bytes. The empty list yields
    /// the invalid id.
    pub fn compute_archetype_id(descriptors: &[ComponentDescriptor]) -> (r: ArchetypeId)
        requires
            descriptors@.len() <= 14,
        ensures
            r.spec_value() == archetype_id_value(
                descriptors@.map_values(|d: ComponentDescriptor| d.spec_id())),
    {
        let ghost ids = descriptors@.map_values(|d: ComponentDescriptor| d.spec_id());
        if descriptors.len() == 0 {
            return ArchetypeId::invalid();
        }
        if descriptors.len() == 1 {
            return ArchetypeId::from_u32(descriptors[0].component_type_id().into_u16() as u32);
        }
        let mut bytes: Vec<u8> = Vec::new();
        let mut i: usize = 0;
        while i < descriptors.len()
            invariant
                i <= descriptors@.len(),
                descriptors@.len() <= 14,
                ids == descriptors@.map_values(|d: ComponentDescriptor| d.spec_id()),
                bytes@.len() == 2 * i,
                forall|j: int| 0 <= j < bytes@.len() ==> bytes@[j]
                    == archetype_id_hash_input(ids)[j],
            decreases descriptors@.len() - i,
        {
            let id: u16 = descriptors[i].component_type_id().into_u16();
            bytes.push((id % 256) as u8);
            bytes.push((id / 256) as u8);
            proof {
                assert(archetype_id_hash_input(ids)[2 * i] == (ids[i as int] % 256) as u8);
                assert(archetype_id_hash_input(ids)[2 * i + 1] == (ids[i as int] / 256) as u8);
            }
            i = i + 1;
        }
        while i < 14
            invariant
                descriptors@.len() <= i <= 14,
                2 <= descriptors@.len(),
                ids.len() == descriptors@.len(),
                bytes@.len() == 2 * i,
                forall|j: int| 0 <= j < bytes@.len() ==> bytes@[j]
                    == archetype_id_hash_input(ids)[j],
            decreases 14 - i,
        {
            bytes.push(0u8);
            bytes.push(0u8);
            i = i + 1;
        }
        proof {
            assert(bytes@ =~= archetype_id_hash_input(ids));
        }
        ArchetypeId::from_u32(crate::fnv1a::fnv1a_hash_32(bytes.as_slice()))
    }

    /// True unless this is the reserved invalid descriptor.
    #[verifier::when_used_as_spec(spec_is_valid)]
    pub fn is_valid(&self) -> (r: bool)
        ensures
            r == self.spec_is_valid(),
    {
        self.archetype_id.is_valid()
    }

    /// The archetype id.
    #[verifier::when_used_as_spec(spec_archetype_id)]
    pub fn archetype_id(&self) -> (r: ArchetypeId)
        ensures
            r == self.spec_archetype_id(),
    {
        self.archetype_id
    }

    /// The number of components.
    pub fn len(&self) -> (r: u8)
        ensures
            r == self.spec_len(),
    {
        proof {
            use_type_invariant(self);
        }
        self.components.len() as u8
    }

    /// The component descriptors, in canonical (sorted) order.
    pub fn components(&self) -> (r: &[ComponentDescriptor])
        ensures
            r@ == self.spec_components(),
    {
        self.components.as_slice()
    }

    /// True if some component of this descriptor carries the given id.
    pub fn has_component(&self, id: ComponentTypeId) -> (r: bool)
        ensures
            r == self.spec_has_id(id.spec_value()),
    {
        let mut k: usize = 0;
        while k < self.components.len()
            invariant
                k <= self.spec_components().len(),
                forall|i: int| 0 <= i < k ==> (#[trigger] self.spec_components()[i]).spec_id()
                    != id.spec_value(),
            decreases self.spec_components().len() - k,
        {
            if self.components[k].component_type_id().into_u16() == id.into_u16() {
                return true;
            }
            k = k + 1;
        }
        false
    }

    /// True if every component id of `descriptor` also occurs in `self`.
    pub fn contains_subset(&self, descriptor: &ArchetypeDescriptor) -> (r: bool)
        ensures
            r == self.spec_contains_subset(descriptor),
    {
        let mut k: usize = 0;
        while k < descriptor.components.len()
            invariant
                k <= descriptor.spec_components().len(),
                forall|i: int| 0 <= i < k ==> self.spec_has_id(
                    (#[trigger] descriptor.spec_components()[i]).spec_id()),
            decreases descriptor.spec_components().len() - k,
        {
            if !self.has_component(descriptor.components[k].component_type_id()) {
                proof {
                    assert(!self.spec_has_id(descriptor.spec_components()[k as int].spec_id()));
                }
                return false;
            }
            k = k + 1;
        }
        true
    }

    /// True if no component id of `descriptor` occurs in `self`.
    pub fn excludes_subset(&self, descriptor: &ArchetypeDescriptor) -> (r: bool)
        ensures
            r == self.spec_excludes_subset(descriptor),
    {
        let mut k: usize = 0;
        while k < descriptor.components.len()
            invariant
                k <= descriptor.spec_components().len(),
                forall|i: int| 0 <= i < k ==> !self.spec_has_id(
                    (#[trigger] descriptor.spec_components()[i]).spec_id()),
            decreases descriptor.spec_components().len() - k,
        {
            if self.has_component(descriptor.components[k].component_type_id()) {
                proof {
                    assert(self.spec_has_id(descriptor.spec_components()[k as int].spec_id()));
                }
                return false;
            }
            k = k + 1;
        }
        true
    }

    /// The component list of `self` with `c` inserted at its sorted position.
    pub open spec fn spec_with_added(&self, c: ComponentDescriptor) -> Seq<ComponentDescriptor> {
        let p = spec_insert_pos(self.spec_components(), c.spec_id());
        self.spec_components().take(p).push(c) + self.spec_components().skip(p)
    }

    /// The component list of `self` with the component of id `id` removed.
    pub open spec fn spec_with_removed(&self, id: u16) -> Seq<ComponentDescriptor> {
        self.spec_components().remove(spec_find_pos(self.spec_components(), id))
    }

    /// Whether adding component `c` to `self` succeeds.
    pub open spec fn spec_can_add(&self, c: ComponentDescriptor) -> bool {
        &&& self.spec_is_valid()
        &&& c.spec_is_valid()
        &&& !self.spec_has_id(c.spec_id())
        &&& self.spec_len() < 14
        &&& archetype_id_value(
            self.spec_with_added(c).map_values(|d: ComponentDescriptor| d.spec_id()))
            != 0xffffffffu32
    }

    /// Whether removing the component of id `id` from `self` succeeds.
    pub open spec fn spec_can_remove(&self, id: u16) -> bool {
        &&& self.spec_is_valid()
        &&& self.spec_has_id(id)
        &&& self.spec_len() > 1
        &&& archetype_id_value(
            self.spec_with_removed(id).map_values(|d: ComponentDescriptor| d.spec_id()))
            != 0xffffffffu32
    }

    /// Returns the descriptor extended with component `c` at its sorted
    /// position, or `None` if `self` or `c` is invalid, `c` is already
    /// present, the descriptor is full, or the new id cannot be represented.
    pub fn add_component(&self, component_descriptor: &ComponentDescriptor) -> (r: Option<
        ArchetypeDescriptor>)
        ensures
            r.is_some() == self.spec_can_add(*component_descriptor),
            r.is_some() ==> {
                &&& r.unwrap().spec_components() == self.spec_with_added(*component_descriptor)
                &&& r.unwrap().spec_is_valid()
                &&& r.unwrap().spec_archetype_id().spec_value() == archetype_id_value(
                    self.spec_with_added(*component_descriptor).map_values(
                        |d: ComponentDescriptor| d.spec_id()))
            },
    {
        proof {
            use_type_invariant(self);
        }
        let c = *component_descriptor;
        if !self.is_valid() || !c.is_valid() || self.components.len() >= 14 {
            return None;
        }
        // Find the insertion point.
        let mut pos: usize = 0;
        while pos < self.components.len()
            && self.components[pos].component_type_id().into_u16() < c.component_type_id().into_u16()
            invariant
                pos <= self.spec_components().len(),
                forall|i: int| 0 <= i < pos ==> (#[trigger] self.spec_components()[i]).spec_id()
                    < c.spec_id(),
            decreases self.spec_components().len() - pos,
        {
            pos = pos + 1;
        }
        if pos < self.components.len() {
            if self.components[pos].component_type_id().into_u16() == c.component_type_id().into_u16() {
                return None;
            }
        }
        proof {
            lemma_insert_pos_matches(self.spec_components(), c.spec_id(), pos as int);
        }
        let mut components: Vec<ComponentDescriptor> = Vec::new();
        let mut k: usize = 0;
        while k < pos
            invariant
                k <= pos,
                pos <= self.spec_components().len(),
                components@ == self.spec_components().take(k as int),
            decreases pos - k,
        {
            components.push(self.components[k]);
            proof {
                assert(components@ =~= self.spec_components().take(k + 1));
            }
            k = k + 1;
        }
        components.push(c);
        while k < self.components.len()
            invariant
                pos <= k <= self.spec_components().len(),
                components@ == self.spec_components().take(pos as int).push(c)
                    + self.spec_components().subrange(pos as int, k as int),
            decreases self.spec_components().len() - k,
        {
            components.push(self.components[k]);
            proof {
                assert(components@ =~= self.spec_components().take(pos as int).push(c)
                    + self.spec_components().subrange(pos as int, k + 1));
            }
            k = k + 1;
        }
        proof {
            assert(components@ =~= self.spec_with_added(c));
            lemma_sorted_insert(self.spec_components(), c, pos as int);
        }
        let id: ArchetypeId = Self::compute_archetype_id(components.as_slice());
        if !id.is_valid() {
            return None;
        }
        Some(ArchetypeDescriptor { archetype_id: id, components })
    }

    /// Returns the descriptor with the component of the given id removed, or
    /// `None` if `self` is invalid, lacks the component, holds only one
    /// component, or the new id cannot be represented.
    pub fn remove_component(&self, component: ComponentTypeId) -> (r: Option<ArchetypeDescriptor>)
        ensures
            r.is_some() == self.spec_can_remove(component.spec_value()),
            r.is_some() ==> {
                &&& r.unwrap().spec_components() == self.spec_with_removed(component.spec_value())
                &&& r.unwrap().spec_is_valid()
                &&& r.unwrap().spec_archetype_id().spec_value() == archetype_id_value(
                    self.spec_with_removed(component.spec_value()).map_values(
                        |d: ComponentDescriptor| d.spec_id()))
            },
    {
        proof {
            use_type_invariant(self);
        }
        if !self.is_valid() || self.components.len() <= 1 {
            return None;
        }
        // Find the component's position.
        let mut pos: usize = 0;
        while pos < self.components.len()
            && self.components[pos].component_type_id().into_u16() != component.into_u16()
            invariant
                pos <= self.spec_components().len(),
                forall|i: int| 0 <= i < pos ==> (#[trigger] self.spec_components()[i]).spec_id()
                    != component.spec_value(),
            decreases self.spec_components().len() - pos,
        {
            pos = pos + 1;
        }
        if pos >= self.components.len() {
            return None;
        }
        proof {
            lemma_find_pos_matches(self.spec_components(), component.spec_value(), pos as int);
        }
        let mut components: Vec<ComponentDescriptor> = Vec::new();
        let mut k: usize = 0;
        while k < pos
            invariant
                k <= pos,
                pos < self.spec_components().len(),
                components@ == self.spec_components().take(k as int),
            decreases pos - k,
        {
            components.push(self.components[k]);
            proof {
                assert(components@ =~= self.spec_components().take(k + 1));
            }
            k = k + 1;
        }
        k = k + 1;
        while k < self.components.len()
            invariant
                pos < k <= self.spec_components().len(),
                components@ == self.spec_components().take(pos as int)
                    + self.spec_components().subrange(pos + 1, k as int),
            decreases self.spec_components().len() - k,
        {
            components.push(self.components[k]);
            proof {
                assert(components@ =~= self.spec_components().take(pos as int)
                    + self.spec_components().subrange(pos + 1, k + 1));
            }
            k = k + 1;
        }
        proof {
            assert(components@ =~= self.spec_with_removed(component.spec_value()));
            lemma_sorted_remove(self.spec_components(), pos as int);
        }
        let id: ArchetypeId = Self::compute_archetype_id(components.as_slice());
        if !id.is_valid() {
            return None;
        }
        Some(ArchetypeDescriptor { archetype_id: id, components })
    }

    /// True if both descriptors have the same archetype id and the same
    /// component list.
    pub fn equals(&self, other: &ArchetypeDescriptor) -> (r: bool)
        ensures
            r == (self.spec_archetype_id() == other.spec_archetype_id()
                && self.spec_components() == other.spec_components()),
    {
        if self.archetype_id.into_u32() != other.archetype_id.into_u32() {
            return false;
        }
        if self.components.len() != other.components.len() {
            return false;
        }
        let mut k: usize = 0;
        while k < self.components.len()
            invariant
                k <= self.spec_components().len(),
                self.spec_components().len() == other.spec_components().len(),
                forall|i: int| 0 <= i < k ==> self.spec_components()[i]
                    == other.spec_components()[i],
            decreases self.spec_components().len() - k,
        {
            if !(self.components[k] == other.components[k]) {
                return false;
            }
            k = k + 1;
        }
        proof {
            assert(self.spec_components() =~= other.spec_components());
            assert(self.spec_archetype_id().spec_value() == other.spec_archetype_id().spec_value());
            crate::archetype_id::lemma_archetype_id_determined(
                self.spec_archetype_id(), other.spec_archetype_id());
        }
        true
    }
}

impl Clone for ArchetypeDescriptor {
    /// Clones the descriptor; the copy has the same id and components.
    fn clone(&self) -> (r: Self)
        ensures
            r.spec_archetype_id() == self.spec_archetype_id(),
            r.spec_components() == self.spec_components(),
    {
        proof {
            use_type_invariant(self);
        }
        let r = ArchetypeDescriptor {
            archetype_id: self.archetype_id,
            components: self.components.clone(),
        };
        proof {
            assert(r.spec_components() =~= self.spec_components());
        }
        r
    }
}

} // verus!
