use vstd::prelude::*;
use vstd::seq_lib::group_to_multiset_ensures;
use vstd::multiset::group_multiset_axioms;
use crate::archetype_descriptor::{
    ArchetypeDescriptor, archetype_id_value, ids_strictly_sorted, lemma_insert_pos_matches,
    lemma_sorted_insert, spec_insert_pos,
};
use crate::archetype_id::ArchetypeId;
use crate::component_descriptor::ComponentDescriptor;

verus! {

/// True if `s` is an admissible component group input: between 1 and 14
/// components, all valid, with pairwise distinct component type ids.
pub open spec fn group_input_clean(s: Seq<ComponentDescriptor>) -> bool {
    &&& 1 <= s.len() <= 14
    &&& forall|k: int| 0 <= k < s.len() ==> (#[trigger] s[k]).spec_is_valid()
    &&& forall|i: int, j: int| 0 <= i < j < s.len() ==> s[i].spec_id() != s[j].spec_id()
}

/// True if `t` is the canonical form of `s`: the same components, in
/// strictly ascending component type id order.
pub open spec fn is_sorted_variant(t: Seq<ComponentDescriptor>, s: Seq<ComponentDescriptor>)
    -> bool {
    ids_strictly_sorted(t) && t.to_multiset() == s.to_multiset()
}

/// The canonical (sorted) form of a component list with distinct ids.
pub open spec fn spec_sorted_variant(s: Seq<ComponentDescriptor>) -> Seq<ComponentDescriptor> {
    choose|t: Seq<ComponentDescriptor>| is_sorted_variant(t, s)
}

/// Two strictly sorted sequences holding the same components are identical.
pub proof fn lemma_sorted_variant_unique(a: Seq<ComponentDescriptor>, b: Seq<ComponentDescriptor>)
    requires
        ids_strictly_sorted(a),
        ids_strictly_sorted(b),
        a.to_multiset() == b.to_multiset(),
    ensures
        a =~= b,
    decreases a.len(),
{
    broadcast use group_to_multiset_ensures;
    broadcast use group_multiset_axioms;

    a.to_multiset_ensures();
    b.to_multiset_ensures();
    if a.len() == 0 {
        assert(b.to_multiset().len() == 0);
    } else {
        assert(a.contains(a[0]));
        assert(b.contains(b[0]));
        assert(a.to_multiset().count(a[0]) > 0);
        assert(b.to_multiset().count(b[0]) > 0);
        assert(b.to_multiset().count(a[0]) > 0);
        assert(a.to_multiset().count(b[0]) > 0);
        assert(b.contains(a[0]));
        assert(a.contains(b[0]));
        let ka = choose|k: int| 0 <= k < b.len() && b[k] == a[0];
        let kb = choose|k: int| 0 <= k < a.len() && a[k] == b[0];
        if ka > 0 {
            assert(b[0].spec_id() < b[ka].spec_id());
            if kb > 0 {
                assert(a[0].spec_id() < a[kb].spec_id());
                assert(false);
            } else {
                assert(a[0] == b[0]);
            }
        }
        assert(b[0] == a[0]);
        assert(a.remove(0).to_multiset() == a.to_multiset().remove(a[0]));
        assert(b.remove(0).to_multiset() == b.to_multiset().remove(b[0]));
        assert(a.remove(0) =~= a.drop_first());
        assert(b.remove(0) =~= b.drop_first());
        assert forall|i: int, j: int| 0 <= i < j < a.drop_first().len()
            implies a.drop_first()[i].spec_id() < a.drop_first()[j].spec_id() by {
            assert(a.drop_first()[i] == a[i + 1]);
            assert(a.drop_first()[j] == a[j + 1]);
        }
        assert forall|i: int, j: int| 0 <= i < j < b.drop_first().len()
            implies b.drop_first()[i].spec_id() < b.drop_first()[j].spec_id() by {
            assert(b.drop_first()[i] == b[i + 1]);
            assert(b.drop_first()[j] == b[j + 1]);
        }
        lemma_sorted_variant_unique(a.drop_first(), b.drop_first());
        assert forall|k: int| 0 <= k < a.len() implies a[k] == b[k] by {
            if k > 0 {
                assert(a.drop_first() =~= b.drop_first());
                assert(a.drop_first()[k - 1] == b.drop_first()[k - 1]);
            }
        }
        assert(a =~= b);
    }
}

/// Describes a component group as the caller declared it: the canonical
/// (sorted) archetype descriptor, together with the permutation between the
/// declared order and the canonical order.
#[derive(Debug)]
pub struct ComponentGroupDescriptor {
    archetype: ArchetypeDescriptor,
    sorted_to_unsorted: Vec<u8>,
    unsorted_to_sorted: Vec<u8>,
}

impl ComponentGroupDescriptor {
    /// The canonical archetype descriptor of the group.
    pub closed spec fn spec_archetype(&self) -> ArchetypeDescriptor {
        self.archetype
    }

    /// The mapping from canonical positions to declared positions.
    pub closed spec fn spec_sorted_to_unsorted(&self) -> Seq<u8> {
        self.sorted_to_unsorted@
    }

    /// The mapping from declared positions to canonical positions.
    pub closed spec fn spec_unsorted_to_sorted(&self) -> Seq<u8> {
        self.unsorted_to_sorted@
    }

    /// True unless this is the reserved invalid group descriptor.
    pub open spec fn spec_is_valid(&self) -> bool {
        self.spec_archetype().spec_is_valid()
    }

    /// The number of components in the group.
    pub open spec fn spec_len(&self) -> nat {
        self.spec_archetype().spec_len()
    }

    /// Either the reserved invalid group descriptor, or a valid one whose
    /// two position maps are mutually inverse permutations of the component
    /// positions.
    #[verifier::type_invariant]
    pub closed spec fn wf(&self) -> bool {
        if self.spec_is_valid() {
            &&& self.spec_sorted_to_unsorted().len() == self.spec_len()
            &&& self.spec_unsorted_to_sorted().len() == self.spec_len()
            &&& forall|i: int| 0 <= i < self.spec_len()
                ==> (#[trigger] self.spec_unsorted_to_sorted()[i]) < self.spec_len()
            &&& forall|i: int| 0 <= i < self.spec_len()
                ==> (#[trigger] self.spec_sorted_to_unsorted()[i]) < self.spec_len()
            &&& forall|i: int| 0 <= i < self.spec_len()
                ==> self.spec_sorted_to_unsorted()[
                    #[trigger] self.spec_unsorted_to_sorted()[i] as int] == i
            &&& forall|i: int| 0 <= i < self.spec_len()
                ==> self.spec_unsorted_to_sorted()[
                    #[trigger] self.spec_sorted_to_unsorted()[i] as int] == i
        } else {
            self.spec_sorted_to_unsorted().len() == 0 && self.spec_unsorted_to_sorted().len() == 0
        }
    }

    /// The permutation facts every group descriptor satisfies by
    /// construction; `self.wf()` is obtained from `use_type_invariant`.
    pub proof fn lemma_wf(&self)
        requires
            self.wf(),
        ensures
            self.spec_is_valid() ==> {
                &&& self.spec_sorted_to_unsorted().len() == self.spec_len()
                &&& self.spec_unsorted_to_sorted().len() == self.spec_len()
                &&& forall|i: int| 0 <= i < self.spec_len()
                    ==> (#[trigger] self.spec_unsorted_to_sorted()[i]) < self.spec_len()
                &&& forall|i: int| 0 <= i < self.spec_len()
                    ==> (#[trigger] self.spec_sorted_to_unsorted()[i]) < self.spec_len()
                &&& forall|i: int| 0 <= i < self.spec_len()
                    ==> self.spec_sorted_to_unsorted()[
                        #[trigger] self.spec_unsorted_to_sorted()[i] as int] == i
                &&& forall|i: int| 0 <= i < self.spec_len()
                    ==> self.spec_unsorted_to_sorted()[
                        #[trigger] self.spec_sorted_to_unsorted()[i] as int] == i
            },
    {
    }

    /// The reserved invalid group descriptor.
    pub fn invalid() -> (r: ComponentGroupDescriptor)
        ensures
            !r.spec_is_valid(),
    {
        ComponentGroupDescriptor {
            archetype: ArchetypeDescriptor::invalid(),
            sorted_to_unsorted: Vec::new(),
            unsorted_to_sorted: Vec::new(),
        }
    }

    /// Builds the group descriptor of a declared component list: sorts the
    /// components into canonical order, records the permutation in both
    /// directions, and computes the archetype id. Returns the invalid
    /// descriptor if the list is empty, too long, holds an invalid
    /// component, repeats a component type id, or its id cannot be
    /// represented.
    pub fn new(descriptors: &[ComponentDescriptor]) -> (r: ComponentGroupDescriptor)
        ensures
            !group_input_clean(descriptors@) ==> !r.spec_is_valid(),
            group_input_clean(descriptors@) ==> is_sorted_variant(
                spec_sorted_variant(descriptors@), descriptors@),
            group_input_clean(descriptors@) ==> (r.spec_is_valid() <==> archetype_id_value(
                spec_sorted_variant(descriptors@).map_values(
                    |d: ComponentDescriptor| d.spec_id())) != 0xffffffffu32),
            r.spec_is_valid() ==> {
                &&& group_input_clean(descriptors@)
                &&& r.spec_archetype().spec_components() == spec_sorted_variant(descriptors@)
                &&& r.spec_len() == descriptors@.len()
                &&& forall|i: int| 0 <= i < descriptors@.len()
                    ==> r.spec_archetype().spec_components()[
                        #[trigger] r.spec_unsorted_to_sorted()[i] as int] == descriptors@[i]
                &&& forall|i: int| 0 <= i < descriptors@.len()
                    ==> (#[trigger] r.spec_unsorted_to_sorted()[i]) < descriptors@.len()
                &&& forall|i: int| 0 <= i < descriptors@.len()
                    ==> descriptors@[#[trigger] r.spec_sorted_to_unsorted()[i] as int]
                        == r.spec_archetype().spec_components()[i]
                &&& forall|i: int| 0 <= i < descriptors@.len()
                    ==> (#[trigger] r.spec_sorted_to_unsorted()[i]) < descriptors@.len()
            },
    {
        broadcast use group_to_multiset_ensures;
        broadcast use group_multiset_axioms;

        let n: usize = descriptors.len();
        if n < 1 || n > 14 {
            return ComponentGroupDescriptor::invalid();
        }
        // Validate the components and reject duplicate ids.
        let mut i: usize = 0;
        while i < n
            invariant
                i <= n,
                n == descriptors@.len(),
                forall|k: int| 0 <= k < i ==> (#[trigger] descriptors@[k]).spec_is_valid(),
                forall|a: int, b: int| 0 <= a < b < descriptors@.len() && a < i
                    ==> descriptors@[a].spec_id() != descriptors@[b].spec_id(),
            decreases n - i,
        {
            if !descriptors[i].is_valid() {
                return ComponentGroupDescriptor::invalid();
            }
            let mut j: usize = i + 1;
            while j < n
                invariant
                    i < j <= n,
                    n == descriptors@.len(),
                    forall|b: int| i < b < j ==> descriptors@[i as int].spec_id()
                        != (#[trigger] descriptors@[b]).spec_id(),
                decreases n - j,
            {
                if descriptors[i].component_type_id().into_u16()
                    == descriptors[j].component_type_id().into_u16() {
                    return ComponentGroupDescriptor::invalid();
                }
                j = j + 1;
            }
            i = i + 1;
        }
        assert(group_input_clean(descriptors@));
        // Insert each component at its sorted position, keeping both
        // direction maps in step.
        let mut sorted: Vec<ComponentDescriptor> = Vec::new();
        let mut unsorted_to_sorted: Vec<u8> = Vec::new();
        let mut sorted_to_unsorted: Vec<u8> = Vec::new();
        let mut i: usize = 0;
        while i < n
            invariant
                i <= n,
                n == descriptors@.len(),
                group_input_clean(descriptors@),
                sorted@.len() == i,
                unsorted_to_sorted@.len() == i,
                sorted_to_unsorted@.len() == i,
                ids_strictly_sorted(sorted@),
                sorted@.to_multiset() == descriptors@.take(i as int).to_multiset(),
                forall|j: int| 0 <= j < i ==> (#[trigger] unsorted_to_sorted@[j]) < i,
                forall|j: int| 0 <= j < i ==> sorted@[
                    #[trigger] unsorted_to_sorted@[j] as int] == descriptors@[j],
                forall|q: int| 0 <= q < i ==> (#[trigger] sorted_to_unsorted@[q]) < i,
                forall|q: int| 0 <= q < i ==> descriptors@[
                    #[trigger] sorted_to_unsorted@[q] as int] == sorted@[q],
            decreases n - i,
        {
            let c: ComponentDescriptor = descriptors[i];
            // Find the insertion position.
            let mut pos: usize = 0;
            while pos < sorted.len()
                && sorted[pos].component_type_id().into_u16() < c.component_type_id().into_u16()
                invariant
                    pos <= sorted@.len(),
                    forall|q: int| 0 <= q < pos ==> (#[trigger] sorted@[q]).spec_id()
                        < c.spec_id(),
                decreases sorted@.len() - pos,
            {
                pos = pos + 1;
            }
            proof {
                // The new id never collides with one already placed.
                assert forall|q: int| 0 <= q < sorted@.len() implies (#[trigger] sorted@[q])
                    .spec_id() != c.spec_id() by {
                    let j = sorted_to_unsorted@[q] as int;
                    assert(descriptors@[j] == sorted@[q]);
                    assert(j < i);
                }
                if pos < sorted@.len() {
                    assert(sorted@[pos as int].spec_id() >= c.spec_id());
                    assert(sorted@[pos as int].spec_id() > c.spec_id());
                }
            }
            // Shift the sorted positions at or after the insertion point.
            let ghost u2s_before = unsorted_to_sorted@;
            let mut j: usize = 0;
            while j < unsorted_to_sorted.len()
                invariant
                    j <= unsorted_to_sorted@.len(),
                    unsorted_to_sorted@.len() == u2s_before.len(),
                    u2s_before.len() == i,
                    i < n <= 14,
                    pos <= i,
                    forall|k: int| 0 <= k < i ==> (#[trigger] u2s_before[k]) < i,
                    forall|k: int| j <= k < i ==> (#[trigger] unsorted_to_sorted@[k])
                        == u2s_before[k],
                    forall|k: int| 0 <= k < j ==> ((#[trigger] unsorted_to_sorted@[k]) as int)
                        == (if u2s_before[k] as int >= pos as int {
                            u2s_before[k] as int + 1
                        } else {
                            u2s_before[k] as int
                        }),
                decreases unsorted_to_sorted@.len() - j,
            {
                if unsorted_to_sorted[j] as usize >= pos {
                    let bumped: u8 = unsorted_to_sorted[j] + 1;
                    unsorted_to_sorted[j] = bumped;
                }
                j = j + 1;
            }
            let ghost sorted_before = sorted@;
            let ghost s2u_before = sorted_to_unsorted@;
            sorted.insert(pos, c);
            unsorted_to_sorted.push(pos as u8);
            sorted_to_unsorted.insert(pos, i as u8);
            proof {
                sorted@.to_multiset_ensures();
                sorted_before.to_multiset_ensures();
                descriptors@.take(i as int).to_multiset_ensures();
                assert(sorted@ =~= sorted_before.take(pos as int).push(c)
                    + sorted_before.skip(pos as int));
                lemma_sorted_insert(sorted_before, c, pos as int);
                assert(ids_strictly_sorted(sorted@));
                // One new component in the multiset.
                assert(sorted@.remove(pos as int) =~= sorted_before);
                assert(sorted@.remove(pos as int).to_multiset()
                    == sorted@.to_multiset().remove(sorted@[pos as int]));
                assert(sorted@.contains(c));
                assert(sorted@.to_multiset().count(c) > 0);
                assert(sorted@.to_multiset() =~= sorted_before.to_multiset().insert(c)) by {
                    assert(sorted_before.to_multiset()
                        == sorted@.to_multiset().remove(c));
                    assert forall|y: ComponentDescriptor|
                        sorted@.to_multiset().count(y)
                            == #[trigger] sorted_before.to_multiset().insert(c).count(y) by {
                        if y == c {
                            assert(sorted_before.to_multiset().count(c)
                                == sorted@.to_multiset().count(c) - 1);
                        } else {
                            assert(sorted_before.to_multiset().count(y)
                                == sorted@.to_multiset().count(y));
                        }
                    }
                }
                assert(descriptors@.take(i + 1) =~= descriptors@.take(i as int).push(
                    descriptors@[i as int]));
                assert(descriptors@.take(i + 1).to_multiset()
                    =~= descriptors@.take(i as int).to_multiset().insert(c));
                // Both position maps still point at the right components.
                assert forall|k: int| 0 <= k < i + 1 implies sorted@[
                    (#[trigger] unsorted_to_sorted@[k]) as int] == descriptors@[k] by {
                    if k < i {
                        let q = u2s_before[k] as int;
                        assert(sorted_before[q] == descriptors@[k]);
                        if q >= pos {
                            assert(unsorted_to_sorted@[k] as int == q + 1);
                            assert(sorted@[q + 1] == sorted_before[q]);
                        } else {
                            assert(unsorted_to_sorted@[k] as int == q);
                            assert(sorted@[q] == sorted_before[q]);
                        }
                    } else {
                        assert(unsorted_to_sorted@[k] as int == pos as int);
                        assert(sorted@[pos as int] == c);
                    }
                }
                assert forall|q: int| 0 <= q < i + 1 implies descriptors@[
                    (#[trigger] sorted_to_unsorted@[q]) as int] == sorted@[q] by {
                    if q < pos {
                        assert(sorted_to_unsorted@[q] == s2u_before[q]);
                        assert(sorted@[q] == sorted_before[q]);
                    } else if q == pos {
                        assert(sorted_to_unsorted@[q] as int == i as int);
                        assert(sorted@[q] == c);
                    } else {
                        assert(sorted_to_unsorted@[q] == s2u_before[q - 1]);
                        assert(sorted@[q] == sorted_before[q - 1]);
                    }
                }
            }
            i = i + 1;
        }
        let id: ArchetypeId = ArchetypeDescriptor::compute_archetype_id(sorted.as_slice());
        let ghost sorted_view = sorted@;
        proof {
            assert(descriptors@.take(n as int) =~= descriptors@);
            assert(is_sorted_variant(sorted@, descriptors@));
            lemma_sorted_variant_unique(sorted@, spec_sorted_variant(descriptors@));
            // Every sorted slot holds one of the declared (valid) components.
            assert forall|q: int| 0 <= q < n implies (#[trigger] sorted_view[q]).spec_is_valid()
                by {
                assert(descriptors@[sorted_to_unsorted@[q] as int] == sorted_view[q]);
            }
            // The two maps are mutually inverse.
            assert forall|j: int| 0 <= j < n implies sorted_to_unsorted@[
                (#[trigger] unsorted_to_sorted@[j]) as int] as int == j by {
                let q = unsorted_to_sorted@[j] as int;
                assert(descriptors@[sorted_to_unsorted@[q] as int] == sorted_view[q]);
                assert(sorted_view[q] == descriptors@[j]);
                let j2 = sorted_to_unsorted@[q] as int;
                if j2 != j {
                    assert(descriptors@[j2].spec_id() == descriptors@[j].spec_id());
                    assert(false);
                }
            }
            assert forall|q: int| 0 <= q < n implies unsorted_to_sorted@[
                (#[trigger] sorted_to_unsorted@[q]) as int] as int == q by {
                let j = sorted_to_unsorted@[q] as int;
                assert(sorted_view[unsorted_to_sorted@[j] as int] == descriptors@[j]);
                assert(descriptors@[j] == sorted_view[q]);
                let q2 = unsorted_to_sorted@[j] as int;
                if q2 != q {
                    assert(sorted_view[q2].spec_id() == sorted_view[q].spec_id());
                    assert(false);
                }
            }
        }
        if !id.is_valid() {
            return ComponentGroupDescriptor::invalid();
        }
        let archetype: ArchetypeDescriptor = ArchetypeDescriptor::new(id, sorted);
        ComponentGroupDescriptor { archetype, sorted_to_unsorted, unsorted_to_sorted }
    }

    /// True unless this is the reserved invalid group descriptor.
    #[verifier::when_used_as_spec(spec_is_valid)]
    pub fn is_valid(&self) -> (r: bool)
        ensures
            r == self.spec_is_valid(),
    {
        self.archetype.is_valid()
    }

    /// The canonical archetype descriptor of the group.
    pub fn archetype(&self) -> (r: &ArchetypeDescriptor)
        ensures
            r == self.spec_archetype(),
    {
        &self.archetype
    }

    /// The number of components in the group.
    pub fn len(&self) -> (r: u8)
        ensures
            r == self.spec_len(),
    {
        self.archetype.len()
    }

    /// The declared position of the component at canonical position `index`.
    pub fn sorted_to_unsorted(&self, index: u8) -> (r: u8)
        requires
            index < self.spec_len(),
        ensures
            r == self.spec_sorted_to_unsorted()[index as int],
            r < self.spec_len(),
    {
        proof {
            use_type_invariant(self);
            use_type_invariant(&self.archetype);
            self.archetype.lemma_wf();
        }
        self.sorted_to_unsorted[index as usize]
    }

    /// The canonical position of the component at declared position `index`.
    pub fn unsorted_to_sorted(&self, index: u8) -> (r: u8)
        requires
            index < self.spec_len(),
        ensures
            r == self.spec_unsorted_to_sorted()[index as int],
            r < self.spec_len(),
    {
        proof {
            use_type_invariant(self);
            use_type_invariant(&self.archetype);
            self.archetype.lemma_wf();
        }
        self.unsorted_to_sorted[index as usize]
    }

    /// The descriptor of the component at canonical position `index`.
    pub fn as_sorted(&self, index: u8) -> (r: &ComponentDescriptor)
        requires
            index < self.spec_len(),
        ensures
            *r == self.spec_archetype().spec_components()[index as int],
    {
        proof {
            use_type_invariant(self);
            use_type_invariant(&self.archetype);
            self.archetype.lemma_wf();
        }
        &self.archetype.components()[index as usize]
    }

    /// The descriptor of the component declared at position `index`.
    pub fn as_unsorted(&self, index: u8) -> (r: &ComponentDescriptor)
        requires
            index < self.spec_len(),
        ensures
            *r == self.spec_archetype().spec_components()[
                self.spec_unsorted_to_sorted()[index as int] as int],
    {
        proof {
            use_type_invariant(self);
            use_type_invariant(&self.archetype);
            self.archetype.lemma_wf();
        }
        let s: u8 = self.unsorted_to_sorted[index as usize];
        &self.archetype.components()[s as usize]
    }
}

} // verus!
