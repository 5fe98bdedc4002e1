//! Typed per-component storage: one packed array per registered archetype,
//! for a component type known statically.

use vstd::prelude::*;
use crate::storage::{ComponentIndex, ComponentView, ComponentViewMut, EntityTypeIndex};

verus! {

/// A growable packed array of component values. The capacity is the number
/// of slots reserved ahead of the current length; growing reserves space
/// without changing the contents.
#[derive(Debug)]
pub struct ComponentArray<T> {
    pub data: Vec<T>,
    pub capacity: usize,
}

impl<T> ComponentArray<T> {
    /// Reserved room never falls below the current length.
    pub open spec fn wf(self) -> bool {
        self.data@.len() <= self.capacity
    }

    pub fn new() -> (r: ComponentArray<T>)
        ensures
            r.data@ == Seq::<T>::empty(),
            r.capacity == 0,
            r.wf(),
    {
        ComponentArray { data: Vec::new(), capacity: 0 }
    }

    /// Reserve room for `new_capacity` values in all.
    pub fn grow(&mut self, new_capacity: usize)
        requires
            old(self).wf(),
            old(self).capacity < new_capacity,
        ensures
            final(self).data@ == old(self).data@,
            final(self).capacity == new_capacity,
    {
        let additional = new_capacity - self.data.len();
        self.data.reserve(additional);
        self.capacity = new_capacity;
    }

    /// Make room for `additional` more values, growing if needed.
    pub fn reserve(&mut self, additional: usize)
        requires
            old(self).wf(),
            old(self).data@.len() + additional <= usize::MAX,
        ensures
            final(self).wf(),
            final(self).data@ == old(self).data@,
            final(self).capacity >= old(self).data@.len() + additional,
    {
        if self.capacity < self.data.len() + additional {
            let target = self.data.len() + additional;
            self.grow(target);
        }
    }

    /// Remove the value at `index`, moving the last value into its place,
    /// and return it.
    pub fn swap_remove(&mut self, index: usize) -> (r: T)
        requires
            index < old(self).data@.len(),
        ensures
            r == old(self).data@[index as int],
            final(self).data@ == old(self).data@.update(
                index as int,
                old(self).data@.last(),
            ).drop_last(),
            final(self).capacity == old(self).capacity,
    {
        self.data.swap_remove(index)
    }

    /// Append all of `values`, taking ownership; `values` is left empty.
    pub fn extend_memcopy(&mut self, values: &mut Vec<T>)
        requires
            old(self).wf(),
            old(self).data@.len() + old(values)@.len() <= usize::MAX,
        ensures
            final(self).wf(),
            final(self).data@ == old(self).data@ + old(values)@,
            final(values)@ == Seq::<T>::empty(),
    {
        let count = values.len();
        self.reserve(count);
        self.data.append(values);
        if self.capacity < self.data.len() {
            self.capacity = self.data.len();
        }
    }

    /// The number of stored values.
    pub fn len(&self) -> (r: usize)
        ensures
            r == self.data@.len(),
    {
        self.data.len()
    }
}

/// The total value count across a sequence of packed arrays.
pub open spec fn total_values<T>(arrays: Seq<ComponentArray<T>>) -> int
    decreases arrays.len(),
{
    if arrays.len() == 0 {
        0
    } else {
        total_values(arrays.drop_last()) + arrays.last().data@.len()
    }
}

/// Replacing one array changes the total by the difference of lengths.
pub proof fn lemma_total_values_update<T>(arrays: Seq<ComponentArray<T>>, i: int, arr: ComponentArray<T>)
    requires
        0 <= i < arrays.len(),
    ensures
        total_values(arrays.update(i, arr)) == total_values(arrays) - arrays[i].data@.len()
            + arr.data@.len(),
    decreases arrays.len(),
{
    let updated = arrays.update(i, arr);
    if i == arrays.len() - 1 {
        assert(updated.drop_last() =~= arrays.drop_last());
    } else {
        assert(updated.drop_last() =~= arrays.drop_last().update(i, arr));
        lemma_total_values_update(arrays.drop_last(), i, arr);
    }
}

/// Appending an array adds its length to the total.
pub proof fn lemma_total_values_push<T>(arrays: Seq<ComponentArray<T>>, arr: ComponentArray<T>)
    ensures
        total_values(arrays.push(arr)) == total_values(arrays) + arr.data@.len(),
{
    assert(arrays.push(arr).drop_last() =~= arrays);
}

/// Each array's length is bounded by the total, which is never negative.
pub proof fn lemma_total_values_bound<T>(arrays: Seq<ComponentArray<T>>, i: int)
    requires
        0 <= i < arrays.len(),
    ensures
        arrays[i].data@.len() <= total_values(arrays),
        total_values(arrays) >= 0,
    decreases arrays.len(),
{
    lemma_total_values_nonnegative(arrays.drop_last());
    if i < arrays.len() - 1 {
        assert(arrays.drop_last()[i] == arrays[i]);
        lemma_total_values_bound(arrays.drop_last(), i);
        lemma_total_values_nonnegative(arrays);
    }
}

/// The total is never negative.
pub proof fn lemma_total_values_nonnegative<T>(arrays: Seq<ComponentArray<T>>)
    ensures
        total_values(arrays) >= 0,
    decreases arrays.len(),
{
    if arrays.len() > 0 {
        lemma_total_values_nonnegative(arrays.drop_last());
    }
}

/// Typed storage for one component type: one packed array per registered
/// archetype, addressed through an archetype-to-slot table, exactly like
/// the byte-level storage but over values of `T`.
#[derive(Debug)]
pub struct CompactableStorage<T> {
    pub length: usize,
    pub indices: Vec<Option<usize>>,
    pub components: Vec<ComponentArray<T>>,
}

impl<T> CompactableStorage<T> {
    /// Whether archetype `a` has an array in this storage.
    pub open spec fn spec_registered(self, a: int) -> bool {
        0 <= a < self.indices@.len() && self.indices@[a] is Some
    }

    /// The slot of archetype `a`'s array.
    pub open spec fn spec_slot(self, a: int) -> int {
        self.indices@[a]->Some_0 as int
    }

    /// The values of archetype `a`'s array, in row order.
    pub open spec fn spec_values(self, a: int) -> Seq<T> {
        self.components@[self.spec_slot(a)].data@
    }

    /// Slots are in range and pairwise distinct, arrays well-formed, and
    /// `length` is the total value count.
    pub open spec fn wf(self) -> bool {
        &&& forall|a: int|
            #[trigger] self.spec_registered(a) ==> 0 <= self.spec_slot(a)
                < self.components@.len()
        &&& forall|a1: int, a2: int|
            self.spec_registered(a1) && self.spec_registered(a2) && a1 != a2
                ==> self.spec_slot(a1) != self.spec_slot(a2)
        &&& forall|s: int|
            0 <= s < self.components@.len() ==> (#[trigger] self.components@[s]).wf()
        &&& self.length == total_values(self.components@)
    }

    /// An empty storage: no archetype registered, nothing stored.
    pub fn new() -> (r: CompactableStorage<T>)
        ensures
            r.wf(),
            r.length == 0,
            r.indices@ == Seq::<Option<usize>>::empty(),
            forall|a: int| !r.spec_registered(a),
    {
        CompactableStorage { length: 0, indices: Vec::new(), components: Vec::new() }
    }

    /// The slot of a registered archetype's array.
    fn index(&self, entity_type_index: EntityTypeIndex) -> (r: usize)
        requires
            self.wf(),
            self.spec_registered(entity_type_index.id as int),
        ensures
            r as int == self.spec_slot(entity_type_index.id as int),
            (r as int) < self.components@.len(),
    {
        self.indices[entity_type_index.id()].unwrap()
    }

    /// Register archetype `entity_type`: allocate an empty packed array and
    /// map the archetype to its slot. Registering the same archetype twice
    /// is a caller error, excluded by contract.
    pub fn insert_entity_type(&mut self, entity_type: EntityTypeIndex)
        requires
            old(self).wf(),
            !old(self).spec_registered(entity_type.id as int),
            entity_type.id < usize::MAX,
        ensures
            final(self).wf(),
            final(self).length == old(self).length,
            final(self).spec_registered(entity_type.id as int),
            final(self).spec_values(entity_type.id as int) == Seq::<T>::empty(),
            forall|b: int|
                b != entity_type.id as int ==> (#[trigger] final(self).spec_registered(b)
                    == old(self).spec_registered(b) && (old(self).spec_registered(b)
                    ==> final(self).spec_values(b) == old(self).spec_values(b))),
    {
        let ghost pre = *self;
        let target = entity_type.id();
        while self.indices.len() <= target
            invariant
                pre.indices@.len() <= self.indices@.len(),
                self.indices@.len() <= target + 1 || self.indices@.len() == pre.indices@.len(),
                self.length == pre.length,
                self.components@ == pre.components@,
                self.indices@ == pre.indices@ + Seq::new(
                    (self.indices@.len() - pre.indices@.len()) as nat,
                    |i: int| None::<usize>,
                ),
            decreases target + 1 - self.indices@.len(),
        {
            self.indices.push(None);
            proof {
                assert(self.indices@ =~= pre.indices@ + Seq::new(
                    (self.indices@.len() - pre.indices@.len()) as nat,
                    |i: int| None::<usize>,
                ));
            }
        }
        let slot = self.components.len();
        self.components.push(ComponentArray::new());
        self.indices.set(target, Some(slot));
        proof {
            assert(self.components@.drop_last() == pre.components@);
            lemma_total_values_push(pre.components@, self.components@.last());
            assert forall|b: int|
                b != entity_type.id as int && #[trigger] self.spec_registered(
                    b,
                ) implies pre.spec_registered(b) && self.spec_values(b) == pre.spec_values(b) by {
                assert(pre.spec_registered(b));
                assert(pre.spec_slot(b) < pre.components@.len());
            }
            assert forall|b: int|
                b != entity_type.id as int && pre.spec_registered(b) implies #[trigger] self
                .spec_registered(b) by {}
        }
    }

    /// Swap-remove the value at `(entity_type, index)` and return it. The
    /// then-last value of the archetype's array moves into row `index`.
    pub fn swap_remove_internal(
        &mut self,
        entity_type: EntityTypeIndex,
        index: ComponentIndex,
    ) -> (r: T)
        requires
            old(self).wf(),
            old(self).spec_registered(entity_type.id as int),
            index.id < old(self).spec_values(entity_type.id as int).len(),
        ensures
            final(self).wf(),
            final(self).length == old(self).length - 1,
            final(self).indices@ == old(self).indices@,
            r == old(self).spec_values(entity_type.id as int)[index.id as int],
            final(self).spec_values(entity_type.id as int) == crate::storage::swap_remove_seq(
                old(self).spec_values(entity_type.id as int),
                index.id as int,
            ),
            forall|b: int|
                old(self).spec_registered(b) && b != entity_type.id as int
                    ==> #[trigger] final(self).spec_values(b) == old(self).spec_values(b),
    {
        let ghost pre = *self;
        let slot = self.index(entity_type);
        proof {
            lemma_total_values_bound(self.components@, slot as int);
        }
        let arr = &mut self.components[slot];
        let removed = arr.swap_remove(index.id());
        self.length = self.length - 1;
        proof {
            assert forall|b: int| #[trigger] self.spec_registered(b) implies pre.spec_registered(b)
                && self.spec_slot(b) == pre.spec_slot(b) by {}
            lemma_total_values_update(pre.components@, slot as int, self.components@[slot as int]);
            assert(self.components@ =~= pre.components@.update(
                slot as int,
                self.components@[slot as int],
            ));
            assert forall|b: int|
                pre.spec_registered(b) && b != entity_type.id as int implies #[trigger] self
                .spec_values(b) == pre.spec_values(b) by {
                assert(pre.spec_slot(b) != pre.spec_slot(entity_type.id as int));
            }
        }
        removed
    }

    /// Swap-remove the value at `(entity_type, index)` and drop it.
    pub fn swap_remove(&mut self, entity_type: EntityTypeIndex, index: ComponentIndex)
        requires
            old(self).wf(),
            old(self).spec_registered(entity_type.id as int),
            index.id < old(self).spec_values(entity_type.id as int).len(),
        ensures
            final(self).wf(),
            final(self).length == old(self).length - 1,
            final(self).indices@ == old(self).indices@,
            final(self).spec_values(entity_type.id as int) == crate::storage::swap_remove_seq(
                old(self).spec_values(entity_type.id as int),
                index.id as int,
            ),
            forall|b: int|
                old(self).spec_registered(b) && b != entity_type.id as int
                    ==> #[trigger] final(self).spec_values(b) == old(self).spec_values(b),
    {
        let _ = self.swap_remove_internal(entity_type, index);
    }

    /// Bulk-append the values of `values` to archetype `entity_type`'s
    /// array, taking ownership; `values` is left empty.
    pub fn extend_memcopy(&mut self, entity_type: EntityTypeIndex, values: &mut Vec<T>)
        requires
            old(self).wf(),
            old(self).spec_registered(entity_type.id as int),
            old(self).spec_values(entity_type.id as int).len() + old(values)@.len() <= usize::MAX,
            old(self).length + old(values)@.len() <= usize::MAX,
        ensures
            final(self).wf(),
            final(self).length == old(self).length + old(values)@.len(),
            final(self).indices@ == old(self).indices@,
            final(self).spec_values(entity_type.id as int) == old(self).spec_values(
                entity_type.id as int,
            ) + old(values)@,
            final(values)@ == Seq::<T>::empty(),
            forall|b: int|
                old(self).spec_registered(b) && b != entity_type.id as int
                    ==> #[trigger] final(self).spec_values(b) == old(self).spec_values(b),
    {
        let ghost pre = *self;
        let count = values.len();
        let slot = self.index(entity_type);
        let arr = &mut self.components[slot];
        arr.extend_memcopy(values);
        self.length = self.length + count;
        proof {
            assert forall|b: int| #[trigger] self.spec_registered(b) implies pre.spec_registered(b)
                && self.spec_slot(b) == pre.spec_slot(b) by {}
            lemma_total_values_update(pre.components@, slot as int, self.components@[slot as int]);
            assert(self.components@ =~= pre.components@.update(
                slot as int,
                self.components@[slot as int],
            ));
            assert forall|b: int|
                pre.spec_registered(b) && b != entity_type.id as int implies #[trigger] self
                .spec_values(b) == pre.spec_values(b) by {
                assert(pre.spec_slot(b) != pre.spec_slot(entity_type.id as int));
            }
        }
    }

    /// The values of archetype `entity_type`'s array, or nothing if the
    /// archetype is not registered here.
    pub fn get(&self, entity_type: EntityTypeIndex) -> (r: Option<&Vec<T>>)
        requires
            self.wf(),
        ensures
            r is Some <==> self.spec_registered(entity_type.id as int),
            r is Some ==> r->Some_0@ == self.spec_values(entity_type.id as int),
    {
        if entity_type.id() < self.indices.len() {
            match self.indices[entity_type.id()] {
                Some(slot) => {
                    proof {
                        assert(self.spec_registered(entity_type.id as int));
                        assert(self.spec_slot(entity_type.id as int) == slot as int);
                    }
                    Some(&self.components[slot].data)
                },
                None => None,
            }
        } else {
            None
        }
    }

    /// Exclusive access to the values of archetype `entity_type`'s array,
    /// which must be registered here.
    pub fn get_mut(&mut self, entity_type: EntityTypeIndex) -> (r: &mut Vec<T>)
        requires
            old(self).wf(),
            old(self).spec_registered(entity_type.id as int),
        ensures
            r@ == old(self).spec_values(entity_type.id as int),
            final(self).indices@ == old(self).indices@,
            final(self).spec_values(entity_type.id as int) == final(r)@,
            forall|b: int|
                old(self).spec_registered(b) && b != entity_type.id as int
                    ==> #[trigger] final(self).spec_values(b) == old(self).spec_values(b),
    {
        let slot = self.index(entity_type);
        proof {
            assert forall|b: int|
                old(self).spec_registered(b) && b != entity_type.id as int implies old(
                self,
            ).spec_slot(b) != slot as int by {}
        }
        let arr = &mut self.components[slot];
        &mut arr.data
    }

    /// The total value count over all registered archetypes.
    pub fn len(&self) -> (r: usize)
        ensures
            r == self.length,
    {
        self.length
    }

    /// Whether no value is stored at all.
    pub fn is_empty(&self) -> (r: bool)
        ensures
            r == (self.length == 0),
    {
        self.length == 0
    }
}

impl<T> Default for CompactableStorage<T> {
    fn default() -> (r: CompactableStorage<T>)
        ensures
            r.wf(),
            r.length == 0,
            forall|a: int| !r.spec_registered(a),
    {
        CompactableStorage::new()
    }
}


/// Walks the per-archetype arrays of a typed storage, yielding one view per
/// packed array in slot order.
pub struct ComponentIter<'a, T> {
    pub storage: &'a CompactableStorage<T>,
    pub slot: usize,
}

impl<'a, T> ComponentIter<'a, T> {
    /// The view of the next packed array, or nothing when all arrays have
    /// been yielded.
    pub fn next(&mut self) -> (r: Option<ComponentView<'a, T>>)
        ensures
            final(self).storage == old(self).storage,
            r is Some <==> (old(self).slot as int) < old(self).storage.components@.len(),
            r is Some ==> final(self).slot == old(self).slot + 1 && r->Some_0.slice@
                == old(self).storage.components@[old(self).slot as int].data@,
            r is None ==> final(self).slot == old(self).slot,
    {
        if self.slot < self.storage.components.len() {
            let view = ComponentView::new(self.storage.components[self.slot].data.as_slice());
            self.slot = self.slot + 1;
            Some(view)
        } else {
            None
        }
    }
}

impl<T> CompactableStorage<T> {
    /// Iterate over the per-archetype arrays, one view per registered
    /// archetype's packed array.
    pub fn iter(&self) -> (r: ComponentIter<'_, T>)
        ensures
            r.storage == self,
            r.slot == 0,
    {
        ComponentIter { storage: self, slot: 0 }
    }
}


/// Walks the per-archetype arrays of a typed storage, yielding one mutable
/// view per packed array in slot order; each view lives until the next call.
pub struct ComponentIterMut<'a, T> {
    pub storage: &'a mut CompactableStorage<T>,
    pub slot: usize,
}

impl<'a, T> ComponentIterMut<'a, T> {
    /// A mutable view of the next packed array, or nothing when all arrays
    /// have been yielded.
    pub fn next(&mut self) -> (r: Option<ComponentViewMut<'_, T>>)
        ensures
            r is Some <==> (old(self).slot as int) < old(self).storage.components@.len(),
            r is Some ==> final(self).slot == old(self).slot + 1 && r->Some_0.slice@
                == old(self).storage.components@[old(self).slot as int].data@,
            r is None ==> *final(self) == *old(self),
    {
        if self.slot < self.storage.components.len() {
            let slot = self.slot;
            self.slot = self.slot + 1;
            let arr = &mut self.storage.components[slot];
            Some(ComponentViewMut::new(arr.data.as_mut_slice()))
        } else {
            None
        }
    }
}

impl<T> CompactableStorage<T> {
    /// Iterate mutably over the per-archetype arrays.
    pub fn iter_mut(&mut self) -> (r: ComponentIterMut<'_, T>)
        ensures
            *r.storage == *old(self),
            r.slot == 0,
    {
        ComponentIterMut { storage: self, slot: 0 }
    }
}

} // verus!


