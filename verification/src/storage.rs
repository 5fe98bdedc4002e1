//! Archetypes, layouts, locations and per-component byte-level storage.

use vstd::prelude::*;
use crate::component::ComponentTypeIndex;
use crate::entity::Entity;

verus! {

/// The index of an archetype: a dense offset into the world's archetype
/// vector.
#[derive(Copy, Clone, Debug, PartialEq, Eq, Structural)]
pub struct EntityTypeIndex {
    pub id: usize,
}

impl EntityTypeIndex {
    pub fn new(id: usize) -> (r: EntityTypeIndex)
        ensures
            r.id == id,
    {
        EntityTypeIndex { id }
    }

    pub open spec fn spec_id(self) -> usize {
        self.id
    }

    #[verifier::when_used_as_spec(spec_id)]
    pub fn id(self) -> (r: usize)
        ensures
            r == self.id,
    {
        self.id
    }
}

/// The row of a component group inside an archetype. Row `r` refers to the
/// same entity in every component array of that archetype.
#[derive(Copy, Clone, Debug, PartialEq, Eq, Structural)]
pub struct ComponentIndex {
    pub id: usize,
}

impl ComponentIndex {
    pub fn new(id: usize) -> (r: ComponentIndex)
        ensures
            r.id == id,
    {
        ComponentIndex { id }
    }

    pub open spec fn spec_id(self) -> usize {
        self.id
    }

    #[verifier::when_used_as_spec(spec_id)]
    pub fn id(self) -> (r: usize)
        ensures
            r == self.id,
    {
        self.id
    }
}

/// The location of an entity: which archetype holds it and at which row.
#[derive(Copy, Clone, Debug, PartialEq, Eq, Structural)]
pub struct EntityLocation {
    pub type_id: EntityTypeIndex,
    pub component_id: ComponentIndex,
}

impl EntityLocation {
    pub fn new(type_id: EntityTypeIndex, component_id: ComponentIndex) -> (r: EntityLocation)
        ensures
            r.type_id == type_id,
            r.component_id == component_id,
    {
        EntityLocation { type_id, component_id }
    }

    pub open spec fn spec_entity_type(self) -> EntityTypeIndex {
        self.type_id
    }

    #[verifier::when_used_as_spec(spec_entity_type)]
    pub fn entity_type(self) -> (r: EntityTypeIndex)
        ensures
            r == self.type_id,
    {
        self.type_id
    }

    pub open spec fn spec_component(self) -> ComponentIndex {
        self.component_id
    }

    #[verifier::when_used_as_spec(spec_component)]
    pub fn component(self) -> (r: ComponentIndex)
        ensures
            r == self.component_id,
    {
        self.component_id
    }
}

/// What a storage must know about a component type to hold its values as
/// bytes: the width of one value and its alignment.
#[derive(Copy, Clone, Debug, PartialEq, Eq, Structural)]
pub struct ComponentMetadata {
    pub size: usize,
    pub alignment: usize,
}

impl ComponentMetadata {
    pub fn new(size: usize, alignment: usize) -> (r: ComponentMetadata)
        ensures
            r.size == size,
            r.alignment == alignment,
    {
        ComponentMetadata { size, alignment }
    }

    pub open spec fn spec_size(&self) -> usize {
        self.size
    }

    #[verifier::when_used_as_spec(spec_size)]
    pub fn size(&self) -> (r: usize)
        ensures
            r == self.size,
    {
        self.size
    }

    pub open spec fn spec_alignment(&self) -> usize {
        self.alignment
    }

    #[verifier::when_used_as_spec(spec_alignment)]
    pub fn alignment(&self) -> (r: usize)
        ensures
            r == self.alignment,
    {
        self.alignment
    }

    /// The slack between one value's width and its alignment.
    pub fn padding(&self) -> (r: usize)
        requires
            self.size <= self.alignment,
        ensures
            r == self.alignment - self.size,
    {
        self.alignment - self.size
    }
}

/// The component types of one kind of entity, with the metadata needed to
/// construct a storage for each listed type. Parallel vectors: entry `i` of
/// `constructors` belongs to entry `i` of `components`.
#[derive(Clone, Debug)]
pub struct EntityLayout {
    pub components: Vec<ComponentTypeIndex>,
    pub constructors: Vec<ComponentMetadata>,
}

impl EntityLayout {
    /// The unordered set of component types this layout describes.
    pub open spec fn spec_types(self) -> Set<ComponentTypeIndex> {
        self.components@.to_set()
    }

    /// Parallel vectors of equal length, no component type listed twice.
    pub open spec fn wf(self) -> bool {
        &&& self.components@.len() == self.constructors@.len()
        &&& forall|i: int, j: int|
            0 <= i < j < self.components@.len() ==> self.components@[i] != self.components@[j]
    }

    pub open spec fn spec_contains(self, index: ComponentTypeIndex) -> bool {
        self.components@.contains(index)
    }

    /// The metadata recorded for `index`, at the position where `index` is
    /// listed.
    pub open spec fn spec_metadata_of(self, index: ComponentTypeIndex) -> ComponentMetadata {
        self.constructors@[self.components@.index_of(index)]
    }

    /// An empty layout, to be filled by `register_component`.
    pub fn new() -> (r: EntityLayout)
        ensures
            r.components@ == Seq::<ComponentTypeIndex>::empty(),
            r.constructors@ == Seq::<ComponentMetadata>::empty(),
            r.wf(),
    {
        EntityLayout { components: Vec::new(), constructors: Vec::new() }
    }

    /// Append one component type and the metadata from which its storage is
    /// constructed. A type may be listed at most once.
    pub fn register_component(&mut self, index: ComponentTypeIndex, metadata: ComponentMetadata)
        requires
            old(self).wf(),
            !old(self).spec_contains(index),
        ensures
            final(self).wf(),
            final(self).components@ == old(self).components@.push(index),
            final(self).constructors@ == old(self).constructors@.push(metadata),
            final(self).spec_types() == old(self).spec_types().insert(index),
    {
        let ghost pre = *self;
        self.components.push(index);
        self.constructors.push(metadata);
        proof {
            assert(self.components@.drop_last() == pre.components@);
            assert(self.components@.to_set() =~= pre.components@.to_set().insert(index)) by {
                assert forall|t: ComponentTypeIndex|
                    self.components@.to_set().contains(t) implies pre.components@.to_set().insert(
                    index,
                ).contains(t) by {
                    let k = choose|k: int|
                        0 <= k < self.components@.len() && self.components@[k] == t;
                    if k < pre.components@.len() {
                        assert(pre.components@[k] == t);
                    }
                };
                assert forall|t: ComponentTypeIndex|
                    pre.components@.to_set().insert(index).contains(t) implies self.components@
                    .to_set().contains(t) by {
                    if pre.components@.contains(t) {
                        let k = choose|k: int|
                            0 <= k < pre.components@.len() && pre.components@[k] == t;
                        assert(self.components@[k] == t);
                    } else {
                        assert(self.components@.last() == index);
                    }
                };
            };
        }
    }

    /// The component types, in registration order.
    pub fn component_types(&self) -> (r: &Vec<ComponentTypeIndex>)
        ensures
            r == &self.components,
    {
        &self.components
    }

    /// The storage metadata, parallel to `component_types`.
    pub fn constructors(&self) -> (r: &Vec<ComponentMetadata>)
        ensures
            r == &self.constructors,
    {
        &self.constructors
    }

    /// The storage metadata recorded for `index`, which must be listed in
    /// this layout.
    pub fn get_constructor_unchecked(&self, index: ComponentTypeIndex) -> (r: ComponentMetadata)
        requires
            self.wf(),
            self.spec_contains(index),
        ensures
            r == self.spec_metadata_of(index),
    {
        let mut i: usize = 0;
        while i < self.components.len()
            invariant
                self.wf(),
                self.spec_contains(index),
                0 <= i <= self.components@.len(),
                forall|k: int| 0 <= k < i ==> self.components@[k] != index,
            decreases self.components@.len() - i,
        {
            if self.components[i] == index {
                proof {
                    let s = self.components@;
                    let k = s.index_of(index);
                    assert(exists|j: int| 0 <= j < s.len() && s[j] == index);
                    assert(0 <= k < s.len() && s[k] == index);
                    if k < i as int {
                        assert(s[k] != s[i as int]);
                    } else if k > i as int {
                        assert(s[i as int] != s[k]);
                    }
                }
                return self.constructors[i];
            }
            i = i + 1;
        }
        proof {
            let s = self.components@;
            let k = choose|j: int| 0 <= j < s.len() && s[j] == index;
            assert(s[k] != index);
            assert(false);
        }
        self.constructors[0]
    }

    /// Whether `index` is one of the layout's component types.
    pub fn contains_component(&self, index: ComponentTypeIndex) -> (r: bool)
        ensures
            r == self.spec_contains(index),
    {
        let mut i: usize = 0;
        while i < self.components.len()
            invariant
                0 <= i <= self.components@.len(),
                forall|k: int| 0 <= k < i ==> self.components@[k] != index,
            decreases self.components@.len() - i,
        {
            if self.components[i] == index {
                return true;
            }
            i = i + 1;
        }
        false
    }
}

/// An archetype: the ordered list of entities that currently share one
/// layout. The entity at position `r` owns row `r` of every component array
/// registered for this archetype.
#[derive(Debug)]
pub struct EntityType {
    pub index: EntityTypeIndex,
    pub entities: Vec<Entity>,
    pub layout: EntityLayout,
}

impl EntityType {
    pub fn new(index: EntityTypeIndex, layout: EntityLayout) -> (r: EntityType)
        ensures
            r.index == index,
            r.entities@ == Seq::<Entity>::empty(),
            r.layout == layout,
    {
        EntityType { index, entities: Vec::new(), layout }
    }

    /// The entities of this archetype, in row order.
    pub fn entities(&self) -> (r: &Vec<Entity>)
        ensures
            r == &self.entities,
    {
        &self.entities
    }

    /// Append an entity; it takes the next row.
    pub fn push(&mut self, entity: Entity)
        ensures
            final(self).entities@ == old(self).entities@.push(entity),
            final(self).index == old(self).index,
            final(self).layout == old(self).layout,
    {
        self.entities.push(entity);
    }

    /// Remove the entity at `entity_index`, moving the then-last entity into
    /// its row, and return the removed handle.
    pub fn swap_remove(&mut self, entity_index: usize) -> (r: Entity)
        requires
            entity_index < old(self).entities@.len(),
        ensures
            r == old(self).entities@[entity_index as int],
            final(self).entities@ == old(self).entities@.update(
                entity_index as int,
                old(self).entities@.last(),
            ).drop_last(),
            final(self).index == old(self).index,
            final(self).layout == old(self).layout,
    {
        self.entities.swap_remove(entity_index)
    }

    pub fn index(&self) -> (r: EntityTypeIndex)
        ensures
            r == self.index,
    {
        self.index
    }

    pub fn layout(&self) -> (r: &EntityLayout)
        ensures
            r == &self.layout,
    {
        &self.layout
    }

    /// Whether this archetype's layout lists `index`.
    pub fn contains_component(&self, index: ComponentTypeIndex) -> (r: bool)
        ensures
            r == self.layout.spec_contains(index),
    {
        self.layout.contains_component(index)
    }

    /// Whether `index` is still a valid row after a swap-remove.
    pub fn contains_component_value(&self, index: usize) -> (r: bool)
        ensures
            r == (index < self.entities@.len()),
    {
        index < self.entities.len()
    }
}


/// The `row`-th chunk of `size` bytes in a packed byte array.
pub open spec fn chunk_at(bytes: Seq<u8>, size: nat, row: int) -> Seq<u8> {
    Seq::new(size, |k: int| bytes[row * size + k])
}

/// A packed byte array of `count` chunks after swap-removing the chunk at
/// `row`: the last chunk takes the removed chunk's place and the array
/// shrinks by one chunk.
pub open spec fn chunk_swap_removed(bytes: Seq<u8>, size: nat, row: int, count: int) -> Seq<u8> {
    Seq::new(
        ((count - 1) * size) as nat,
        |i: int|
            if row * size <= i < row * size + size {
                bytes[(count - 1) * size + (i - row * size)]
            } else {
                bytes[i]
            },
    )
}

/// The bytes after the first `k` bytes of the chunk starting at `last` have
/// been copied over the chunk starting at `base`.
spec fn copy_back_image(bytes: Seq<u8>, base: int, last: int, k: int) -> Seq<u8> {
    Seq::new(
        bytes.len(),
        |i: int|
            if base <= i < base + k {
                bytes[last + (i - base)]
            } else {
                bytes[i]
            },
    )
}

/// A manually tracked packed array of fixed-width byte chunks. The element
/// count is stored beside the bytes so that zero-sized component types (whose
/// chunks are empty) still have a length.
#[derive(Debug)]
pub struct ByteArray {
    pub data: Vec<u8>,
    pub len: usize,
}

impl ByteArray {
    /// The bytes hold exactly `len` chunks of `size` bytes.
    pub open spec fn wf(self, size: nat) -> bool {
        self.data@.len() == self.len * size
    }

    pub fn new() -> (r: ByteArray)
        ensures
            r.len == 0,
            r.data@ == Seq::<u8>::empty(),
            forall|size: nat| r.wf(size),
    {
        let r = ByteArray { data: Vec::new(), len: 0 };
        proof {
            assert forall|size: nat| r.wf(size) by {
                assert(0 * size == 0) by (nonlinear_arith);
            }
        }
        r
    }

    /// Append `count` chunks, handed over as `count * size` raw bytes.
    pub fn extend_bytes(&mut self, bytes: &Vec<u8>, count: usize, size: usize)
        requires
            old(self).wf(size as nat),
            bytes@.len() == count * size,
            old(self).len + count <= usize::MAX,
        ensures
            final(self).wf(size as nat),
            final(self).len == old(self).len + count,
            final(self).data@ == old(self).data@ + bytes@,
    {
        let ghost pre = *self;
        let mut i: usize = 0;
        while i < bytes.len()
            invariant
                0 <= i <= bytes@.len(),
                self.len == pre.len,
                self.data@ == pre.data@ + bytes@.subrange(0, i as int),
            decreases bytes@.len() - i,
        {
            self.data.push(bytes[i]);
            proof {
                assert(bytes@.subrange(0, i + 1) == bytes@.subrange(0, i as int).push(
                    bytes@[i as int],
                ));
            }
            i = i + 1;
        }
        self.len = self.len + count;
        proof {
            assert(bytes@.subrange(0, bytes@.len() as int) == bytes@);
            assert((pre.len + count) * size == pre.len * size + count * size) by (nonlinear_arith);
        }
    }

    /// Swap-remove the chunk at `row` and return its bytes. If it is not the
    /// last chunk, the last chunk is moved into its place first.
    pub fn swap_remove_chunk(&mut self, size: usize, row: usize) -> (r: Vec<u8>)
        requires
            old(self).wf(size as nat),
            row < old(self).len,
        ensures
            final(self).wf(size as nat),
            final(self).len == old(self).len - 1,
            r@ == chunk_at(old(self).data@, size as nat, row as int),
            final(self).data@ == chunk_swap_removed(
                old(self).data@,
                size as nat,
                row as int,
                old(self).len as int,
            ),
    {
        let ghost pre = *self;
        let count = self.len;
        let data_len = self.data.len();
        proof {
            assert(count * size == data_len);
            assert(row * size + size <= count * size) by (nonlinear_arith)
                requires
                    row + 1 <= count,
                    0 <= size,
            ;
            assert((count - 1) * size + size == count * size) by (nonlinear_arith);
            assert(row * size <= (count - 1) * size) by (nonlinear_arith)
                requires
                    row <= count - 1,
                    0 <= size,
            ;
            assert(0 <= row * size) by (nonlinear_arith)
                requires
                    0 <= row,
                    0 <= size,
            ;
        }
        let base = row * size;
        let last = (count - 1) * size;
        let mut removed: Vec<u8> = Vec::new();
        let mut k: usize = 0;
        while k < size
            invariant
                0 <= k <= size,
                base == row * size,
                base + size <= data_len,
                data_len == self.data@.len(),
                removed@.len() == k,
                forall|j: int| 0 <= j < k ==> removed@[j] == self.data@[base + j],
                *self == pre,
            decreases size - k,
        {
            removed.push(self.data[base + k]);
            k = k + 1;
        }
        if row + 1 < count {
            proof {
                assert(base + size <= last) by (nonlinear_arith)
                    requires
                        base == row * size,
                        last == (count - 1) * size,
                        row + 1 <= count - 1,
                        0 <= size,
                ;
            }
            proof {
                assert(self.data@ =~= copy_back_image(pre.data@, base as int, last as int, 0));
            }
            let mut k: usize = 0;
            while k < size
                invariant
                    0 <= k <= size,
                    base + size <= last,
                    last + size == data_len,
                    data_len == self.data@.len(),
                    self.len == pre.len,
                    self.data@ == copy_back_image(pre.data@, base as int, last as int, k as int),
                decreases size - k,
            {
                let b = self.data[last + k];
                self.data.set(base + k, b);
                proof {
                    assert(self.data@ =~= copy_back_image(
                        pre.data@,
                        base as int,
                        last as int,
                        k + 1,
                    ));
                }
                k = k + 1;
            }
        }
        self.data.truncate(last);
        self.len = count - 1;
        proof {
            assert(removed@ == chunk_at(pre.data@, size as nat, row as int)) by {
                assert forall|j: int| 0 <= j < size implies removed@[j] == pre.data@[row * size
                    + j] by {}
                assert(removed@ =~= chunk_at(pre.data@, size as nat, row as int));
            }
            assert(self.data@ =~= chunk_swap_removed(
                pre.data@,
                size as nat,
                row as int,
                count as int,
            ));
        }
        removed
    }
}

/// The total element count held across a sequence of packed arrays.
pub open spec fn sum_lens(arrays: Seq<ByteArray>) -> int
    decreases arrays.len(),
{
    if arrays.len() == 0 {
        0
    } else {
        sum_lens(arrays.drop_last()) + arrays.last().len
    }
}

/// Replacing one array changes the total by the difference of the two
/// lengths.
pub proof fn lemma_sum_lens_update(arrays: Seq<ByteArray>, i: int, arr: ByteArray)
    requires
        0 <= i < arrays.len(),
    ensures
        sum_lens(arrays.update(i, arr)) == sum_lens(arrays) - arrays[i].len + arr.len,
    decreases arrays.len(),
{
    let updated = arrays.update(i, arr);
    if i == arrays.len() - 1 {
        assert(updated.drop_last() =~= arrays.drop_last());
    } else {
        assert(updated.drop_last() =~= arrays.drop_last().update(i, arr));
        lemma_sum_lens_update(arrays.drop_last(), i, arr);
    }
}

/// Every array's length is bounded by the total.
pub proof fn lemma_sum_lens_bound(arrays: Seq<ByteArray>, i: int)
    requires
        0 <= i < arrays.len(),
    ensures
        arrays[i].len <= sum_lens(arrays),
        sum_lens(arrays) >= 0,
    decreases arrays.len(),
{
    if arrays.len() > 0 {
        if i == arrays.len() - 1 {
            lemma_sum_lens_nonnegative(arrays.drop_last());
        } else {
            lemma_sum_lens_bound(arrays.drop_last(), i);
        }
    }
}

/// The total is never negative.
pub proof fn lemma_sum_lens_nonnegative(arrays: Seq<ByteArray>)
    ensures
        sum_lens(arrays) >= 0,
    decreases arrays.len(),
{
    if arrays.len() > 0 {
        lemma_sum_lens_nonnegative(arrays.drop_last());
    }
}


/// Byte-level storage for one component type: one packed array per
/// registered archetype, addressed through an archetype-to-slot table. This
/// is the world's uniform, type-erased handle to component data; element
/// width comes from the component's metadata.
#[derive(Debug)]
pub struct OpaqueComponentStorage {
    pub metadata: ComponentMetadata,
    pub length: usize,
    pub indices: Vec<Option<usize>>,
    pub components: Vec<ByteArray>,
}

impl OpaqueComponentStorage {
    /// The width in bytes of one stored element.
    pub open spec fn spec_elem_size(self) -> nat {
        self.metadata.size as nat
    }

    /// Whether archetype `a` has an array in this storage.
    pub open spec fn spec_registered(self, a: int) -> bool {
        0 <= a < self.indices@.len() && self.indices@[a] is Some
    }

    /// The slot of archetype `a`'s array.
    pub open spec fn spec_slot(self, a: int) -> int {
        self.indices@[a]->Some_0 as int
    }

    /// The element count of archetype `a`'s array.
    pub open spec fn spec_elems(self, a: int) -> int {
        self.components@[self.spec_slot(a)].len as int
    }

    /// The raw bytes of archetype `a`'s array.
    pub open spec fn spec_bytes(self, a: int) -> Seq<u8> {
        self.components@[self.spec_slot(a)].data@
    }

    /// Slots are in range and pairwise distinct, every array holds whole
    /// elements, and `length` is the total element count.
    pub open spec fn wf(self) -> bool {
        &&& forall|a: int|
            #[trigger] self.spec_registered(a) ==> 0 <= self.spec_slot(a)
                < self.components@.len()
        &&& forall|a1: int, a2: int|
            self.spec_registered(a1) && self.spec_registered(a2) && a1 != a2
                ==> self.spec_slot(a1) != self.spec_slot(a2)
        &&& forall|s: int|
            0 <= s < self.components@.len() ==> (#[trigger] self.components@[s]).wf(
                self.spec_elem_size(),
            )
        &&& self.length == sum_lens(self.components@)
    }

    /// Everything except the array of archetype `a` is the same in `pre` and
    /// `post`.
    pub open spec fn same_except(pre: OpaqueComponentStorage, post: OpaqueComponentStorage, a: int) -> bool {
        &&& post.metadata == pre.metadata
        &&& post.indices@ == pre.indices@
        &&& post.components@.len() == pre.components@.len()
        &&& forall|b: int|
            pre.spec_registered(b) && b != a ==> #[trigger] post.spec_bytes(b) == pre.spec_bytes(b)
                && post.spec_elems(b) == pre.spec_elems(b)
    }

    /// An empty storage for elements described by `metadata`.
    pub fn new(metadata: ComponentMetadata) -> (r: OpaqueComponentStorage)
        ensures
            r.wf(),
            r.metadata == metadata,
            r.length == 0,
            r.indices@ == Seq::<Option<usize>>::empty(),
            r.components@ == Seq::<ByteArray>::empty(),
            forall|a: int| !r.spec_registered(a),
    {
        OpaqueComponentStorage {
            metadata,
            length: 0,
            indices: Vec::new(),
            components: Vec::new(),
        }
    }

    /// The metadata of the stored component type.
    pub fn metadata(&self) -> (r: ComponentMetadata)
        ensures
            r == self.metadata,
    {
        self.metadata
    }

    /// The total element count over all registered archetypes.
    pub fn len(&self) -> (r: usize)
        ensures
            r == self.length,
    {
        self.length
    }

    /// Whether no element is stored at all.
    pub fn is_empty(&self) -> (r: bool)
        ensures
            r == (self.length == 0),
    {
        self.length == 0
    }

    /// Register archetype `entity_type`: allocate an empty packed array and
    /// map the archetype to its slot. Registering the same archetype twice is
    /// a caller error, excluded by contract.
    pub fn insert_entity_type(&mut self, entity_type: EntityTypeIndex)
        requires
            old(self).wf(),
            !old(self).spec_registered(entity_type.id as int),
            entity_type.id < usize::MAX,
        ensures
            final(self).wf(),
            final(self).metadata == old(self).metadata,
            final(self).length == old(self).length,
            final(self).spec_registered(entity_type.id as int),
            final(self).spec_elems(entity_type.id as int) == 0,
            final(self).spec_bytes(entity_type.id as int) == Seq::<u8>::empty(),
            final(self).components@.len() == old(self).components@.len() + 1,
            forall|b: int|
                b != entity_type.id as int ==> (#[trigger] final(self).spec_registered(b)
                    == old(self).spec_registered(b) && (old(self).spec_registered(b)
                    ==> final(self).spec_bytes(b) == old(self).spec_bytes(b)
                        && final(self).spec_elems(b) == old(self).spec_elems(b))),
            final(self).indices@.len() == if entity_type.id as int + 1 > old(self).indices@.len() {
                entity_type.id as int + 1
            } else {
                old(self).indices@.len() as int
            },
    {
        let ghost pre = *self;
        let target = entity_type.id();
        while self.indices.len() <= target
            invariant
                pre.indices@.len() <= self.indices@.len(),
                self.indices@.len() <= target + 1 || self.indices@.len() == pre.indices@.len(),
                self.metadata == pre.metadata,
                self.length == pre.length,
                self.components@ == pre.components@,
                self.indices@ == pre.indices@ + Seq::new(
                    (self.indices@.len() - pre.indices@.len()) as nat,
                    |i: int| None::<usize>,
                ),
            decreases target + 1 - self.indices@.len(),
        {
            self.indices.push(None);
            proof {
                assert(self.indices@ =~= pre.indices@ + Seq::new(
                    (self.indices@.len() - pre.indices@.len()) as nat,
                    |i: int| None::<usize>,
                ));
            }
        }
        let slot = self.components.len();
        let arr = ByteArray::new();
        self.components.push(arr);
        self.indices.set(target, Some(slot));
        proof {
            assert(self.components@.drop_last() == pre.components@);
            lemma_sum_lens_push(pre.components@, self.components@.last());
            assert forall|b: int|
                b != entity_type.id as int && #[trigger] self.spec_registered(
                    b,
                ) implies pre.spec_registered(b) && self.spec_bytes(b) == pre.spec_bytes(b)
                && self.spec_elems(b) == pre.spec_elems(b) by {
                assert(pre.spec_registered(b));
                assert(pre.spec_slot(b) < pre.components@.len());
            }
            assert forall|b: int|
                b != entity_type.id as int && pre.spec_registered(b) implies #[trigger] self
                .spec_registered(b) by {}
        }
    }

    /// Swap-remove the element at `(entity_type, index)` and return its
    /// bytes. The then-last element of the archetype's array moves into row
    /// `index`.
    pub fn swap_remove(&mut self, entity_type: EntityTypeIndex, index: ComponentIndex) -> (r: Vec<
        u8,
    >)
        requires
            old(self).wf(),
            old(self).spec_registered(entity_type.id as int),
            index.id < old(self).spec_elems(entity_type.id as int),
        ensures
            final(self).wf(),
            final(self).length == old(self).length - 1,
            OpaqueComponentStorage::same_except(*old(self), *final(self), entity_type.id as int),
            r@ == chunk_at(
                old(self).spec_bytes(entity_type.id as int),
                old(self).spec_elem_size(),
                index.id as int,
            ),
            final(self).spec_bytes(entity_type.id as int) == chunk_swap_removed(
                old(self).spec_bytes(entity_type.id as int),
                old(self).spec_elem_size(),
                index.id as int,
                old(self).spec_elems(entity_type.id as int),
            ),
            final(self).spec_elems(entity_type.id as int) == old(self).spec_elems(
                entity_type.id as int,
            ) - 1,
            final(self).spec_registered(entity_type.id as int),
    {
        let ghost pre = *self;
        let slot = self.indices[entity_type.id()].unwrap();
        proof {
            lemma_sum_lens_bound(self.components@, slot as int);
        }
        let size = self.metadata.size;
        let arr = &mut self.components[slot];
        let removed = arr.swap_remove_chunk(size, index.id());
        self.length = self.length - 1;
        proof {
            assert forall|b: int| #[trigger] self.spec_registered(b) implies pre.spec_registered(b)
                && self.spec_slot(b) == pre.spec_slot(b) by {}
            lemma_sum_lens_update(pre.components@, slot as int, self.components@[slot as int]);
            assert(self.components@ =~= pre.components@.update(
                slot as int,
                self.components@[slot as int],
            ));
            assert forall|b: int|
                pre.spec_registered(b) && b != entity_type.id as int implies #[trigger] self
                .spec_bytes(b) == pre.spec_bytes(b) && self.spec_elems(b) == pre.spec_elems(b) by {
                assert(pre.spec_slot(b) != pre.spec_slot(entity_type.id as int));
            }
        }
        removed
    }

    /// Bulk-append `count` elements, handed over as raw bytes, to archetype
    /// `entity_type`'s array.
    pub fn extend_memcopy_raw(
        &mut self,
        entity_type: EntityTypeIndex,
        bytes: &Vec<u8>,
        count: usize,
    )
        requires
            old(self).wf(),
            old(self).spec_registered(entity_type.id as int),
            bytes@.len() == count * old(self).spec_elem_size(),
            old(self).spec_elems(entity_type.id as int) + count <= usize::MAX,
            old(self).length + count <= usize::MAX,
        ensures
            final(self).wf(),
            final(self).length == old(self).length + count,
            OpaqueComponentStorage::same_except(*old(self), *final(self), entity_type.id as int),
            final(self).spec_bytes(entity_type.id as int) == old(self).spec_bytes(
                entity_type.id as int,
            ) + bytes@,
            final(self).spec_elems(entity_type.id as int) == old(self).spec_elems(
                entity_type.id as int,
            ) + count,
            final(self).spec_registered(entity_type.id as int),
    {
        let ghost pre = *self;
        let slot = self.indices[entity_type.id()].unwrap();
        let size = self.metadata.size;
        let arr = &mut self.components[slot];
        arr.extend_bytes(bytes, count, size);
        self.length = self.length + count;
        proof {
            assert forall|b: int| #[trigger] self.spec_registered(b) implies pre.spec_registered(b)
                && self.spec_slot(b) == pre.spec_slot(b) by {}
            lemma_sum_lens_update(pre.components@, slot as int, self.components@[slot as int]);
            assert(self.components@ =~= pre.components@.update(
                slot as int,
                self.components@[slot as int],
            ));
            assert forall|b: int|
                pre.spec_registered(b) && b != entity_type.id as int implies #[trigger] self
                .spec_bytes(b) == pre.spec_bytes(b) && self.spec_elems(b) == pre.spec_elems(b) by {
                assert(pre.spec_slot(b) != pre.spec_slot(entity_type.id as int));
            }
        }
    }

    /// The bytes and element count of archetype `entity_type`'s array, or
    /// nothing if the archetype is not registered here.
    pub fn get_bytes(&self, entity_type: EntityTypeIndex) -> (r: Option<(&Vec<u8>, usize)>)
        requires
            self.wf(),
        ensures
            r is Some <==> self.spec_registered(entity_type.id as int),
            r is Some ==> r->Some_0.0@ == self.spec_bytes(entity_type.id as int)
                && r->Some_0.1 == self.spec_elems(entity_type.id as int),
    {
        if entity_type.id() < self.indices.len() {
            match self.indices[entity_type.id()] {
                Some(slot) => {
                    proof {
                        assert(self.spec_registered(entity_type.id as int));
                        assert(self.spec_slot(entity_type.id as int) == slot as int);
                    }
                    Some((&self.components[slot].data, self.components[slot].len))
                },
                None => None,
            }
        } else {
            None
        }
    }
}

/// Appending one array adds its length to the total.
pub proof fn lemma_sum_lens_push(arrays: Seq<ByteArray>, arr: ByteArray)
    ensures
        sum_lens(arrays.push(arr)) == sum_lens(arrays) + arr.len,
{
    assert(arrays.push(arr).drop_last() =~= arrays);
}


impl OpaqueComponentStorage {
    /// Move the element at `(src, index)` into the array of archetype `dst`
    /// of the same storage: one swap-remove followed by one append, with no
    /// intermediate copy observable.
    pub fn move_component(
        &mut self,
        src: EntityTypeIndex,
        index: ComponentIndex,
        dst: EntityTypeIndex,
    )
        requires
            old(self).wf(),
            old(self).spec_registered(src.id as int),
            old(self).spec_registered(dst.id as int),
            src.id != dst.id,
            index.id < old(self).spec_elems(src.id as int),
            old(self).spec_elems(dst.id as int) + 1 <= usize::MAX,
        ensures
            final(self).wf(),
            final(self).metadata == old(self).metadata,
            final(self).indices@ == old(self).indices@,
            final(self).length == old(self).length,
            final(self).spec_bytes(src.id as int) == chunk_swap_removed(
                old(self).spec_bytes(src.id as int),
                old(self).spec_elem_size(),
                index.id as int,
                old(self).spec_elems(src.id as int),
            ),
            final(self).spec_elems(src.id as int) == old(self).spec_elems(src.id as int) - 1,
            final(self).spec_bytes(dst.id as int) == old(self).spec_bytes(dst.id as int)
                + chunk_at(
                old(self).spec_bytes(src.id as int),
                old(self).spec_elem_size(),
                index.id as int,
            ),
            final(self).spec_elems(dst.id as int) == old(self).spec_elems(dst.id as int) + 1,
            forall|b: int|
                old(self).spec_registered(b) && b != src.id as int && b != dst.id as int
                    ==> #[trigger] final(self).spec_bytes(b) == old(self).spec_bytes(b)
                    && final(self).spec_elems(b) == old(self).spec_elems(b),
    {
        let ghost pre = *self;
        let value = self.swap_remove(src, index);
        proof {
            assert(value@.len() == 1 * pre.spec_elem_size()) by (nonlinear_arith)
                requires
                    value@.len() == pre.spec_elem_size(),
            ;
            assert(self.spec_bytes(dst.id as int) == pre.spec_bytes(dst.id as int));
        }
        let ghost mid = *self;
        self.extend_memcopy_raw(dst, &value, 1);
        proof {
            assert(self.spec_bytes(src.id as int) == mid.spec_bytes(src.id as int));
        }
    }

    /// Move the element at `(src, src_component)` into archetype `dst` of a
    /// peer storage holding elements of the same width.
    pub fn transfer_component(
        &mut self,
        src: EntityTypeIndex,
        src_component: ComponentIndex,
        dst: EntityTypeIndex,
        dst_storage: &mut OpaqueComponentStorage,
    )
        requires
            old(self).wf(),
            old(dst_storage).wf(),
            old(dst_storage).spec_elem_size() == old(self).spec_elem_size(),
            old(self).spec_registered(src.id as int),
            old(dst_storage).spec_registered(dst.id as int),
            src_component.id < old(self).spec_elems(src.id as int),
            old(dst_storage).spec_elems(dst.id as int) + 1 <= usize::MAX,
            old(dst_storage).length + 1 <= usize::MAX,
        ensures
            final(self).wf(),
            final(dst_storage).wf(),
            final(self).length == old(self).length - 1,
            final(dst_storage).length == old(dst_storage).length + 1,
            OpaqueComponentStorage::same_except(*old(self), *final(self), src.id as int),
            OpaqueComponentStorage::same_except(*old(dst_storage), *final(dst_storage), dst.id as int),
            final(self).spec_bytes(src.id as int) == chunk_swap_removed(
                old(self).spec_bytes(src.id as int),
                old(self).spec_elem_size(),
                src_component.id as int,
                old(self).spec_elems(src.id as int),
            ),
            final(self).spec_elems(src.id as int) == old(self).spec_elems(src.id as int) - 1,
            final(dst_storage).spec_bytes(dst.id as int) == old(dst_storage).spec_bytes(
                dst.id as int,
            ) + chunk_at(
                old(self).spec_bytes(src.id as int),
                old(self).spec_elem_size(),
                src_component.id as int,
            ),
            final(dst_storage).spec_elems(dst.id as int) == old(dst_storage).spec_elems(
                dst.id as int,
            ) + 1,
    {
        let ghost pre = *self;
        let value = self.swap_remove(src, src_component);
        proof {
            assert(value@.len() == 1 * pre.spec_elem_size()) by (nonlinear_arith)
                requires
                    value@.len() == pre.spec_elem_size(),
            ;
        }
        dst_storage.extend_memcopy_raw(dst, &value, 1);
    }

    /// Move every element of archetype `src` into archetype `dst` of a peer
    /// storage holding elements of the same width; the source array is left
    /// empty. When the destination array is empty the two buffers are
    /// swapped instead of copied.
    pub fn transfer_entity_type(
        &mut self,
        src: EntityTypeIndex,
        dst: EntityTypeIndex,
        dst_storage: &mut OpaqueComponentStorage,
    )
        requires
            old(self).wf(),
            old(dst_storage).wf(),
            old(dst_storage).spec_elem_size() == old(self).spec_elem_size(),
            old(self).spec_registered(src.id as int),
            old(dst_storage).spec_registered(dst.id as int),
            old(dst_storage).spec_elems(dst.id as int) + old(self).spec_elems(src.id as int)
                <= usize::MAX,
            old(dst_storage).length + old(self).spec_elems(src.id as int) <= usize::MAX,
        ensures
            final(self).wf(),
            final(dst_storage).wf(),
            final(self).length == old(self).length - old(self).spec_elems(src.id as int),
            final(dst_storage).length == old(dst_storage).length + old(self).spec_elems(
                src.id as int,
            ),
            OpaqueComponentStorage::same_except(*old(self), *final(self), src.id as int),
            OpaqueComponentStorage::same_except(*old(dst_storage), *final(dst_storage), dst.id as int),
            final(self).spec_bytes(src.id as int) == Seq::<u8>::empty(),
            final(self).spec_elems(src.id as int) == 0,
            final(dst_storage).spec_bytes(dst.id as int) == old(dst_storage).spec_bytes(
                dst.id as int,
            ) + old(self).spec_bytes(src.id as int),
            final(dst_storage).spec_elems(dst.id as int) == old(dst_storage).spec_elems(
                dst.id as int,
            ) + old(self).spec_elems(src.id as int),
    {
        let ghost pre = *self;
        let ghost dst_pre = *dst_storage;
        let src_slot = self.indices[src.id()].unwrap();
        let dst_slot = dst_storage.indices[dst.id()].unwrap();
        let entity_count = self.components[src_slot].len;
        proof {
            lemma_sum_lens_bound(self.components@, src_slot as int);
            assert(0 * pre.spec_elem_size() == 0) by (nonlinear_arith);
        }
        if dst_storage.components[dst_slot].len == 0 {
            // The destination array is empty: swap the buffers instead of
            // copying the bytes.
            let src_arr = &mut self.components[src_slot];
            let dst_arr = &mut dst_storage.components[dst_slot];
            core::mem::swap(src_arr, dst_arr);
            self.length = self.length - entity_count;
            dst_storage.length = dst_storage.length + entity_count;
            proof {
                assert(dst_pre.components@[dst_slot as int].data@ =~= Seq::<u8>::empty());
                lemma_sum_lens_update(
                    pre.components@,
                    src_slot as int,
                    self.components@[src_slot as int],
                );
                assert(self.components@ =~= pre.components@.update(
                    src_slot as int,
                    self.components@[src_slot as int],
                ));
                lemma_sum_lens_update(
                    dst_pre.components@,
                    dst_slot as int,
                    dst_storage.components@[dst_slot as int],
                );
                assert(dst_storage.components@ =~= dst_pre.components@.update(
                    dst_slot as int,
                    dst_storage.components@[dst_slot as int],
                ));
                assert(dst_pre.spec_bytes(dst.id as int) + pre.spec_bytes(src.id as int)
                    =~= pre.spec_bytes(src.id as int));
            }
        } else {
            let src_arr = &mut self.components[src_slot];
            let mut moved: Vec<u8> = Vec::new();
            let mut i: usize = 0;
            while i < src_arr.data.len()
                invariant
                    0 <= i <= src_arr.data@.len(),
                    moved@ == src_arr.data@.subrange(0, i as int),
                    *src_arr == pre.components@[src_slot as int],
                decreases src_arr.data@.len() - i,
            {
                moved.push(src_arr.data[i]);
                proof {
                    assert(moved@ =~= src_arr.data@.subrange(0, i + 1));
                }
                i = i + 1;
            }
            proof {
                assert(moved@ =~= src_arr.data@);
            }
            src_arr.data.truncate(0);
            src_arr.len = 0;
            proof {
                assert(src_arr.data@ =~= Seq::<u8>::empty());
            }
            self.length = self.length - entity_count;
            proof {
                lemma_sum_lens_update(
                    pre.components@,
                    src_slot as int,
                    self.components@[src_slot as int],
                );
                assert(self.components@ =~= pre.components@.update(
                    src_slot as int,
                    self.components@[src_slot as int],
                ));
            }
            dst_storage.extend_memcopy_raw(dst, &moved, entity_count);
        }
        proof {
            assert forall|b: int| #[trigger] self.spec_registered(b) implies pre.spec_registered(b)
                && self.spec_slot(b) == pre.spec_slot(b) by {}
            assert forall|b: int|
                pre.spec_registered(b) && b != src.id as int implies #[trigger] self.spec_bytes(b)
                == pre.spec_bytes(b) && self.spec_elems(b) == pre.spec_elems(b) by {
                assert(pre.spec_slot(b) != pre.spec_slot(src.id as int));
            }
            assert forall|b: int| #[trigger] dst_storage.spec_registered(b) implies dst_pre
                .spec_registered(b) && dst_storage.spec_slot(b) == dst_pre.spec_slot(b) by {}
            assert forall|b: int|
                dst_pre.spec_registered(b) && b != dst.id as int implies #[trigger] dst_storage
                .spec_bytes(b) == dst_pre.spec_bytes(b) && dst_storage.spec_elems(b)
                == dst_pre.spec_elems(b) by {
                assert(dst_pre.spec_slot(b) != dst_pre.spec_slot(dst.id as int));
            }
        }
    }
}


/// One binding of the location map: a live entity and where it lives.
#[derive(Copy, Clone, Debug)]
pub struct LocationEntry {
    pub entity: Entity,
    pub location: EntityLocation,
}

/// The mathematical content of a sequence of bindings, later bindings
/// overriding earlier ones.
pub open spec fn map_of(s: Seq<LocationEntry>) -> Map<Entity, EntityLocation>
    decreases s.len(),
{
    if s.len() == 0 {
        Map::empty()
    } else {
        map_of(s.drop_last()).insert(s.last().entity, s.last().location)
    }
}

/// Whether some binding of `s` is for entity `e`.
pub open spec fn has_key(s: Seq<LocationEntry>, e: Entity) -> bool {
    exists|i: int| 0 <= i < s.len() && s[i].entity == e
}

/// Whether no two bindings of `s` are for the same entity.
pub open spec fn unique_keys(s: Seq<LocationEntry>) -> bool {
    forall|i: int, j: int| 0 <= i < j < s.len() ==> s[i].entity != s[j].entity
}

/// The domain of `map_of(s)` is exactly the set of bound entities.
pub proof fn lemma_map_of_dom(s: Seq<LocationEntry>)
    ensures
        forall|e: Entity| #[trigger] map_of(s).contains_key(e) == has_key(s, e),
    decreases s.len(),
{
    if s.len() > 0 {
        lemma_map_of_dom(s.drop_last());
        assert forall|e: Entity| #[trigger] map_of(s).contains_key(e) == has_key(s, e) by {
            if map_of(s).contains_key(e) {
                if e == s.last().entity {
                    assert(s[s.len() - 1].entity == e);
                } else {
                    assert(map_of(s.drop_last()).contains_key(e));
                    assert(has_key(s.drop_last(), e));
                    let i = choose|i: int|
                        0 <= i < s.drop_last().len() && s.drop_last()[i].entity == e;
                    assert(s.drop_last()[i] == s[i]);
                    assert(s[i].entity == e);
                }
                assert(has_key(s, e));
            }
            if has_key(s, e) {
                let i = choose|i: int| 0 <= i < s.len() && s[i].entity == e;
                if i < s.len() - 1 {
                    assert(s.drop_last()[i] == s[i]);
                    assert(s.drop_last()[i].entity == e);
                    assert(has_key(s.drop_last(), e));
                    assert(map_of(s.drop_last()).contains_key(e));
                }
                assert(map_of(s).contains_key(e));
            }
        }
    }
}

/// With unique keys, the map sends the `i`-th bound entity to the `i`-th
/// bound location.
pub proof fn lemma_map_of_get(s: Seq<LocationEntry>, i: int)
    requires
        unique_keys(s),
        0 <= i < s.len(),
    ensures
        map_of(s).contains_key(s[i].entity),
        map_of(s)[s[i].entity] == s[i].location,
    decreases s.len(),
{
    if i < s.len() - 1 {
        assert(unique_keys(s.drop_last()));
        assert(s.drop_last()[i] == s[i]);
        lemma_map_of_get(s.drop_last(), i);
        assert(s[i].entity != s.last().entity);
    }
}

/// Rebinding the `i`-th entry's location is insertion into the map.
pub proof fn lemma_map_of_update(s: Seq<LocationEntry>, i: int, l: EntityLocation)
    requires
        unique_keys(s),
        0 <= i < s.len(),
    ensures
        map_of(s.update(i, LocationEntry { entity: s[i].entity, location: l })) == map_of(
            s,
        ).insert(s[i].entity, l),
    decreases s.len(),
{
    let entry = LocationEntry { entity: s[i].entity, location: l };
    let updated = s.update(i, entry);
    if i == s.len() - 1 {
        assert(updated.drop_last() =~= s.drop_last());
        assert(map_of(updated) =~= map_of(s).insert(s[i].entity, l));
    } else {
        assert(unique_keys(s.drop_last()));
        assert(s.drop_last()[i] == s[i]);
        lemma_map_of_update(s.drop_last(), i, l);
        assert(updated.drop_last() =~= s.drop_last().update(i, entry));
        assert(s[i].entity != s.last().entity);
        assert(map_of(updated) =~= map_of(s).insert(s[i].entity, l));
    }
}

/// Deleting the `i`-th entry is removal from the map.
pub proof fn lemma_map_of_remove(s: Seq<LocationEntry>, i: int)
    requires
        unique_keys(s),
        0 <= i < s.len(),
    ensures
        map_of(s.remove(i)) == map_of(s).remove(s[i].entity),
    decreases s.len(),
{
    if i == s.len() - 1 {
        assert(s.remove(i) =~= s.drop_last());
        lemma_map_of_dom(s.drop_last());
        assert forall|k: int| 0 <= k < s.drop_last().len() implies s.drop_last()[k].entity != s[
            i
        ].entity by {
            assert(s[k].entity != s[i].entity);
        }
        assert(!has_key(s.drop_last(), s[i].entity));
        assert(!map_of(s.drop_last()).contains_key(s[i].entity));
        assert(map_of(s.remove(i)) =~= map_of(s).remove(s[i].entity));
    } else {
        assert(unique_keys(s.drop_last()));
        assert(s.drop_last()[i] == s[i]);
        lemma_map_of_remove(s.drop_last(), i);
        assert(s.remove(i).drop_last() =~= s.drop_last().remove(i));
        assert(s.remove(i).last() == s.last());
        assert(s[i].entity != s.last().entity);
        assert(map_of(s.remove(i)) =~= map_of(s).remove(s[i].entity));
    }
}

/// A map of active entities to the locations of their component groups.
#[derive(Debug)]
pub struct EntityLocationMap {
    pub locations: Vec<LocationEntry>,
}

impl View for EntityLocationMap {
    type V = Map<Entity, EntityLocation>;

    open spec fn view(&self) -> Map<Entity, EntityLocation> {
        map_of(self.locations@)
    }
}

impl EntityLocationMap {
    /// No entity is bound twice.
    pub open spec fn wf(self) -> bool {
        unique_keys(self.locations@)
    }

    /// The number of bindings.
    pub open spec fn spec_len(self) -> int {
        self.locations@.len() as int
    }

    pub fn new() -> (r: EntityLocationMap)
        ensures
            r.wf(),
            r@ == Map::<Entity, EntityLocation>::empty(),
            r.spec_len() == 0,
    {
        EntityLocationMap { locations: Vec::new() }
    }

    /// The index of the binding for `entity`, if there is one.
    fn find(&self, entity: Entity) -> (r: Option<usize>)
        ensures
            match r {
                Some(i) => i < self.locations@.len() && self.locations@[i as int].entity == entity,
                None => !has_key(self.locations@, entity),
            },
    {
        let mut i: usize = 0;
        while i < self.locations.len()
            invariant
                0 <= i <= self.locations@.len(),
                forall|k: int| 0 <= k < i ==> self.locations@[k].entity != entity,
            decreases self.locations@.len() - i,
        {
            if self.locations[i].entity == entity {
                return Some(i);
            }
            i = i + 1;
        }
        None
    }

    /// The number of live entities.
    pub fn len(&self) -> (r: usize)
        ensures
            r == self.spec_len(),
    {
        self.locations.len()
    }

    /// Whether no entity is live.
    pub fn is_empty(&self) -> (r: bool)
        ensures
            r == (self.spec_len() == 0),
            r ==> self@ == Map::<Entity, EntityLocation>::empty(),
    {
        self.locations.is_empty()
    }

    /// Whether `entity` is live.
    pub fn contains(&self, entity: Entity) -> (r: bool)
        ensures
            r == self@.contains_key(entity),
    {
        proof {
            lemma_map_of_dom(self.locations@);
        }
        self.find(entity).is_some()
    }

    /// The location of `entity`, if it is live.
    pub fn get(&self, entity: Entity) -> (r: Option<EntityLocation>)
        requires
            self.wf(),
        ensures
            r == if self@.contains_key(entity) {
                Some(self@[entity])
            } else {
                None::<EntityLocation>
            },
    {
        proof {
            lemma_map_of_dom(self.locations@);
        }
        match self.find(entity) {
            Some(i) => {
                proof {
                    lemma_map_of_get(self.locations@, i as int);
                }
                Some(self.locations[i].location)
            },
            None => None,
        }
    }

    /// Bind `entity` to `location`, returning the binding it displaces, if
    /// any.
    pub fn set(&mut self, entity: Entity, location: EntityLocation) -> (r: Option<EntityLocation>)
        requires
            old(self).wf(),
        ensures
            final(self).wf(),
            final(self)@ == old(self)@.insert(entity, location),
            r == if old(self)@.contains_key(entity) {
                Some(old(self)@[entity])
            } else {
                None::<EntityLocation>
            },
            final(self).spec_len() == old(self).spec_len() + if old(self)@.contains_key(entity) {
                0int
            } else {
                1int
            },
    {
        proof {
            lemma_map_of_dom(self.locations@);
        }
        match self.find(entity) {
            Some(i) => {
                proof {
                    lemma_map_of_get(self.locations@, i as int);
                    lemma_map_of_update(self.locations@, i as int, location);
                }
                let prior = self.locations[i].location;
                self.locations.set(i, LocationEntry { entity, location });
                Some(prior)
            },
            None => {
                self.locations.push(LocationEntry { entity, location });
                proof {
                    assert(self.locations@.drop_last() == old(self).locations@);
                    assert forall|i: int, j: int|
                        0 <= i < j < self.locations@.len() implies self.locations@[i].entity
                        != self.locations@[j].entity by {
                        if j == self.locations@.len() - 1 {
                            assert(self.locations@[i].entity != entity);
                        }
                    }
                }
                None
            },
        }
    }

    /// Unbind `entity`, returning the location it had, if any.
    pub fn remove(&mut self, entity: Entity) -> (r: Option<EntityLocation>)
        requires
            old(self).wf(),
        ensures
            final(self).wf(),
            final(self)@ == old(self)@.remove(entity),
            r == if old(self)@.contains_key(entity) {
                Some(old(self)@[entity])
            } else {
                None::<EntityLocation>
            },
            final(self).spec_len() == old(self).spec_len() - if old(self)@.contains_key(entity) {
                1int
            } else {
                0int
            },
    {
        proof {
            lemma_map_of_dom(self.locations@);
        }
        match self.find(entity) {
            Some(i) => {
                proof {
                    lemma_map_of_get(self.locations@, i as int);
                    lemma_map_of_remove(self.locations@, i as int);
                    assert forall|a: int, b: int|
                        0 <= a < b < self.locations@.remove(i as int).len() implies self.locations@
                        .remove(i as int)[a].entity != self.locations@.remove(
                        i as int,
                    )[b].entity by {
                        let s = self.locations@;
                        if b < i as int {
                            assert(s[a].entity != s[b].entity);
                        } else if a < i as int {
                            assert(s[a].entity != s[b + 1].entity);
                        } else {
                            assert(s[a + 1].entity != s[b + 1].entity);
                        }
                    }
                }
                let entry = self.locations.remove(i);
                Some(entry.location)
            },
            None => {
                proof {
                    assert(final(self)@ =~= old(self)@.remove(entity));
                }
                None
            },
        }
    }

    /// The live entities, one for each binding, in binding order.
    pub fn iter(&self) -> (r: Vec<Entity>)
        requires
            self.wf(),
        ensures
            r@.len() == self.locations@.len(),
            forall|i: int| 0 <= i < r@.len() ==> r@[i] == self.locations@[i].entity,
            forall|i: int, j: int| 0 <= i < j < r@.len() ==> r@[i] != r@[j],
            forall|e: Entity| r@.contains(e) == self@.contains_key(e),
    {
        proof {
            lemma_map_of_dom(self.locations@);
        }
        let mut keys: Vec<Entity> = Vec::new();
        let mut i: usize = 0;
        while i < self.locations.len()
            invariant
                0 <= i <= self.locations@.len(),
                keys@.len() == i,
                forall|k: int| 0 <= k < i ==> keys@[k] == self.locations@[k].entity,
            decreases self.locations@.len() - i,
        {
            keys.push(self.locations[i].entity);
            i = i + 1;
        }
        proof {
            assert forall|e: Entity| keys@.contains(e) == self@.contains_key(e) by {
                if keys@.contains(e) {
                    let k = choose|k: int| 0 <= k < keys@.len() && keys@[k] == e;
                    assert(self.locations@[k].entity == e);
                    assert(has_key(self.locations@, e));
                }
                if self@.contains_key(e) {
                    let k = choose|k: int|
                        0 <= k < self.locations@.len() && self.locations@[k].entity == e;
                    assert(keys@[k] == e);
                }
            }
        }
        keys
    }

    /// Bind each of `entities` to consecutive rows of archetype
    /// `entity_type` starting at `base`, and return every location these
    /// bindings displaced.
    #[verifier::rlimit(30)]
    pub fn insert(
        &mut self,
        entities: &Vec<Entity>,
        entity_type: EntityTypeIndex,
        base: ComponentIndex,
    ) -> (r: Vec<EntityLocation>)
        requires
            old(self).wf(),
            base.id + entities@.len() <= usize::MAX,
            forall|i: int, j: int| 0 <= i < j < entities@.len() ==> entities@[i] != entities@[j],
        ensures
            final(self).wf(),
            forall|i: int|
                0 <= i < entities@.len() ==> final(self)@.contains_key(#[trigger] entities@[i])
                    && final(self)@[entities@[i]] == (EntityLocation {
                    type_id: entity_type,
                    component_id: ComponentIndex { id: (base.id + i) as usize },
                }),
            forall|e: Entity|
                !entities@.contains(e) ==> #[trigger] final(self)@.contains_key(e) == old(
                    self,
                )@.contains_key(e) && (old(self)@.contains_key(e) ==> final(self)@[e] == old(
                    self,
                )@[e]),
            (forall|i: int|
                0 <= i < entities@.len() ==> !old(self)@.contains_key(
                    #[trigger] entities@[i],
                )) ==> r@.len() == 0 && final(self).spec_len() == old(self).spec_len()
                + entities@.len(),
            forall|j: int|
                0 <= j < r@.len() ==> exists|i: int|
                    0 <= i < entities@.len() && old(self)@.contains_key(#[trigger] entities@[i])
                        && old(self)@[entities@[i]] == #[trigger] r@[j],
    {
        let ghost pre = *self;
        let mut displaced: Vec<EntityLocation> = Vec::new();
        let mut i: usize = 0;
        while i < entities.len()
            invariant
                0 <= i <= entities@.len(),
                base.id + entities@.len() <= usize::MAX,
                forall|a: int, b: int|
                    0 <= a < b < entities@.len() ==> entities@[a] != entities@[b],
                self.wf(),
                forall|k: int|
                    0 <= k < i ==> self@.contains_key(#[trigger] entities@[k])
                        && self@[entities@[k]] == (EntityLocation {
                        type_id: entity_type,
                        component_id: ComponentIndex { id: (base.id + k) as usize },
                    }),
                forall|e: Entity|
                    !entities@.subrange(0, i as int).contains(e) ==> #[trigger] self@.contains_key(
                        e,
                    ) == pre@.contains_key(e) && (pre@.contains_key(e) ==> self@[e] == pre@[e]),
                (forall|k: int|
                    0 <= k < i ==> !pre@.contains_key(#[trigger] entities@[k])) ==> displaced@.len()
                    == 0 && self.spec_len() == pre.spec_len() + i,
                forall|j: int|
                    0 <= j < displaced@.len() ==> exists|k: int|
                        0 <= k < entities@.len() && pre@.contains_key(#[trigger] entities@[k])
                            && pre@[entities@[k]] == #[trigger] displaced@[j],
            decreases entities@.len() - i,
        {
            let entity = entities[i];
            let location = EntityLocation {
                type_id: entity_type,
                component_id: ComponentIndex::new(base.id() + i),
            };
            let ghost before = *self;
            let ghost displaced0 = displaced@;
            let prior = self.set(entity, location);
            match prior {
                Some(p) => {
                    proof {
                        assert(!entities@.subrange(0, i as int).contains(entity)) by {
                            if entities@.subrange(0, i as int).contains(entity) {
                                let k = choose|k: int|
                                    0 <= k < i && entities@.subrange(0, i as int)[k] == entity;
                                assert(entities@[k] == entities@[i as int]);
                            }
                        }
                        assert(before@.contains_key(entity) == pre@.contains_key(entity));
                        assert(pre@.contains_key(entity) && pre@[entities@[i as int]] == p);
                    }
                    displaced.push(p);
                },
                None => {},
            }
            proof {
                assert forall|j: int|
                    0 <= j < displaced@.len() implies exists|k: int|
                        0 <= k < entities@.len() && pre@.contains_key(#[trigger] entities@[k])
                            && pre@[entities@[k]] == #[trigger] displaced@[j] by {
                    if j < displaced0.len() {
                        assert(displaced@[j] == displaced0[j]);
                    } else {
                        assert(pre@.contains_key(entities@[i as int]));
                        assert(pre@[entities@[i as int]] == displaced@[j]);
                    }
                }
                assert(entities@.subrange(0, i as int) == entities@.subrange(0, i + 1).drop_last());
                assert forall|e: Entity|
                    !entities@.subrange(0, i + 1).contains(e) implies #[trigger] self@.contains_key(
                    e,
                ) == pre@.contains_key(e) && (pre@.contains_key(e) ==> self@[e] == pre@[e]) by {
                    assert(e != entity) by {
                        assert(entities@.subrange(0, i + 1)[i as int] == entities@[i as int]);
                    }
                    assert(!entities@.subrange(0, i as int).contains(e));
                }
                assert forall|k: int|
                    0 <= k < i + 1 implies self@.contains_key(#[trigger] entities@[k])
                    && self@[entities@[k]] == (EntityLocation {
                    type_id: entity_type,
                    component_id: ComponentIndex { id: (base.id + k) as usize },
                }) by {
                    if k < i as int {
                        assert(entities@[k] != entity);
                    }
                }
                if forall|k: int| 0 <= k < i + 1 ==> !pre@.contains_key(#[trigger] entities@[k]) {
                    assert(!pre@.contains_key(entities@[i as int]));
                    assert(!entities@.subrange(0, i as int).contains(entity)) by {
                        if entities@.subrange(0, i as int).contains(entity) {
                            let k = choose|k: int|
                                0 <= k < i && entities@.subrange(0, i as int)[k] == entity;
                            assert(entities@[k] == entities@[i as int]);
                        }
                    }
                    assert(!before@.contains_key(entity));
                }
            }
            i = i + 1;
        }
        proof {
            assert forall|e: Entity|
                !entities@.contains(e) implies #[trigger] self@.contains_key(e) == pre@.contains_key(
                e,
            ) && (pre@.contains_key(e) ==> self@[e] == pre@[e]) by {
                assert(!entities@.subrange(0, i as int).contains(e)) by {
                    if entities@.subrange(0, i as int).contains(e) {
                        let k = choose|k: int|
                            0 <= k < i && entities@.subrange(0, i as int)[k] == e;
                        assert(entities@[k] == e);
                        assert(entities@.contains(e));
                    }
                }
            }
        }
        displaced
    }
}


/// The sequence left by a swap-remove at `i`: the last element moves into
/// slot `i` and the sequence shrinks by one.
pub open spec fn swap_remove_seq<A>(s: Seq<A>, i: int) -> Seq<A> {
    s.update(i, s.last()).drop_last()
}

/// Where the element originally at `second` sits after `first` was
/// swap-removed from a sequence of length `len`: still at `second`, unless
/// it was the last element, which moved into `first`'s slot.
pub open spec fn adjusted_row(len: int, first: int, second: int) -> int {
    if second == len - 1 {
        first
    } else {
        second
    }
}

/// A swap-remove deletes exactly one occurrence of the removed element: the
/// resulting sequence carries the original multiset minus `s[i]`.
pub proof fn lemma_swap_remove_seq_multiset<A>(s: Seq<A>, i: int)
    requires
        0 <= i < s.len(),
    ensures
        swap_remove_seq(s, i).to_multiset() == s.to_multiset().remove(s[i]),
{
    broadcast use vstd::seq_lib::group_to_multiset_ensures;

    let u = s.update(i, s.last());
    assert(u.remove(i) =~= s.remove(i));
    assert(u.drop_last() =~= u.remove(u.len() - 1));
    assert(u.remove(u.len() - 1).to_multiset() =~= u.to_multiset().remove(u.last()));
    if i == s.len() - 1 {
        assert(u =~= s);
        assert(swap_remove_seq(s, i).to_multiset() =~= s.to_multiset().remove(s[i]));
    } else {
        assert(u.remove(i).to_multiset() =~= u.to_multiset().remove(u[i]));
        assert(s.remove(i).to_multiset() =~= s.to_multiset().remove(s[i]));
        assert(u[i] == s.last());
        assert(u.to_multiset().contains(u[i])) by {
            assert(u.contains(u[i]));
        }
        assert(u.to_multiset() =~= u.remove(i).to_multiset().insert(u[i]));
        assert(u.to_multiset().remove(u.last()) =~= u.remove(i).to_multiset()) by {
            assert(u.remove(i).to_multiset().insert(u[i]).remove(u[i]) =~= u.remove(
                i,
            ).to_multiset());
        }
        assert(swap_remove_seq(s, i).to_multiset() =~= s.to_multiset().remove(s[i]));
    }
}

/// Swap-remove commutativity: removing row `i` and then row `j` (adjusted
/// for the swap) leaves the same multiset of elements as removing row `j`
/// and then row `i` (adjusted), for `i != j`. Both orders delete exactly the
/// elements originally at rows `i` and `j`.
pub proof fn lemma_swap_remove_commutes<A>(s: Seq<A>, i: int, j: int)
    requires
        0 <= i < s.len(),
        0 <= j < s.len(),
        i != j,
    ensures
        swap_remove_seq(swap_remove_seq(s, i), adjusted_row(s.len() as int, i, j)).to_multiset()
            == swap_remove_seq(
            swap_remove_seq(s, j),
            adjusted_row(s.len() as int, j, i),
        ).to_multiset(),
        swap_remove_seq(swap_remove_seq(s, i), adjusted_row(s.len() as int, i, j)).to_multiset()
            == s.to_multiset().remove(s[i]).remove(s[j]),
{
    lemma_swap_remove_two(s, i, j);
    lemma_swap_remove_two(s, j, i);
    assert(s.to_multiset().remove(s[i]).remove(s[j]) =~= s.to_multiset().remove(s[j]).remove(
        s[i],
    ));
}

/// Removing row `i`, then the adjusted row of `j`, deletes exactly the
/// elements originally at rows `i` and `j`.
pub proof fn lemma_swap_remove_two<A>(s: Seq<A>, i: int, j: int)
    requires
        0 <= i < s.len(),
        0 <= j < s.len(),
        i != j,
    ensures
        swap_remove_seq(swap_remove_seq(s, i), adjusted_row(s.len() as int, i, j)).to_multiset()
            == s.to_multiset().remove(s[i]).remove(s[j]),
{
    let s1 = swap_remove_seq(s, i);
    let j1 = adjusted_row(s.len() as int, i, j);
    lemma_swap_remove_seq_multiset(s, i);
    assert(0 <= j1 < s1.len()) by {
        if j == s.len() - 1 {
            assert(i < s.len() - 1);
        }
    }
    lemma_swap_remove_seq_multiset(s1, j1);
    assert(s1[j1] == s[j]) by {
        if j == s.len() - 1 {
            assert(s1[i] == s.last());
        } else {
            if i == s.len() - 1 {
                assert(s1 =~= s.drop_last());
            }
        }
    }
}


/// An immutable view of one archetype's packed component values.
pub struct ComponentView<'a, T> {
    pub slice: &'a [T],
}

impl<'a, T> ComponentView<'a, T> {
    pub fn new(slice: &'a [T]) -> (r: ComponentView<'a, T>)
        ensures
            r.slice@ == slice@,
    {
        ComponentView { slice }
    }

    /// The underlying values.
    pub fn into_slice(self) -> (r: &'a [T])
        ensures
            r@ == self.slice@,
    {
        self.slice
    }
}

/// A mutable view of one archetype's packed component values.
pub struct ComponentViewMut<'a, T> {
    pub slice: &'a mut [T],
}

impl<'a, T> ComponentViewMut<'a, T> {
    pub fn new(slice: &'a mut [T]) -> (r: ComponentViewMut<'a, T>)
        ensures
            r.slice@ == old(slice)@,
    {
        ComponentViewMut { slice }
    }

    /// The underlying values.
    pub fn into_slice(self) -> (r: &'a mut [T]) {
        self.slice
    }
}

} // verus!



