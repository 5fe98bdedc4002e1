//! The world: composition root over the allocator, the archetypes, the
//! location map and the per-type component storages.

use vstd::prelude::*;
use crate::component::ComponentTypeIndex;
use crate::entity::{lemma_allocate_run_sequential, Entity, EntityAllocator};
use crate::storage::{
    chunk_at,
    chunk_swap_removed,
    ComponentIndex,
    ComponentMetadata,
    EntityLayout,
    EntityLocation,
    EntityLocationMap,
    EntityType,
    EntityTypeIndex,
    OpaqueComponentStorage,
};

verus! {

/// One binding of the component map: a component type and its storage.
#[derive(Debug)]
pub struct ComponentEntry {
    pub key: ComponentTypeIndex,
    pub storage: OpaqueComponentStorage,
}

/// The mathematical content of a sequence of storage bindings, later
/// bindings overriding earlier ones.
pub open spec fn storage_map_of(s: Seq<ComponentEntry>) -> Map<
    ComponentTypeIndex,
    OpaqueComponentStorage,
>
    decreases s.len(),
{
    if s.len() == 0 {
        Map::empty()
    } else {
        storage_map_of(s.drop_last()).insert(s.last().key, s.last().storage)
    }
}

/// Whether some binding of `s` is for component type `t`.
pub open spec fn storage_has_key(s: Seq<ComponentEntry>, t: ComponentTypeIndex) -> bool {
    exists|i: int| 0 <= i < s.len() && s[i].key == t
}

/// Whether no component type is bound twice.
pub open spec fn storage_unique_keys(s: Seq<ComponentEntry>) -> bool {
    forall|i: int, j: int| 0 <= i < j < s.len() ==> s[i].key != s[j].key
}

/// The domain of `storage_map_of(s)` is exactly the set of bound types.
pub proof fn lemma_storage_map_of_dom(s: Seq<ComponentEntry>)
    ensures
        forall|t: ComponentTypeIndex| #[trigger]
            storage_map_of(s).contains_key(t) == storage_has_key(s, t),
    decreases s.len(),
{
    if s.len() > 0 {
        lemma_storage_map_of_dom(s.drop_last());
        assert forall|t: ComponentTypeIndex| #[trigger]
            storage_map_of(s).contains_key(t) == storage_has_key(s, t) by {
            if storage_map_of(s).contains_key(t) {
                if t == s.last().key {
                    assert(s[s.len() - 1].key == t);
                } else {
                    assert(storage_map_of(s.drop_last()).contains_key(t));
                    assert(storage_has_key(s.drop_last(), t));
                    let i = choose|i: int|
                        0 <= i < s.drop_last().len() && s.drop_last()[i].key == t;
                    assert(s.drop_last()[i] == s[i]);
                    assert(s[i].key == t);
                }
                assert(storage_has_key(s, t));
            }
            if storage_has_key(s, t) {
                let i = choose|i: int| 0 <= i < s.len() && s[i].key == t;
                if i < s.len() - 1 {
                    assert(s.drop_last()[i] == s[i]);
                    assert(storage_has_key(s.drop_last(), t));
                    assert(storage_map_of(s.drop_last()).contains_key(t));
                }
                assert(storage_map_of(s).contains_key(t));
            }
        }
    }
}

/// With unique keys, the map sends the `i`-th bound type to the `i`-th bound
/// storage.
pub proof fn lemma_storage_map_of_get(s: Seq<ComponentEntry>, i: int)
    requires
        storage_unique_keys(s),
        0 <= i < s.len(),
    ensures
        storage_map_of(s).contains_key(s[i].key),
        storage_map_of(s)[s[i].key] == s[i].storage,
    decreases s.len(),
{
    if i < s.len() - 1 {
        assert(storage_unique_keys(s.drop_last()));
        assert(s.drop_last()[i] == s[i]);
        lemma_storage_map_of_get(s.drop_last(), i);
        assert(s[i].key != s.last().key);
    }
}

/// Replacing the `i`-th entry's storage is insertion into the map.
pub proof fn lemma_storage_map_of_update(
    s: Seq<ComponentEntry>,
    i: int,
    storage: OpaqueComponentStorage,
)
    requires
        storage_unique_keys(s),
        0 <= i < s.len(),
    ensures
        storage_map_of(s.update(i, ComponentEntry { key: s[i].key, storage })) == storage_map_of(
            s,
        ).insert(s[i].key, storage),
    decreases s.len(),
{
    let entry = ComponentEntry { key: s[i].key, storage };
    let updated = s.update(i, entry);
    if i == s.len() - 1 {
        assert(updated.drop_last() =~= s.drop_last());
        assert(storage_map_of(updated) =~= storage_map_of(s).insert(s[i].key, storage));
    } else {
        assert(storage_unique_keys(s.drop_last()));
        assert(s.drop_last()[i] == s[i]);
        lemma_storage_map_of_update(s.drop_last(), i, storage);
        assert(updated.drop_last() =~= s.drop_last().update(i, entry));
        assert(s[i].key != s.last().key);
        assert(storage_map_of(updated) =~= storage_map_of(s).insert(s[i].key, storage));
    }
}

/// Replacing the `i`-th entry's storage by any value is insertion into the
/// map, and keeps the keys unique.
pub proof fn lemma_storage_map_of_update_any(s: Seq<ComponentEntry>, i: int)
    requires
        storage_unique_keys(s),
        0 <= i < s.len(),
    ensures
        forall|st: OpaqueComponentStorage|
            storage_map_of(
                #[trigger] s.update(i, ComponentEntry { key: s[i].key, storage: st }),
            ) == storage_map_of(s).insert(s[i].key, st),
        forall|st: OpaqueComponentStorage|
            storage_unique_keys(
                #[trigger] s.update(i, ComponentEntry { key: s[i].key, storage: st }),
            ),
{
    assert forall|st: OpaqueComponentStorage|
        storage_map_of(#[trigger] s.update(i, ComponentEntry { key: s[i].key, storage: st }))
            == storage_map_of(s).insert(s[i].key, st) by {
        lemma_storage_map_of_update(s, i, st);
    }
    assert forall|st: OpaqueComponentStorage|
        storage_unique_keys(
            #[trigger] s.update(i, ComponentEntry { key: s[i].key, storage: st }),
        ) by {
        let u = s.update(i, ComponentEntry { key: s[i].key, storage: st });
        assert forall|a: int, b: int| 0 <= a < b < u.len() implies u[a].key != u[b].key by {
            assert(s[a].key != s[b].key);
        }
    }
}

/// Deleting the `i`-th entry is removal from the map.
pub proof fn lemma_storage_map_of_remove(s: Seq<ComponentEntry>, i: int)
    requires
        storage_unique_keys(s),
        0 <= i < s.len(),
    ensures
        storage_map_of(s.remove(i)) == storage_map_of(s).remove(s[i].key),
    decreases s.len(),
{
    if i == s.len() - 1 {
        assert(s.remove(i) =~= s.drop_last());
        lemma_storage_map_of_dom(s.drop_last());
        assert forall|k: int| 0 <= k < s.drop_last().len() implies s.drop_last()[k].key != s[
            i
        ].key by {
            assert(s[k].key != s[i].key);
        }
        assert(!storage_has_key(s.drop_last(), s[i].key));
        assert(!storage_map_of(s.drop_last()).contains_key(s[i].key));
        assert(storage_map_of(s.remove(i)) =~= storage_map_of(s).remove(s[i].key));
    } else {
        assert(storage_unique_keys(s.drop_last()));
        assert(s.drop_last()[i] == s[i]);
        lemma_storage_map_of_remove(s.drop_last(), i);
        assert(s.remove(i).drop_last() =~= s.drop_last().remove(i));
        assert(s.remove(i).last() == s.last());
        assert(s[i].key != s.last().key);
        assert(storage_map_of(s.remove(i)) =~= storage_map_of(s).remove(s[i].key));
    }
}

/// Where the components live in a world: one byte-level storage per
/// component type that has ever been inserted.
#[derive(Debug)]
pub struct ComponentMap {
    pub data: Vec<ComponentEntry>,
}

impl View for ComponentMap {
    type V = Map<ComponentTypeIndex, OpaqueComponentStorage>;

    open spec fn view(&self) -> Map<ComponentTypeIndex, OpaqueComponentStorage> {
        storage_map_of(self.data@)
    }
}

impl ComponentMap {
    /// No component type bound twice, and every storage internally
    /// consistent.
    pub open spec fn wf(self) -> bool {
        &&& storage_unique_keys(self.data@)
        &&& forall|i: int| 0 <= i < self.data@.len() ==> (#[trigger] self.data@[i]).storage.wf()
        &&& forall|t: ComponentTypeIndex| #[trigger] self@.contains_key(t) ==> self@[t].wf()
    }

    pub fn new() -> (r: ComponentMap)
        ensures
            r.wf(),
            r@ == Map::<ComponentTypeIndex, OpaqueComponentStorage>::empty(),
    {
        ComponentMap { data: Vec::new() }
    }

    /// The index of the binding for `component_type`, if there is one.
    fn find(&self, component_type: ComponentTypeIndex) -> (r: Option<usize>)
        ensures
            match r {
                Some(i) => i < self.data@.len() && self.data@[i as int].key == component_type,
                None => !storage_has_key(self.data@, component_type),
            },
    {
        let mut i: usize = 0;
        while i < self.data.len()
            invariant
                0 <= i <= self.data@.len(),
                forall|k: int| 0 <= k < i ==> self.data@[k].key != component_type,
            decreases self.data@.len() - i,
        {
            if self.data[i].key == component_type {
                return Some(i);
            }
            i = i + 1;
        }
        None
    }

    /// Whether a storage exists for `component_type`.
    pub fn contains_component(&self, component_type: ComponentTypeIndex) -> (r: bool)
        ensures
            r == self@.contains_key(component_type),
    {
        proof {
            lemma_storage_map_of_dom(self.data@);
        }
        self.find(component_type).is_some()
    }

    /// Whether a storage exists for `component_type`.
    pub(crate) fn contains_component_id(&self, index: ComponentTypeIndex) -> (r: bool)
        ensures
            r == self@.contains_key(index),
    {
        self.contains_component(index)
    }

    /// The storage for `component_type`, if one exists.
    pub fn get_view(&self, component_type: ComponentTypeIndex) -> (r: Option<
        &OpaqueComponentStorage,
    >)
        requires
            self.wf(),
        ensures
            r is Some <==> self@.contains_key(component_type),
            r is Some ==> *r->Some_0 == self@[component_type],
    {
        proof {
            lemma_storage_map_of_dom(self.data@);
        }
        match self.find(component_type) {
            Some(i) => {
                proof {
                    lemma_storage_map_of_get(self.data@, i as int);
                }
                Some(&self.data[i].storage)
            },
            None => None,
        }
    }

    /// Exclusive access to the storage for `component_type`, which must
    /// exist.
    #[verifier::rlimit(30)]
    pub fn get_view_mut(&mut self, component_type: ComponentTypeIndex) -> (r:
        &mut OpaqueComponentStorage)
        requires
            old(self).wf(),
            old(self)@.contains_key(component_type),
        ensures
            *r == old(self)@[component_type],
            final(self)@ == old(self)@.insert(component_type, *final(r)),
            final(self).wf() <== final(r).wf(),
    {
        proof {
            lemma_storage_map_of_dom(self.data@);
        }
        let found = self.find(component_type);
        let i = found.unwrap();
        proof {
            lemma_storage_map_of_get(self.data@, i as int);
            lemma_storage_map_of_update_any(self.data@, i as int);
        }
        let entry = &mut self.data[i];
        &mut entry.storage
    }

    /// The storage for `component_type`, creating an empty one from
    /// `metadata` if none exists yet.
    #[verifier::rlimit(30)]
    pub fn get_or_insert_with(
        &mut self,
        index: ComponentTypeIndex,
        metadata: ComponentMetadata,
    ) -> (r: &mut OpaqueComponentStorage)
        requires
            old(self).wf(),
        ensures
            r.wf(),
            old(self)@.contains_key(index) ==> *r == old(self)@[index],
            !old(self)@.contains_key(index) ==> r.wf() && r.metadata == metadata && r.length
                == 0 && r.indices@ == Seq::<Option<usize>>::empty() && r.components@
                == Seq::<crate::storage::ByteArray>::empty(),
            final(self)@ == old(self)@.insert(index, *final(r)),
            final(self).wf() <== final(r).wf(),
    {
        proof {
            lemma_storage_map_of_dom(self.data@);
        }
        let found = self.find(index);
        let i = match found {
            Some(i) => i,
            None => {
                let storage = OpaqueComponentStorage::new(metadata);
                let n = self.data.len();
                self.data.push(ComponentEntry { key: index, storage });
                proof {
                    assert(self.data@.drop_last() == old(self).data@);
                    assert forall|a: int, b: int|
                        0 <= a < b < self.data@.len() implies self.data@[a].key
                        != self.data@[b].key by {
                        if b == self.data@.len() - 1 {
                            assert(self.data@[a].key != index);
                        }
                    }
                }
                n
            },
        };
        proof {
            lemma_storage_map_of_dom(self.data@);
            lemma_storage_map_of_get(self.data@, i as int);
            lemma_storage_map_of_update_any(self.data@, i as int);
        }
        let entry = &mut self.data[i];
        &mut entry.storage
    }
}


impl ComponentMap {
    /// Remove and return the storage bound to `component_type`, if any.
    pub(crate) fn take(&mut self, component_type: ComponentTypeIndex) -> (r: Option<
        OpaqueComponentStorage,
    >)
        requires
            old(self).wf(),
        ensures
            final(self).wf(),
            match r {
                Some(storage) => old(self)@.contains_key(component_type) && storage == old(self)@[component_type] && final(self)@ == old(self)@.remove(component_type),
                None => !old(self)@.contains_key(component_type) && *final(self) == *old(self),
            },
    {
        proof {
            lemma_storage_map_of_dom(self.data@);
        }
        match self.find(component_type) {
            Some(i) => {
                proof {
                    lemma_storage_map_of_get(self.data@, i as int);
                    lemma_storage_map_of_remove(self.data@, i as int);
                    let s = self.data@;
                    assert forall|a: int, b: int|
                        0 <= a < b < s.remove(i as int).len() implies s.remove(i as int)[a].key
                        != s.remove(i as int)[b].key by {
                        if b < i as int {
                            assert(s[a].key != s[b].key);
                        } else if a < i as int {
                            assert(s[a].key != s[b + 1].key);
                        } else {
                            assert(s[a + 1].key != s[b + 1].key);
                        }
                    }
                }
                let entry = self.data.remove(i);
                proof {
                    assert forall|u: ComponentTypeIndex| #[trigger]
                        self@.contains_key(u) implies self@[u].wf() by {
                        assert(old(self)@.contains_key(u));
                        assert(self@[u] == old(self)@[u]);
                    }
                }
                Some(entry.storage)
            },
            None => None,
        }
    }

    /// Insert a storage for `component_type`, which must not be bound yet.
    pub(crate) fn put(&mut self, component_type: ComponentTypeIndex, storage: OpaqueComponentStorage)
        requires
            old(self).wf(),
            !old(self)@.contains_key(component_type),
            storage.wf(),
        ensures
            final(self).wf(),
            final(self)@ == old(self)@.insert(component_type, storage),
    {
        proof {
            lemma_storage_map_of_dom(self.data@);
        }
        self.data.push(ComponentEntry { key: component_type, storage });
        proof {
            assert(self.data@.drop_last() == old(self).data@);
            assert forall|a: int, b: int|
                0 <= a < b < self.data@.len() implies self.data@[a].key != self.data@[b].key by {
                if b == self.data@.len() - 1 {
                    assert(self.data@[a].key != component_type);
                }
            }
            assert forall|u: ComponentTypeIndex| #[trigger]
                self@.contains_key(u) implies self@[u].wf() by {
                if u != component_type {
                    assert(old(self)@.contains_key(u));
                    assert(self@[u] == old(self)@[u]);
                }
            }
        }
    }

    /// Start a write session over this map's storages.
    pub fn get_multi_view_mut(self) -> (r: MultiViewMut)
        ensures
            r.components == self,
            r.claimed@ == Seq::<ComponentTypeIndex>::empty(),
    {
        MultiViewMut::new(self)
    }
}

/// A write session over the component map: storages are claimed one by one,
/// each at most once, so no two claims can alias the same storage. A claimed
/// storage is owned by its `ComponentWriter` until it is given back.
#[derive(Debug)]
pub struct MultiViewMut {
    pub components: ComponentMap,
    pub claimed: Vec<ComponentTypeIndex>,
}

impl MultiViewMut {
    pub open spec fn spec_claimed(self, t: ComponentTypeIndex) -> bool {
        self.claimed@.contains(t)
    }

    pub(crate) fn new(components: ComponentMap) -> (r: MultiViewMut)
        ensures
            r.components == components,
            r.claimed@ == Seq::<ComponentTypeIndex>::empty(),
    {
        MultiViewMut { components, claimed: Vec::new() }
    }

    /// Claim the storage for `type_id`, taking it out of the map. A type
    /// that was already claimed in this session, or has no storage, yields
    /// nothing.
    pub fn claim(&mut self, type_id: ComponentTypeIndex) -> (r: Option<OpaqueComponentStorage>)
        requires
            old(self).components.wf(),
        ensures
            final(self).components.wf(),
            match r {
                Some(storage) => !old(self).spec_claimed(type_id) && old(self).components@.contains_key(type_id) && storage == old(self).components@[type_id]
                    && final(self).components@ == old(self).components@.remove(type_id) && final(self).claimed@ == old(self).claimed@.push(type_id),
                None => *final(self) == *old(self) && (old(self).spec_claimed(type_id) || !old(self).components@.contains_key(type_id)),
            },
    {
        let mut already: bool = false;
        let mut i: usize = 0;
        while i < self.claimed.len()
            invariant
                0 <= i <= self.claimed@.len(),
                already == self.claimed@.subrange(0, i as int).contains(type_id),
            decreases self.claimed@.len() - i,
        {
            if self.claimed[i] == type_id {
                already = true;
            }
            proof {
                assert(self.claimed@.subrange(0, i + 1).drop_last() == self.claimed@.subrange(
                    0,
                    i as int,
                ));
                assert(self.claimed@.subrange(0, i + 1).last() == self.claimed@[i as int]);
            }
            i = i + 1;
        }
        proof {
            assert(self.claimed@.subrange(0, self.claimed@.len() as int) == self.claimed@);
        }
        if already {
            return None;
        }
        match self.components.take(type_id) {
            Some(storage) => {
                self.claimed.push(type_id);
                Some(storage)
            },
            None => None,
        }
    }

    /// Give a claimed storage back to the map.
    pub fn restore(&mut self, type_id: ComponentTypeIndex, storage: OpaqueComponentStorage)
        requires
            old(self).components.wf(),
            !old(self).components@.contains_key(type_id),
            storage.wf(),
        ensures
            final(self).components.wf(),
            final(self).components@ == old(self).components@.insert(type_id, storage),
            final(self).claimed@ == old(self).claimed@,
    {
        self.components.put(type_id, storage);
    }

    /// End the session, handing the map back.
    pub(crate) fn into_components(self) -> (r: ComponentMap)
        ensures
            r == self.components,
    {
        self.components
    }
}

/// A mutable handle to one claimed storage, bound to one archetype: all
/// writes go to that archetype's array.
#[derive(Debug)]
pub struct ComponentWriter {
    pub components: OpaqueComponentStorage,
    pub entity_type: EntityTypeIndex,
    pub type_id: ComponentTypeIndex,
}

impl ComponentWriter {
    /// Bulk-append `count` component values, handed over as raw bytes, to
    /// the target archetype's array.
    pub fn extend_memcopy(&mut self, bytes: &Vec<u8>, count: usize)
        requires
            old(self).components.wf(),
            old(self).components.spec_registered(old(self).entity_type.id as int),
            bytes@.len() == count * old(self).components.spec_elem_size(),
            old(self).components.spec_elems(old(self).entity_type.id as int) + count <= usize::MAX,
            old(self).components.length + count <= usize::MAX,
        ensures
            final(self).entity_type == old(self).entity_type,
            final(self).type_id == old(self).type_id,
            final(self).components.wf(),
            final(self).components.length == old(self).components.length + count,
            OpaqueComponentStorage::same_except(
                old(self).components,
                final(self).components,
                old(self).entity_type.id as int,
            ),
            final(self).components.spec_bytes(old(self).entity_type.id as int) == old(self).components.spec_bytes(old(self).entity_type.id as int) + bytes@,
            final(self).components.spec_elems(old(self).entity_type.id as int) == old(self).components.spec_elems(old(self).entity_type.id as int) + count,
            final(self).components.spec_registered(old(self).entity_type.id as int),
    {
        let entity_type = self.entity_type;
        self.components.extend_memcopy_raw(entity_type, bytes, count);
    }
}

/// Writes one batch of entities and their components into a single
/// archetype. The writer owns the archetype and the component map for the
/// duration of the batch and hands them back afterwards.
#[derive(Debug)]
pub struct EntityTypeWriter {
    pub entity_type_index: EntityTypeIndex,
    pub entity_type: EntityType,
    pub components: MultiViewMut,
    pub initial_count: usize,
}

impl EntityTypeWriter {
    pub fn new(
        entity_type_index: EntityTypeIndex,
        entity_type: EntityType,
        components: MultiViewMut,
    ) -> (r: EntityTypeWriter)
        ensures
            r.entity_type_index == entity_type_index,
            r.entity_type == entity_type,
            r.components == components,
            r.initial_count == entity_type.entities@.len(),
    {
        let initial_count = entity_type.entities().len();
        EntityTypeWriter { entity_type_index, entity_type, components, initial_count }
    }

    /// Append an entity to the archetype's entity list.
    pub fn push(&mut self, entity: Entity)
        ensures
            final(self).entity_type.entities@ == old(self).entity_type.entities@.push(entity),
            final(self).entity_type.index == old(self).entity_type.index,
            final(self).entity_type.layout == old(self).entity_type.layout,
            final(self).entity_type_index == old(self).entity_type_index,
            final(self).components == old(self).components,
            final(self).initial_count == old(self).initial_count,
    {
        self.entity_type.push(entity);
    }

    /// Claim the storage for `type_id` and bind it to this writer's
    /// archetype. Claiming a type twice, or a type without a storage, is a
    /// caller error, excluded by contract.
    pub fn claim_components(&mut self, type_id: ComponentTypeIndex) -> (r: ComponentWriter)
        requires
            old(self).components.components.wf(),
            old(self).components.components@.contains_key(type_id),
            !old(self).components.spec_claimed(type_id),
        ensures
            r.components == old(self).components.components@[type_id],
            r.entity_type == old(self).entity_type_index,
            r.type_id == type_id,
            final(self).components.components.wf(),
            final(self).components.components@ == old(self).components.components@.remove(type_id),
            final(self).components.claimed@ == old(self).components.claimed@.push(type_id),
            final(self).entity_type == old(self).entity_type,
            final(self).entity_type_index == old(self).entity_type_index,
            final(self).initial_count == old(self).initial_count,
    {
        let entity_type = self.entity_type_index;
        let claimed = self.components.claim(type_id);
        let storage = claimed.unwrap();
        ComponentWriter { components: storage, entity_type, type_id }
    }

    /// Give a claimed storage back to the session's map.
    pub fn release_components(&mut self, writer: ComponentWriter)
        requires
            old(self).components.components.wf(),
            !old(self).components.components@.contains_key(writer.type_id),
            writer.components.wf(),
        ensures
            final(self).components.components.wf(),
            final(self).components.components@ == old(self).components.components@.insert(
                writer.type_id,
                writer.components,
            ),
            final(self).components.claimed@ == old(self).components.claimed@,
            final(self).entity_type == old(self).entity_type,
            final(self).entity_type_index == old(self).entity_type_index,
            final(self).initial_count == old(self).initial_count,
    {
        self.components.restore(writer.type_id, writer.components);
    }

    /// The archetype being written.
    pub fn entity_type(&self) -> (r: &EntityType)
        ensures
            r == &self.entity_type,
    {
        &self.entity_type
    }

    /// The first row this batch wrote, and the entities appended so far in
    /// this batch.
    pub fn inserted(&self) -> (r: (ComponentIndex, Vec<Entity>))
        requires
            self.initial_count <= self.entity_type.entities@.len(),
        ensures
            r.0.id == self.initial_count,
            r.1@ == self.entity_type.entities@.subrange(
                self.initial_count as int,
                self.entity_type.entities@.len() as int,
            ),
    {
        let index = ComponentIndex::new(self.initial_count);
        let mut slice: Vec<Entity> = Vec::new();
        let mut i: usize = self.initial_count;
        while i < self.entity_type.entities.len()
            invariant
                self.initial_count <= i <= self.entity_type.entities@.len(),
                slice@ == self.entity_type.entities@.subrange(self.initial_count as int, i as int),
            decreases self.entity_type.entities@.len() - i,
        {
            slice.push(self.entity_type.entities[i]);
            proof {
                assert(self.entity_type.entities@.subrange(self.initial_count as int, i + 1)
                    == self.entity_type.entities@.subrange(self.initial_count as int, i as int).push(
                    self.entity_type.entities@[i as int],
                ));
            }
            i = i + 1;
        }
        (index, slice)
    }

    /// End the batch, handing the archetype and the component map back.
    pub(crate) fn into_parts(self) -> (r: (EntityType, ComponentMap))
        ensures
            r.0 == self.entity_type,
            r.1 == self.components.components,
    {
        let EntityTypeWriter { entity_type_index: _, entity_type, components, initial_count: _ } =
            self;
        (entity_type, components.into_components())
    }
}


/// The width declared for component type `t` by a layout given as parallel
/// sequences of types and metadata.
pub open spec fn declared_size(
    types: Seq<ComponentTypeIndex>,
    metas: Seq<ComponentMetadata>,
    t: ComponentTypeIndex,
) -> nat {
    metas[types.index_of(t)].size as nat
}

/// An order-insensitive test on an archetype's component-type list.
pub trait LayoutFilter {
    /// The unordered component-type set this filter stands for.
    spec fn spec_types(&self) -> Set<ComponentTypeIndex>;

    /// Whether `components` holds exactly the filter's types, each once.
    fn matches_layout(&self, components: &Vec<ComponentTypeIndex>) -> (r: bool)
        ensures
            r == (components@.no_duplicates() && components@.to_set() == self.spec_types()),
    ;
}

/// Declares which component types a source will write, and how.
pub trait EntityTypeSource {
    type Filter: LayoutFilter;

    /// Whether this source is internally consistent (each payload matches
    /// its declared width, no type written twice).
    spec fn spec_wf(&self) -> bool;

    /// How many entities this source inserts.
    spec fn spec_rows(&self) -> nat;

    /// The bytes this source appends to the storage of type `t`.
    spec fn spec_payload(&self, t: ComponentTypeIndex) -> Seq<u8>;

    /// The component types the source writes, in its own order.
    spec fn spec_layout_types(&self) -> Seq<ComponentTypeIndex>;

    /// The metadata for each of those types, parallel to
    /// `spec_layout_types`.
    spec fn spec_layout_metadata(&self) -> Seq<ComponentMetadata>;

    /// A filter matching exactly this source's component-type set.
    fn filter(&self) -> (f: Self::Filter)
        ensures
            f.spec_types() == self.spec_layout_types().to_set(),
    ;

    /// The layout the source writes: its types and their storage metadata.
    fn layout(&self) -> (l: EntityLayout)
        requires
            self.spec_wf(),
        ensures
            l.components@ == self.spec_layout_types(),
            l.constructors@ == self.spec_layout_metadata(),
            l.wf(),
    ;
}

/// What must hold of a writer, an allocator and a source before the source
/// may push its batch: the writer's archetype carries the source's type set,
/// every storage of those types is registered for it with the declared
/// element width, nothing is claimed yet, and all counts stay within machine
/// limits.
pub open spec fn writer_batch_pre<S: EntityTypeSource>(
    src: S,
    w: EntityTypeWriter,
    alloc: crate::entity::AllocatorView,
) -> bool {
    let a = w.entity_type_index.id as int;
    let rows = src.spec_rows();
    &&& src.spec_wf()
    &&& src.spec_layout_types().no_duplicates()
    &&& src.spec_layout_types().len() == src.spec_layout_metadata().len()
    &&& w.entity_type.layout.wf()
    &&& w.entity_type.layout.spec_types() == src.spec_layout_types().to_set()
    &&& w.components.components.wf()
    &&& w.components.claimed@ == Seq::<ComponentTypeIndex>::empty()
    &&& alloc.wf()
    &&& alloc.max_id + rows <= u64::MAX
    &&& w.entity_type.entities@.len() + rows <= usize::MAX
    &&& forall|t: ComponentTypeIndex|
        #[trigger] w.entity_type.layout.spec_contains(t) ==> {
            let st = w.components.components@[t];
            &&& w.components.components@.contains_key(t)
            &&& st.wf()
            &&& st.spec_registered(a)
            &&& st.spec_elem_size() == declared_size(
                src.spec_layout_types(),
                src.spec_layout_metadata(),
                t,
            )
            &&& st.spec_elems(a) + rows <= usize::MAX
            &&& st.length + rows <= usize::MAX
        }
}

/// What holds of the writer after a source pushed its batch: `minted` new
/// entities at the end of the archetype's entity list, each storage of a
/// layout type extended by the source's payload for that type in the
/// archetype's array and untouched elsewhere, and every other storage
/// untouched.
pub open spec fn writer_batch_post<S: EntityTypeSource>(
    src: S,
    w0: EntityTypeWriter,
    w1: EntityTypeWriter,
    minted: Seq<Entity>,
) -> bool {
    let a = w0.entity_type_index.id as int;
    &&& w1.entity_type_index == w0.entity_type_index
    &&& w1.initial_count == w0.initial_count
    &&& w1.entity_type.index == w0.entity_type.index
    &&& w1.entity_type.layout == w0.entity_type.layout
    &&& w1.entity_type.entities@ == w0.entity_type.entities@ + minted
    &&& w1.components.components.wf()
    &&& w1.components.components@.dom() == w0.components.components@.dom()
    &&& forall|t: ComponentTypeIndex|
        #[trigger] w0.entity_type.layout.spec_contains(t) ==> {
            let st0 = w0.components.components@[t];
            let st1 = w1.components.components@[t];
            &&& st1.wf()
            &&& st1.metadata == st0.metadata
            &&& st1.indices@ == st0.indices@
            &&& st1.length == st0.length + minted.len()
            &&& st1.spec_bytes(a) == st0.spec_bytes(a) + src.spec_payload(t)
            &&& st1.spec_elems(a) == st0.spec_elems(a) + minted.len()
            &&& OpaqueComponentStorage::same_except(st0, st1, a)
        }
    &&& forall|t: ComponentTypeIndex|
        !w0.entity_type.layout.spec_contains(t) && w0.components.components@.contains_key(t)
            ==> #[trigger] w1.components.components@[t] == w0.components.components@[t]
}

/// A source of entities and their component payloads.
pub trait ComponentSource: EntityTypeSource + Sized {
    /// Pull `spec_rows` entities from the allocator, push each to the
    /// writer's archetype, and append every component payload to the claimed
    /// storages.
    fn push_components(&mut self, writer: &mut EntityTypeWriter, allocator: &mut EntityAllocator)
        requires
            writer_batch_pre(*old(self), *old(writer), old(allocator)@),
        ensures
            writer_batch_post(
                *old(self),
                *old(writer),
                *final(writer),
                old(allocator)@.allocate_run(old(self).spec_rows()),
            ),
            final(allocator)@ == old(allocator)@.allocate_state(old(self).spec_rows()),
    ;
}

/// Anything that can be turned into a component source.
pub trait IntoComponentSource {
    type Source: ComponentSource;

    /// The source this value turns into.
    spec fn spec_into(self) -> Self::Source;

    fn into_source(self) -> (r: Self::Source)
        ensures
            r == self.spec_into(),
    ;
}

/// One component value of one entity, carried as its type id, its metadata
/// and its raw bytes.
#[derive(Debug, Clone)]
pub struct ComponentData {
    pub type_id: ComponentTypeIndex,
    pub metadata: ComponentMetadata,
    pub bytes: Vec<u8>,
}

impl ComponentData {
    /// The bytes hold exactly one value of the declared width.
    pub open spec fn wf(self) -> bool {
        self.bytes@.len() == self.metadata.size
    }

    pub fn new(type_id: ComponentTypeIndex, metadata: ComponentMetadata, bytes: Vec<u8>) -> (r:
        ComponentData)
        requires
            bytes@.len() == metadata.size,
        ensures
            r.type_id == type_id,
            r.metadata == metadata,
            r.bytes == bytes,
            r.wf(),
    {
        ComponentData { type_id, metadata, bytes }
    }
}

/// A filter for an unordered pair of distinct component types.
#[derive(Copy, Clone, Debug)]
pub struct PairFilter {
    pub first: ComponentTypeIndex,
    pub second: ComponentTypeIndex,
}

impl LayoutFilter for PairFilter {
    open spec fn spec_types(&self) -> Set<ComponentTypeIndex> {
        Set::empty().insert(self.first).insert(self.second)
    }

    fn matches_layout(&self, components: &Vec<ComponentTypeIndex>) -> (r: bool)
        ensures
            r == (components@.no_duplicates() && components@.to_set() == self.spec_types()),
    {
        let r = if self.first == self.second {
            components.len() == 1 && components[0] == self.first
        } else {
            components.len() == 2 && ((components[0] == self.first && components[1] == self.second)
                || (components[0] == self.second && components[1] == self.first))
        };
        proof {
            if r {
                assert(components@.no_duplicates());
                assert(components@.to_set() =~= self.spec_types()) by {
                    assert(components@.contains(components@[0]));
                    if components@.len() == 2 {
                        assert(components@.contains(components@[1]));
                    }
                }
            } else {
                if components@.no_duplicates() && components@.to_set() == self.spec_types() {
                    assert(self.spec_types().contains(self.first));
                    assert(self.spec_types().contains(self.second));
                    assert(components@.contains(self.first));
                    assert(components@.contains(self.second));
                    let i = choose|i: int|
                        0 <= i < components@.len() && components@[i] == self.first;
                    let j = choose|j: int|
                        0 <= j < components@.len() && components@[j] == self.second;
                    assert forall|k: int|
                        0 <= k < components@.len() implies components@[k] == self.first
                        || components@[k] == self.second by {
                        assert(components@.contains(components@[k]));
                        assert(self.spec_types().contains(components@[k]));
                    }
                    if self.first == self.second {
                        assert(components@.len() >= 1);
                        if components@.len() >= 2 {
                            assert(components@[0] == components@[1]);
                        }
                        assert(components@.len() == 1);
                        assert(components@[0] == self.first);
                        assert(false);
                    } else {
                        assert(i != j);
                        assert(components@.len() >= 2);
                        if components@.len() >= 3 {
                            assert(components@[0] != components@[1]);
                            assert(components@[0] != components@[2]);
                            assert(components@[1] != components@[2]);
                            assert(false);
                        }
                        assert(components@.len() == 2);
                        assert(components@[0] != components@[1]);
                        assert(false);
                    }
                }
            }
        }
        r
    }
}


/// A source that inserts exactly one entity carrying two components of
/// distinct types.
#[derive(Debug)]
pub struct SingleEntity {
    pub first: ComponentData,
    pub second: ComponentData,
}

impl SingleEntity {
    pub fn new(first: ComponentData, second: ComponentData) -> (r: SingleEntity)
        requires
            first.wf(),
            second.wf(),
            first.type_id != second.type_id,
        ensures
            r.first == first,
            r.second == second,
            r.spec_wf(),
    {
        SingleEntity { first, second }
    }
}

impl EntityTypeSource for SingleEntity {
    type Filter = PairFilter;

    open spec fn spec_wf(&self) -> bool {
        &&& self.first.wf()
        &&& self.second.wf()
        &&& self.first.type_id != self.second.type_id
    }

    open spec fn spec_rows(&self) -> nat {
        1
    }

    open spec fn spec_payload(&self, t: ComponentTypeIndex) -> Seq<u8> {
        if t == self.first.type_id {
            self.first.bytes@
        } else if t == self.second.type_id {
            self.second.bytes@
        } else {
            Seq::empty()
        }
    }

    open spec fn spec_layout_types(&self) -> Seq<ComponentTypeIndex> {
        seq![self.first.type_id, self.second.type_id]
    }

    open spec fn spec_layout_metadata(&self) -> Seq<ComponentMetadata> {
        seq![self.first.metadata, self.second.metadata]
    }

    fn filter(&self) -> (f: PairFilter) {
        let f = PairFilter { first: self.first.type_id, second: self.second.type_id };
        proof {
            assert(f.spec_types() =~= self.spec_layout_types().to_set()) by {
                assert(self.spec_layout_types()[0] == self.first.type_id);
                assert(self.spec_layout_types()[1] == self.second.type_id);
                assert forall|t: ComponentTypeIndex|
                    f.spec_types().contains(t) implies self.spec_layout_types().to_set().contains(
                    t,
                ) by {
                    if t == self.first.type_id {
                        assert(self.spec_layout_types().contains(t));
                    } else {
                        assert(self.spec_layout_types().contains(t));
                    }
                }
            }
        }
        f
    }

    fn layout(&self) -> (l: EntityLayout) {
        let mut layout = EntityLayout::new();
        layout.register_component(self.first.type_id, self.first.metadata);
        layout.register_component(self.second.type_id, self.second.metadata);
        proof {
            assert(layout.components@ =~= self.spec_layout_types());
            assert(layout.constructors@ =~= self.spec_layout_metadata());
        }
        layout
    }
}

impl ComponentSource for SingleEntity {
    fn push_components(&mut self, writer: &mut EntityTypeWriter, allocator: &mut EntityAllocator) {
        let ghost src = *self;
        let ghost w0 = *writer;
        let ghost alloc0 = allocator@;
        let ghost a = w0.entity_type_index.id as int;
        let ghost t1 = self.first.type_id;
        let ghost t2 = self.second.type_id;
        proof {
            assert(src.spec_layout_types()[0] == t1);
            assert(src.spec_layout_types()[1] == t2);
            assert(src.spec_layout_types().contains(t1));
            assert(src.spec_layout_types().contains(t2));
            assert(w0.entity_type.layout.spec_contains(t1)) by {
                assert(w0.entity_type.layout.spec_types().contains(t1));
            }
            assert(w0.entity_type.layout.spec_contains(t2)) by {
                assert(w0.entity_type.layout.spec_types().contains(t2));
            }
            assert(declared_size(src.spec_layout_types(), src.spec_layout_metadata(), t1)
                == src.first.metadata.size) by {
                let k = src.spec_layout_types().index_of(t1);
                assert(exists|i: int|
                    0 <= i < src.spec_layout_types().len() && src.spec_layout_types()[i] == t1);
                assert(0 <= k < 2 && src.spec_layout_types()[k] == t1);
                assert(k == 0);
            }
            assert(declared_size(src.spec_layout_types(), src.spec_layout_metadata(), t2)
                == src.second.metadata.size) by {
                let k = src.spec_layout_types().index_of(t2);
                assert(exists|i: int|
                    0 <= i < src.spec_layout_types().len() && src.spec_layout_types()[i] == t2);
                assert(0 <= k < 2 && src.spec_layout_types()[k] == t2);
                assert(k == 1);
            }
        }
        let entity = allocator.allocate();
        writer.push(entity);
        let mut first_writer = writer.claim_components(self.first.type_id);
        proof {
            assert(first_writer.components.spec_elems(a) + 1 <= usize::MAX);
            assert(self.first.bytes@.len() == 1 * first_writer.components.spec_elem_size())
                by (nonlinear_arith)
                requires
                    self.first.bytes@.len() == first_writer.components.spec_elem_size(),
            ;
        }
        first_writer.extend_memcopy(&self.first.bytes, 1);
        writer.release_components(first_writer);
        proof {
            assert(writer.components.components@.contains_key(t2));
            assert(writer.components.components@[t2] == w0.components.components@[t2]);
            assert(!writer.components.claimed@.contains(t2)) by {
                let c = writer.components.claimed@;
                assert(c == Seq::<ComponentTypeIndex>::empty().push(t1));
                if c.contains(t2) {
                    let k = choose|k: int| 0 <= k < c.len() && c[k] == t2;
                    assert(c[k] == t1);
                }
            }
        }
        let mut second_writer = writer.claim_components(self.second.type_id);
        proof {
            assert(second_writer.components.spec_elems(a) + 1 <= usize::MAX);
            assert(self.second.bytes@.len() == 1 * second_writer.components.spec_elem_size())
                by (nonlinear_arith)
                requires
                    self.second.bytes@.len() == second_writer.components.spec_elem_size(),
            ;
        }
        second_writer.extend_memcopy(&self.second.bytes, 1);
        writer.release_components(second_writer);
        proof {
            let minted = alloc0.allocate_run(1);
            assert(minted =~= seq![entity]) by {
                assert(alloc0.allocate_step().1.allocate_run(0) =~= Seq::<Entity>::empty());
            }
            assert(allocator@ == alloc0.allocate_state(1)) by {
                assert(alloc0.allocate_step().1.allocate_state(0) == alloc0.allocate_step().1);
            }
            assert(writer.entity_type.entities@ =~= w0.entity_type.entities@ + minted);
            let m0 = w0.components.components@;
            let m1 = writer.components.components@;
            let s1 = m0[t1];
            let s2 = m0[t2];
            assert(m1 =~= m0.insert(t1, m1[t1]).insert(t2, m1[t2]));
            assert(m1.dom() =~= m0.dom());
            assert forall|t: ComponentTypeIndex| #[trigger]
                w0.entity_type.layout.spec_contains(t) implies {
                let st0 = w0.components.components@[t];
                let st1 = writer.components.components@[t];
                &&& st1.wf()
                &&& st1.metadata == st0.metadata
                &&& st1.indices@ == st0.indices@
                &&& st1.length == st0.length + minted.len()
                &&& st1.spec_bytes(a) == st0.spec_bytes(a) + src.spec_payload(t)
                &&& st1.spec_elems(a) == st0.spec_elems(a) + minted.len()
                &&& OpaqueComponentStorage::same_except(st0, st1, a)
            } by {
                assert(w0.entity_type.layout.spec_types().contains(t));
                assert(src.spec_layout_types().to_set().contains(t));
                assert(src.spec_layout_types().contains(t));
                let k = choose|k: int|
                    0 <= k < src.spec_layout_types().len() && src.spec_layout_types()[k] == t;
                assert(t == t1 || t == t2);
            }
        }
    }
}

impl IntoComponentSource for SingleEntity {
    type Source = SingleEntity;

    open spec fn spec_into(self) -> SingleEntity {
        self
    }

    fn into_source(self) -> (r: SingleEntity) {
        self
    }
}


/// The total number of entities across a sequence of archetypes.
pub open spec fn total_entities(ets: Seq<EntityType>) -> int
    decreases ets.len(),
{
    if ets.len() == 0 {
        0
    } else {
        total_entities(ets.drop_last()) + ets.last().entities@.len()
    }
}

/// Replacing one archetype changes the total by the difference of its
/// entity counts.
pub proof fn lemma_total_entities_update(ets: Seq<EntityType>, i: int, et: EntityType)
    requires
        0 <= i < ets.len(),
    ensures
        total_entities(ets.update(i, et)) == total_entities(ets) - ets[i].entities@.len()
            + et.entities@.len(),
    decreases ets.len(),
{
    let updated = ets.update(i, et);
    if i == ets.len() - 1 {
        assert(updated.drop_last() =~= ets.drop_last());
    } else {
        assert(updated.drop_last() =~= ets.drop_last().update(i, et));
        lemma_total_entities_update(ets.drop_last(), i, et);
    }
}

/// Appending an archetype adds its entity count to the total.
pub proof fn lemma_total_entities_push(ets: Seq<EntityType>, et: EntityType)
    ensures
        total_entities(ets.push(et)) == total_entities(ets) + et.entities@.len(),
{
    assert(ets.push(et).drop_last() =~= ets);
}

/// The total is never negative, and bounds each archetype's entity count.
pub proof fn lemma_total_entities_bound(ets: Seq<EntityType>, i: int)
    requires
        0 <= i < ets.len(),
    ensures
        ets[i].entities@.len() <= total_entities(ets),
    decreases ets.len(),
{
    lemma_total_entities_nonnegative(ets.drop_last());
    if i < ets.len() - 1 {
        assert(ets.drop_last()[i] == ets[i]);
        lemma_total_entities_bound(ets.drop_last(), i);
        lemma_total_entities_nonnegative(ets);
    }
}

/// The total is never negative.
pub proof fn lemma_total_entities_nonnegative(ets: Seq<EntityType>)
    ensures
        total_entities(ets) >= 0,
    decreases ets.len(),
{
    if ets.len() > 0 {
        lemma_total_entities_nonnegative(ets.drop_last());
    }
}

/// The world: owns the entity allocator, the archetypes, the location map
/// and one storage per component type, and keeps them consistent.
#[derive(Debug)]
pub struct World {
    pub entities: EntityLocationMap,
    pub entity_types: Vec<EntityType>,
    pub entity_allocator: EntityAllocator,
    pub components: ComponentMap,
    pub allocation_buffer: Vec<Entity>,
}

impl World {
    /// The live entities and where each lives.
    pub open spec fn spec_locations(self) -> Map<Entity, EntityLocation> {
        self.entities@
    }

    /// Whether `e` is live in this world.
    pub open spec fn spec_contains(self, e: Entity) -> bool {
        self.entities@.contains_key(e)
    }

    /// The number of live entities.
    pub open spec fn spec_len(self) -> int {
        self.entities.spec_len()
    }

    /// Whether `loc` points at an existing row of an existing archetype.
    pub open spec fn valid_location(self, loc: EntityLocation) -> bool {
        &&& 0 <= (loc.type_id.id as int) < self.entity_types@.len()
        &&& (loc.component_id.id as int) < self.entity_types@[loc.type_id.id as int].entities@.len()
    }

    /// The world's invariant.
    ///
    /// - every live entity's location points back at it, and every archetype
    ///   row is a live entity located exactly there;
    /// - archetype `a` sits at position `a` and carries a well-formed
    ///   layout; no two archetypes have the same unordered type set;
    /// - for every type of every archetype's layout there is a storage,
    ///   registered for that archetype, whose array is exactly as long as
    ///   the archetype's entity list and whose element width is the
    ///   layout's; a storage is registered only for archetypes that list its
    ///   type;
    /// - the allocator's recycle queue is empty and every live id lies below
    ///   its high-water mark;
    /// - the number of live entities equals the total over all archetypes.
    pub open spec fn wf(self) -> bool {
        &&& self.entities.wf()
        &&& forall|e: Entity| #[trigger] self.entities@.contains_key(e) ==> {
            let loc = self.entities@[e];
            &&& self.valid_location(loc)
            &&& self.entity_types@[loc.type_id.id as int].entities@[loc.component_id.id as int]
                == e
        }
        &&& forall|a: int, r: int|
            0 <= a < self.entity_types@.len() && 0 <= r < self.entity_types@[a].entities@.len()
                ==> {
                let e = #[trigger] self.entity_types@[a].entities@[r];
                &&& self.entities@.contains_key(e)
                &&& self.entities@[e] == (EntityLocation {
                    type_id: EntityTypeIndex { id: a as usize },
                    component_id: ComponentIndex { id: r as usize },
                })
            }
        &&& forall|a: int|
            0 <= a < self.entity_types@.len() ==> {
                let et = #[trigger] self.entity_types@[a];
                &&& et.index.id == a
                &&& et.layout.wf()
            }
        &&& forall|a1: int, a2: int|
            0 <= a1 < a2 < self.entity_types@.len() ==> (#[trigger] self.entity_types@[a1]).layout.spec_types()
                != (#[trigger] self.entity_types@[a2]).layout.spec_types()
        &&& self.components.wf()
        &&& forall|a: int, t: ComponentTypeIndex|
            0 <= a < self.entity_types@.len() && #[trigger] self.entity_types@[a].layout.spec_contains(
                t,
            ) ==> {
                let st = self.components@[t];
                &&& self.components@.contains_key(t)
                &&& st.spec_registered(a)
                &&& st.spec_elems(a) == self.entity_types@[a].entities@.len()
                &&& st.metadata == self.entity_types@[a].layout.spec_metadata_of(t)
            }
        &&& forall|t: ComponentTypeIndex| #[trigger] self.components@.contains_key(t) ==> {
            let st = self.components@[t];
            &&& st.indices@.len() <= self.entity_types@.len()
            &&& forall|a: int| #[trigger] st.spec_registered(a)
                ==> self.entity_types@[a].layout.spec_contains(t)
        }
        &&& self.entity_allocator@.wf()
        &&& self.entity_allocator@.available.len() == 0
        &&& forall|e: Entity| #[trigger] self.entities@.contains_key(e) ==> (e.0 as int)
            < self.entity_allocator@.max_id
        &&& self.entities.spec_len() == total_entities(self.entity_types@)
    }

    /// A fresh, empty world.
    pub fn new() -> (r: World)
        ensures
            r.wf(),
            r.spec_len() == 0,
            r.spec_locations() == Map::<Entity, EntityLocation>::empty(),
            r.entity_types@ == Seq::<EntityType>::empty(),
            r.components@ == Map::<ComponentTypeIndex, OpaqueComponentStorage>::empty(),
            r.entity_allocator@.max_id == 0,
            r.entity_allocator@.available == Seq::<Entity>::empty(),
            r.allocation_buffer@ == Seq::<Entity>::empty(),
    {
        World {
            entities: EntityLocationMap::new(),
            entity_types: Vec::new(),
            entity_allocator: EntityAllocator::new(),
            components: ComponentMap::new(),
            allocation_buffer: Vec::new(),
        }
    }

    /// The number of live entities.
    pub fn len(&self) -> (r: usize)
        ensures
            r == self.spec_len(),
    {
        self.entities.len()
    }

    /// Whether no entity is live.
    pub fn is_empty(&self) -> (r: bool)
        ensures
            r == (self.spec_len() == 0),
    {
        self.entities.is_empty()
    }

    /// Whether `entity` is live in this world.
    pub fn contains(&self, entity: Entity) -> (r: bool)
        ensures
            r == self.spec_contains(entity),
    {
        self.entities.contains(entity)
    }

    /// Whether a storage exists for `component_type`, that is, whether a
    /// component of that type was ever inserted.
    pub fn contains_component(&self, component_type: ComponentTypeIndex) -> (r: bool)
        ensures
            r == self.components@.contains_key(component_type),
    {
        self.components.contains_component(component_type)
    }

    /// Whether `entity` is live and its archetype's layout lists
    /// `component_type`.
    pub fn has_component(&self, component_type: ComponentTypeIndex, entity: Entity) -> (r: bool)
        requires
            self.wf(),
        ensures
            r == (self.spec_contains(entity) && self.entity_types@[self.spec_locations()[entity].type_id.id as int].layout.spec_contains(
                component_type,
            )),
    {
        match self.entities.get(entity) {
            Some(location) => {
                let entity_type = &self.entity_types[location.entity_type().id()];
                entity_type.contains_component(component_type)
            },
            None => false,
        }
    }

    /// The component storages.
    pub fn components(&self) -> (r: &ComponentMap)
        ensures
            r == &self.components,
    {
        &self.components
    }

    /// Exclusive access to the component storages.
    pub fn components_mut(&mut self) -> (r: &mut ComponentMap)
        ensures
            *r == old(self).components,
            final(self).components == *final(r),
            final(self).entities == old(self).entities,
            final(self).entity_types == old(self).entity_types,
            final(self).entity_allocator == old(self).entity_allocator,
            final(self).allocation_buffer == old(self).allocation_buffer,
    {
        &mut self.components
    }

    /// The archetypes, in creation order.
    pub fn entity_types(&self) -> (r: &Vec<EntityType>)
        ensures
            r == &self.entity_types,
    {
        &self.entity_types
    }
}


/// How the storage bound to `t` changes when archetype `a` is registered
/// for it: a fresh empty array at `a`, everything else untouched; a storage
/// that did not exist before starts empty with metadata `meta`.
pub open spec fn registered_extension(
    pre: Map<ComponentTypeIndex, OpaqueComponentStorage>,
    post: Map<ComponentTypeIndex, OpaqueComponentStorage>,
    t: ComponentTypeIndex,
    a: int,
    meta: ComponentMetadata,
) -> bool {
    &&& post.contains_key(t)
    &&& {
        let st1 = post[t];
        &&& st1.wf()
        &&& st1.spec_registered(a)
        &&& st1.spec_elems(a) == 0
        &&& st1.spec_bytes(a) == Seq::<u8>::empty()
        &&& st1.indices@.len() == a + 1
        &&& if pre.contains_key(t) {
            let st0 = pre[t];
            &&& st1.metadata == st0.metadata
            &&& st1.length == st0.length
            &&& forall|b: int|
                b != a ==> (#[trigger] st1.spec_registered(b) == st0.spec_registered(b)) && (
                st0.spec_registered(b) ==> st1.spec_bytes(b) == st0.spec_bytes(b)
                    && st1.spec_elems(b) == st0.spec_elems(b))
        } else {
            &&& st1.metadata == meta
            &&& st1.length == 0
            &&& forall|b: int| b != a ==> !(#[trigger] st1.spec_registered(b))
        }
    }
}

impl World {
    /// Whether every storage the world already has for one of `types`
    /// carries exactly the metadata declared for it in `metas`.
    pub open spec fn metadata_consistent(
        self,
        types: Seq<ComponentTypeIndex>,
        metas: Seq<ComponentMetadata>,
    ) -> bool {
        forall|i: int|
            0 <= i < types.len() && self.components@.contains_key(#[trigger] types[i])
                ==> self.components@[types[i]].metadata == metas[i]
    }

    /// Create a new archetype for `layout`, whose component-type set must be
    /// new to this world, and register it with the storage of every type the
    /// layout lists, creating missing storages.
    #[verifier::rlimit(100)]
    #[verifier::spinoff_prover]
    fn insert_entity_type(&mut self, layout: EntityLayout) -> (r: EntityTypeIndex)
        requires
            old(self).wf(),
            layout.wf(),
            forall|a: int|
                0 <= a < old(self).entity_types@.len() ==> (#[trigger] old(self).entity_types@[a]).layout.spec_types() != layout.spec_types(),
            old(self).entity_types@.len() < usize::MAX,
            old(self).metadata_consistent(layout.components@, layout.constructors@),
        ensures
            final(self).wf(),
            r.id == old(self).entity_types@.len(),
            final(self).entity_types@.len() == old(self).entity_types@.len() + 1,
            forall|a: int|
                0 <= a < old(self).entity_types@.len() ==> final(self).entity_types@[a] == old(self).entity_types@[a],
            final(self).entity_types@[r.id as int].index == r,
            final(self).entity_types@[r.id as int].entities@ == Seq::<Entity>::empty(),
            final(self).entity_types@[r.id as int].layout == layout,
            final(self).entities == old(self).entities,
            final(self).entity_allocator == old(self).entity_allocator,
            final(self).allocation_buffer == old(self).allocation_buffer,
            forall|t: ComponentTypeIndex|
                #[trigger] layout.spec_contains(t) ==> registered_extension(
                    old(self).components@,
                    final(self).components@,
                    t,
                    r.id as int,
                    layout.spec_metadata_of(t),
                ),
            forall|t: ComponentTypeIndex|
                !layout.spec_contains(t) ==> (#[trigger] final(self).components@.contains_key(t)
                    == old(self).components@.contains_key(t)) && (old(self).components@.contains_key(t) ==> final(self).components@[t] == old(self).components@[t]),
    {
        let ghost pre = *self;
        let idx_id = self.entity_types.len();
        let entity_type_index = EntityTypeIndex::new(idx_id);
        let ghost a = idx_id as int;
        self.entity_types.push(EntityType::new(entity_type_index, layout));
        let ghost types = self.entity_types@[a].layout.components@;
        let ghost metas = self.entity_types@[a].layout.constructors@;
        let n = self.entity_types[idx_id].layout.components.len();
        let mut i: usize = 0;
        while i < n
            invariant
                0 <= i <= n,
                a == idx_id as int,
                idx_id < usize::MAX,
                entity_type_index.id == idx_id,
                self.entity_types@[a].layout == layout,
                self.entity_types@.len() == pre.entity_types@.len() + 1,
                a == pre.entity_types@.len(),
                self.entity_types@ == pre.entity_types@.push(self.entity_types@[a]),
                self.entity_types@[a].index.id == idx_id,
                self.entity_types@[a].entities@ == Seq::<Entity>::empty(),
                self.entity_types@[a].layout.wf(),
                types == self.entity_types@[a].layout.components@,
                metas == self.entity_types@[a].layout.constructors@,
                n == types.len(),
                types.len() == metas.len(),
                self.entities == pre.entities,
                self.entity_allocator == pre.entity_allocator,
                self.allocation_buffer == pre.allocation_buffer,
                self.components.wf(),
                pre.wf(),
                pre.metadata_consistent(types, metas),
                forall|k: int|
                    0 <= k < i ==> registered_extension(
                        pre.components@,
                        self.components@,
                        #[trigger] types[k],
                        a,
                        metas[k],
                    ),
                forall|t: ComponentTypeIndex|
                    !types.subrange(0, i as int).contains(t) ==> (#[trigger] self.components@.contains_key(
                        t,
                    ) == pre.components@.contains_key(t)) && (pre.components@.contains_key(t)
                        ==> self.components@[t] == pre.components@[t]),
            decreases n - i,
        {
            let t = self.entity_types[idx_id].layout.components[i];
            let meta = self.entity_types[idx_id].layout.constructors[i];
            let ghost mid = *self;
            proof {
                assert(!types.subrange(0, i as int).contains(t)) by {
                    if types.subrange(0, i as int).contains(t) {
                        let k = choose|k: int|
                            0 <= k < i && types.subrange(0, i as int)[k] == t;
                        assert(types[k] == types[i as int]);
                    }
                }
                assert(self.components@.contains_key(t) == pre.components@.contains_key(t));
                if pre.components@.contains_key(t) {
                    assert(self.components@[t] == pre.components@[t]);
                    assert(types.contains(t));
                    assert(pre.components@[t].metadata == metas[i as int]) by {
                        assert(types[i as int] == t);
                    }
                    assert(pre.components@[t].indices@.len() <= pre.entity_types@.len());
                }
            }
            let storage = self.components.get_or_insert_with(t, meta);
            proof {
                assert(!storage.spec_registered(a)) by {
                    if mid.components@.contains_key(t) {
                        assert(storage.indices@.len() <= a);
                    }
                }
            }
            storage.insert_entity_type(entity_type_index);
            proof {
                let stf = *storage;
                assert(self.components@ == mid.components@.insert(t, stf));
                assert(registered_extension(pre.components@, self.components@, types[i as int], a, metas[i as int]));
                assert forall|k: int|
                    0 <= k < i + 1 implies registered_extension(
                        pre.components@,
                        self.components@,
                        #[trigger] types[k],
                        a,
                        metas[k],
                    ) by {
                    if k < i as int {
                        assert(types[k] != t);
                        assert(self.components@[types[k]] == mid.components@[types[k]]);
                        assert(registered_extension(
                            pre.components@,
                            mid.components@,
                            types[k],
                            a,
                            metas[k],
                        ));
                    }
                }
                assert(types.subrange(0, i as int) == types.subrange(0, i + 1).drop_last());
                assert forall|u: ComponentTypeIndex|
                    !types.subrange(0, i + 1).contains(u) implies (#[trigger] self.components@.contains_key(
                    u,
                ) == pre.components@.contains_key(u)) && (pre.components@.contains_key(u)
                    ==> self.components@[u] == pre.components@[u]) by {
                    assert(u != t) by {
                        assert(types.subrange(0, i + 1)[i as int] == t);
                    }
                    assert(!types.subrange(0, i as int).contains(u));
                    assert(mid.components@.contains_key(u) == pre.components@.contains_key(u));
                    assert(self.components@.contains_key(u) == mid.components@.contains_key(u));
                    if pre.components@.contains_key(u) {
                        assert(mid.components@[u] == pre.components@[u]);
                        assert(self.components@[u] == mid.components@[u]);
                    }
                }
            }
            i = i + 1;
        }
        proof {
            assert(types.subrange(0, n as int) == types);
            let w = *self;
            lemma_total_entities_push(pre.entity_types@, self.entity_types@[a]);
            assert forall|t: ComponentTypeIndex|
                !layout.spec_contains(t) implies (#[trigger] self.components@.contains_key(t)
                == pre.components@.contains_key(t)) && (pre.components@.contains_key(t)
                ==> self.components@[t] == pre.components@[t]) by {
                assert(types == layout.components@);
                assert(!types.contains(t));
                assert(!types.subrange(0, n as int).contains(t));
            }
            // every listed type is covered by the prefix invariant at i == n
            assert forall|t: ComponentTypeIndex|
                #[trigger] self.entity_types@[a].layout.spec_contains(t) implies registered_extension(
                pre.components@,
                self.components@,
                t,
                a,
                self.entity_types@[a].layout.spec_metadata_of(t),
            ) by {
                let k = types.index_of(t);
                assert(exists|j: int| 0 <= j < types.len() && types[j] == t);
                assert(0 <= k < types.len() && types[k] == t);
                assert(metas[k] == self.entity_types@[a].layout.spec_metadata_of(t));
            }
            assert(w.wf()) by {
                assert forall|e: Entity| #[trigger] w.entities@.contains_key(e) implies {
                    let loc = w.entities@[e];
                    &&& w.valid_location(loc)
                    &&& w.entity_types@[loc.type_id.id as int].entities@[loc.component_id.id as int]
                        == e
                } by {
                    let loc = pre.entities@[e];
                    assert(pre.valid_location(loc));
                    assert(w.entity_types@[loc.type_id.id as int] == pre.entity_types@[loc.type_id.id as int]);
                }
                assert forall|b: int, r2: int|
                    0 <= b < w.entity_types@.len() && 0 <= r2 < w.entity_types@[b].entities@.len()
                        implies {
                    let e = #[trigger] w.entity_types@[b].entities@[r2];
                    &&& w.entities@.contains_key(e)
                    &&& w.entities@[e] == (EntityLocation {
                        type_id: EntityTypeIndex { id: b as usize },
                        component_id: ComponentIndex { id: r2 as usize },
                    })
                } by {
                    assert(b != a);
                    assert(w.entity_types@[b] == pre.entity_types@[b]);
                    assert(pre.entity_types@[b].entities@[r2] == w.entity_types@[b].entities@[r2]);
                }
                assert forall|b: int, t: ComponentTypeIndex|
                    0 <= b < w.entity_types@.len() && #[trigger] w.entity_types@[b].layout.spec_contains(
                        t,
                    ) implies {
                    let st = w.components@[t];
                    &&& w.components@.contains_key(t)
                    &&& st.spec_registered(b)
                    &&& st.spec_elems(b) == w.entity_types@[b].entities@.len()
                    &&& st.metadata == w.entity_types@[b].layout.spec_metadata_of(t)
                } by {
                    if b == a {
                        assert(registered_extension(
                            pre.components@,
                            w.components@,
                            t,
                            a,
                            w.entity_types@[a].layout.spec_metadata_of(t),
                        ));
                        if pre.components@.contains_key(t) {
                            assert(types.contains(t));
                            let k = types.index_of(t);
                            assert(exists|j: int| 0 <= j < types.len() && types[j] == t);
                            assert(0 <= k < types.len() && types[k] == t);
                            assert(pre.components@[t].metadata == metas[k]);
                        }
                    } else {
                        assert(w.entity_types@[b] == pre.entity_types@[b]);
                        assert(pre.entity_types@[b].layout.spec_contains(t));
                        assert(pre.components@.contains_key(t));
                        if w.entity_types@[a].layout.spec_contains(t) {
                            assert(registered_extension(
                                pre.components@,
                                w.components@,
                                t,
                                a,
                                w.entity_types@[a].layout.spec_metadata_of(t),
                            ));
                            assert(w.components@[t].spec_registered(b) == pre.components@[t].spec_registered(b));
                        } else {
                            assert(!types.contains(t));
                            assert(!types.subrange(0, n as int).contains(t));
                            assert(w.components@.contains_key(t) == pre.components@.contains_key(
                                t,
                            ));
                            assert(w.components@[t] == pre.components@[t]);
                        }
                    }
                }
                assert forall|t: ComponentTypeIndex| #[trigger]
                    w.components@.contains_key(t) implies {
                    let st = w.components@[t];
                    &&& st.indices@.len() <= w.entity_types@.len()
                    &&& forall|b: int| #[trigger] st.spec_registered(b)
                        ==> w.entity_types@[b].layout.spec_contains(t)
                } by {
                    if types.contains(t) {
                        let k = types.index_of(t);
                        assert(exists|j: int| 0 <= j < types.len() && types[j] == t);
                        assert(0 <= k < types.len() && types[k] == t);
                        assert(registered_extension(pre.components@, w.components@, t, a, metas[k]));
                        let st = w.components@[t];
                        assert(st.indices@.len() == a + 1);
                        assert forall|b: int| #[trigger] st.spec_registered(b)
                            implies w.entity_types@[b].layout.spec_contains(t) by {
                            if b == a {
                                assert(w.entity_types@[a].layout.spec_contains(t));
                            } else {
                                if pre.components@.contains_key(t) {
                                    assert(pre.components@[t].spec_registered(b));
                                    assert(pre.entity_types@[b].layout.spec_contains(t));
                                    assert(0 <= b < pre.entity_types@.len());
                                    assert(w.entity_types@[b] == pre.entity_types@[b]);
                                }
                            }
                        }
                    } else {
                        assert(w.components@.contains_key(t) == pre.components@.contains_key(t));
                        assert(w.components@[t] == pre.components@[t]);
                        assert(pre.components@.contains_key(t));
                        let st = w.components@[t];
                        assert forall|b: int| #[trigger] st.spec_registered(b)
                            implies w.entity_types@[b].layout.spec_contains(t) by {
                            assert(pre.entity_types@[b].layout.spec_contains(t));
                            assert(0 <= b < pre.entity_types@.len());
                            assert(w.entity_types@[b] == pre.entity_types@[b]);
                        }
                    }
                }
            }
        }
        entity_type_index
    }
}


impl World {
    /// The archetype whose component-type set is exactly that of `source`,
    /// creating it (and any missing storages) if no archetype has that set
    /// yet.
    fn get_entity_type_for_components<T: EntityTypeSource>(&mut self, source: &T) -> (r:
        EntityTypeIndex)
        requires
            old(self).wf(),
            source.spec_wf(),
            old(self).entity_types@.len() < usize::MAX,
            old(self).metadata_consistent(
                source.spec_layout_types(),
                source.spec_layout_metadata(),
            ),
        ensures
            final(self).wf(),
            (r.id as int) < final(self).entity_types@.len(),
            final(self).entity_types@[r.id as int].layout.spec_types()
                == source.spec_layout_types().to_set(),
            final(self).entities == old(self).entities,
            final(self).entity_allocator == old(self).entity_allocator,
            final(self).allocation_buffer == old(self).allocation_buffer,
            final(self).spec_len() == old(self).spec_len(),
            old(self).entity_types@.len() <= final(self).entity_types@.len() <= old(self).entity_types@.len() + 1,
            forall|a: int|
                0 <= a < old(self).entity_types@.len() ==> final(self).entity_types@[a] == old(self).entity_types@[a],
            final(self).entity_types@.len() == old(self).entity_types@.len() ==> *final(self)
                == *old(self),
            final(self).entity_types@.len() == old(self).entity_types@.len() + 1 ==> {
                &&& r.id == old(self).entity_types@.len()
                &&& forall|a: int|
                    0 <= a < old(self).entity_types@.len() ==> (#[trigger] old(self).entity_types@[a]).layout.spec_types() != source.spec_layout_types().to_set()
                &&& forall|t: ComponentTypeIndex|
                    #[trigger] final(self).entity_types@[r.id as int].layout.spec_contains(t)
                        ==> registered_extension(
                        old(self).components@,
                        final(self).components@,
                        t,
                        r.id as int,
                        final(self).entity_types@[r.id as int].layout.spec_metadata_of(t),
                    )
                &&& final(self).entity_types@[r.id as int].entities@ == Seq::<Entity>::empty()
                &&& forall|t: ComponentTypeIndex|
                    !final(self).entity_types@[r.id as int].layout.spec_contains(t) ==> (
                    #[trigger] final(self).components@.contains_key(t) == old(self).components@.contains_key(t)) && (old(self).components@.contains_key(t)
                        ==> final(self).components@[t] == old(self).components@[t])
            },
            forall|t: ComponentTypeIndex|
                old(self).components@.contains_key(t) ==> #[trigger] final(self).components@.contains_key(t) && final(self).components@[t].length == old(self).components@[t].length,
            forall|i: int|
                0 <= i < source.spec_layout_types().len() ==> {
                    let t = #[trigger] source.spec_layout_types()[i];
                    &&& final(self).components@.contains_key(t)
                    &&& final(self).components@[t].metadata == source.spec_layout_metadata()[i]
                },
    {
        let ghost pre = *self;
        let filter = source.filter();
        let mut i: usize = 0;
        while i < self.entity_types.len()
            invariant
                *self == pre,
                pre.wf(),
                pre.metadata_consistent(source.spec_layout_types(), source.spec_layout_metadata()),
                0 <= i <= self.entity_types@.len(),
                filter.spec_types() == source.spec_layout_types().to_set(),
                forall|a: int|
                    0 <= a < i ==> (#[trigger] self.entity_types@[a]).layout.spec_types()
                        != source.spec_layout_types().to_set(),
            decreases self.entity_types@.len() - i,
        {
            let matched = filter.matches_layout(self.entity_types[i].layout().component_types());
            if matched {
                proof {
                    assert(self.entity_types@[i as int].layout.components@.to_set()
                        == source.spec_layout_types().to_set());
                    assert(self.entity_types@[i as int].index.id == i);
                    // found: world wf gives the archetype's types their storages,
                    // and metadata consistency pins their declared widths
                    assert forall|k: int|
                        0 <= k < source.spec_layout_types().len() implies {
                        let t = #[trigger] source.spec_layout_types()[k];
                        &&& self.components@.contains_key(t)
                        &&& self.components@[t].metadata == source.spec_layout_metadata()[k]
                    } by {
                        let t = source.spec_layout_types()[k];
                        assert(source.spec_layout_types().contains(t));
                        assert(source.spec_layout_types().to_set().contains(t));
                        assert(self.entity_types@[i as int].layout.components@.to_set().contains(
                            t,
                        ));
                        assert(self.entity_types@[i as int].layout.spec_contains(t));
                        assert(self.components@.contains_key(t));
                        assert(pre.components@.contains_key(t));
                        assert(pre.metadata_consistent(
                            source.spec_layout_types(),
                            source.spec_layout_metadata(),
                        ));
                        assert(pre.components@[t].metadata == source.spec_layout_metadata()[k]);
                    }
                }
                return EntityTypeIndex::new(i);
            }
            i = i + 1;
        }
        let layout = source.layout();
        proof {
            assert forall|a: int|
                0 <= a < self.entity_types@.len() implies (#[trigger] self.entity_types@[a]).layout.spec_types()
                != layout.spec_types() by {
                assert(layout.spec_types() == source.spec_layout_types().to_set()) by {
                    assert(layout.components@ == source.spec_layout_types());
                }
            }
        }
        let r = self.insert_entity_type(layout);
        proof {
            assert(self.entity_types@[r.id as int].layout == layout);
            assert(layout.spec_types() == source.spec_layout_types().to_set()) by {
                assert(layout.components@ == source.spec_layout_types());
            }
            assert forall|k: int|
                0 <= k < source.spec_layout_types().len() implies {
                let t = #[trigger] source.spec_layout_types()[k];
                &&& self.components@.contains_key(t)
                &&& self.components@[t].metadata == source.spec_layout_metadata()[k]
            } by {
                let t = source.spec_layout_types()[k];
                assert(layout.components@[k] == t);
                assert(layout.spec_contains(t));
                assert(registered_extension(
                    pre.components@,
                    self.components@,
                    t,
                    r.id as int,
                    layout.spec_metadata_of(t),
                ));
                assert(layout.spec_metadata_of(t) == source.spec_layout_metadata()[k]) by {
                    let j = layout.components@.index_of(t);
                    assert(exists|m: int|
                        0 <= m < layout.components@.len() && layout.components@[m] == t);
                    assert(0 <= j < layout.components@.len() && layout.components@[j] == t);
                    if j != k {
                        assert(layout.components@[j] != layout.components@[k] || j == k);
                    }
                    assert(j == k);
                }
                if pre.components@.contains_key(t) {
                    assert(pre.components@[t].metadata == source.spec_layout_metadata()[k]);
                }
            }
            assert forall|t: ComponentTypeIndex|
                pre.components@.contains_key(t) implies #[trigger] self.components@.contains_key(t)
                && self.components@[t].length == pre.components@[t].length by {
                if layout.spec_contains(t) {
                    assert(registered_extension(
                        pre.components@,
                        self.components@,
                        t,
                        r.id as int,
                        layout.spec_metadata_of(t),
                    ));
                }
            }
        }
        r
    }
}


impl World {
    /// The full effect of `extend_out`: `rows` fresh consecutive handles are
    /// minted and appended (as rows and as locations) to the archetype whose
    /// type set is the source's, each of the source's payloads is appended to
    /// that archetype's array in the matching storage, the new handles are
    /// appended to the output buffer, and nothing else changes.
    pub open spec fn extend_effect<S: EntityTypeSource>(
        w0: World,
        w1: World,
        src: S,
        out0: Seq<Entity>,
        out1: Seq<Entity>,
    ) -> bool {
        let rows = src.spec_rows() as int;
        let minted = w0.entity_allocator@.allocate_run(src.spec_rows());
        let tgt = w0.archetype_matching(src.spec_layout_types().to_set());
                &&& out1 == out0 + minted
                &&& minted.len() == rows
                &&& forall|k: int|
                    0 <= k < rows ==> (#[trigger] minted[k]).0 == w0.entity_allocator@.max_id + k
                &&& w1.entity_allocator@ == w0.entity_allocator@.allocate_state(
                    src.spec_rows(),
                )
                &&& w1.spec_len() == w0.spec_len() + rows
                &&& forall|e: Entity|
                    w0.spec_contains(e) ==> #[trigger] w1.spec_contains(e)
                        && w1.spec_locations()[e] == w0.spec_locations()[e]
                &&& forall|k: int| 0 <= k < rows ==> w1.spec_contains(#[trigger] minted[k])
                &&& forall|k: int|
                    0 <= k < rows ==> !w0.spec_contains(#[trigger] minted[k])
                &&& forall|e: Entity|
                    #[trigger] w1.spec_contains(e) ==> w0.spec_contains(e)
                        || minted.contains(e)
                &&& 0 <= tgt < w1.entity_types@.len()
                &&& forall|k: int|
                    0 <= k < rows ==> #[trigger] w1.spec_locations()[minted[k]] == (
                    EntityLocation {
                        type_id: EntityTypeIndex { id: tgt as usize },
                        component_id: ComponentIndex {
                            id: ((if tgt < w0.entity_types@.len() {
                                w0.entity_types@[tgt].entities@.len() as int
                            } else {
                                0int
                            }) + k) as usize,
                        },
                    })
                &&& w1.entity_types@[tgt].layout.spec_types()
                    == src.spec_layout_types().to_set()
                &&& w1.entity_types@[tgt].entities@ == (
                if tgt < w0.entity_types@.len() {
                    w0.entity_types@[tgt].entities@
                } else {
                    Seq::<Entity>::empty()
                }) + minted
                &&& forall|a: int|
                    0 <= a < w1.entity_types@.len() && a != tgt
                        ==> #[trigger] w1.entity_types@[a] == w0.entity_types@[a]
                &&& w0.entity_types@.len() <= w1.entity_types@.len() <= w0.entity_types@.len() + 1
                &&& forall|i: int|
                    0 <= i < src.spec_layout_types().len() ==> {
                        let t = #[trigger] src.spec_layout_types()[i];
                        &&& w1.components@.contains_key(t)
                        &&& w1.components@[t].spec_bytes(tgt) == (
                        if tgt < w0.entity_types@.len() {
                            w0.components@[t].spec_bytes(tgt)
                        } else {
                            Seq::<u8>::empty()
                        }) + src.spec_payload(t)
                    }
                &&& forall|t: ComponentTypeIndex|
                    !src.spec_layout_types().to_set().contains(t) ==> (#[trigger] w1.components@.contains_key(t) == w0.components@.contains_key(t)) && (w0.components@.contains_key(t) ==> w1.components@[t] == w0.components@[t])
                &&& w1.allocation_buffer == w0.allocation_buffer
    }
}

impl World {
    /// The index of the archetype whose component-type set is `types`, or
    /// the index one past the end if no archetype has that set yet. Under
    /// the invariant that no two archetypes share a set, this is the
    /// archetype `extend` fills.
    pub open spec fn archetype_matching(self, types: Set<ComponentTypeIndex>) -> int {
        if exists|a: int|
            0 <= a < self.entity_types@.len() && (#[trigger] self.entity_types@[a]).layout.spec_types()
                == types {
            choose|a: int|
                0 <= a < self.entity_types@.len()
                    && (#[trigger] self.entity_types@[a]).layout.spec_types() == types
        } else {
            self.entity_types@.len() as int
        }
    }

    /// Whether the world can absorb `src`'s batch: ids, row counts and
    /// element counts stay within machine limits, and every storage the
    /// world already has for one of `src`'s types carries the declared
    /// metadata.
    pub open spec fn can_extend<S: EntityTypeSource>(self, src: S) -> bool {
        let rows = src.spec_rows();
        &&& src.spec_layout_types().no_duplicates()
        &&& src.spec_layout_types().len() == src.spec_layout_metadata().len()
        &&& self.entity_allocator@.max_id + rows <= u64::MAX
        &&& self.spec_len() + rows <= usize::MAX
        &&& self.entity_types@.len() < usize::MAX
        &&& forall|a: int|
            0 <= a < self.entity_types@.len() ==> (#[trigger] self.entity_types@[a]).entities@.len()
                + rows <= usize::MAX
        &&& forall|i: int|
            0 <= i < src.spec_layout_types().len() && self.components@.contains_key(
                #[trigger] src.spec_layout_types()[i],
            ) ==> self.components@[src.spec_layout_types()[i]].length + rows <= usize::MAX
        &&& self.metadata_consistent(src.spec_layout_types(), src.spec_layout_metadata())
    }

    /// Insert `component_source`'s batch of entities: resolve or create the
    /// archetype for its component-type set, mint one entity per row, append
    /// rows and payloads, record every new entity's location, and append the
    /// new entities to `out`.
    #[verifier::rlimit(100)]
    #[verifier::spinoff_prover]
    pub fn extend_out<Src: IntoComponentSource>(
        &mut self,
        component_source: Src,
        out: &mut Vec<Entity>,
    )
        requires
            old(self).wf(),
            component_source.spec_into().spec_wf(),
            old(self).can_extend(component_source.spec_into()),
        ensures
            final(self).wf(),
            World::extend_effect(
                *old(self),
                *final(self),
                component_source.spec_into(),
                old(out)@,
                final(out)@,
            ),
    {
        let ghost w0 = *self;
        let ghost src = component_source.spec_into();
        let ghost rows = src.spec_rows();
        let ghost minted = w0.entity_allocator@.allocate_run(rows);
        let mut source = component_source.into_source();
        let entity_type_index = self.get_entity_type_for_components(&source);
        let idx = entity_type_index.id();
        let ghost w1 = *self;
        let ghost tgt = idx as int;
        proof {
            lemma_allocate_run_sequential(w0.entity_allocator@, rows);
            // the index the lookup returned is the one `archetype_matching`
            // names
            assert(w0.archetype_matching(src.spec_layout_types().to_set()) == tgt) by {
                let types = src.spec_layout_types().to_set();
                if w1.entity_types@.len() == w0.entity_types@.len() {
                    assert(*self == w0);
                    assert(w0.entity_types@[tgt].layout.spec_types() == types);
                    assert(exists|a: int|
                        0 <= a < w0.entity_types@.len()
                            && (#[trigger] w0.entity_types@[a]).layout.spec_types() == types);
                    let a = choose|a: int|
                        0 <= a < w0.entity_types@.len()
                            && (#[trigger] w0.entity_types@[a]).layout.spec_types() == types;
                    if a < tgt {
                        assert(w0.entity_types@[a].layout.spec_types()
                            != w0.entity_types@[tgt].layout.spec_types());
                    } else if a > tgt {
                        assert(w0.entity_types@[tgt].layout.spec_types()
                            != w0.entity_types@[a].layout.spec_types());
                    }
                } else {
                    assert(tgt == w0.entity_types@.len());
                    if exists|a: int|
                        0 <= a < w0.entity_types@.len()
                            && (#[trigger] w0.entity_types@[a]).layout.spec_types() == types {
                        let a = choose|a: int|
                            0 <= a < w0.entity_types@.len()
                                && (#[trigger] w0.entity_types@[a]).layout.spec_types() == types;
                        assert(w0.entity_types@[a].layout.spec_types() != types);
                    }
                }
            }
        }
        // hand the target archetype and the component map to the writer for
        // the duration of the batch; empty stand-ins take their slots
        let mut taken = EntityType::new(entity_type_index, EntityLayout::new());
        self.entity_types.set_and_swap(idx, &mut taken);
        let mut component_map = ComponentMap::new();
        core::mem::swap(&mut self.components, &mut component_map);
        let mut writer = EntityTypeWriter::new(
            entity_type_index,
            taken,
            component_map.get_multi_view_mut(),
        );
        let ghost wr0 = writer;
        proof {
            // the writer, the allocator and the source satisfy the batch
            // precondition
            assert(writer_batch_pre(src, wr0, self.entity_allocator@)) by {
                assert(wr0.entity_type == w1.entity_types@[tgt]);
                assert forall|t: ComponentTypeIndex|
                    #[trigger] wr0.entity_type.layout.spec_contains(t) implies {
                    let st = wr0.components.components@[t];
                    &&& wr0.components.components@.contains_key(t)
                    &&& st.wf()
                    &&& st.spec_registered(tgt)
                    &&& st.spec_elem_size() == declared_size(
                        src.spec_layout_types(),
                        src.spec_layout_metadata(),
                        t,
                    )
                    &&& st.spec_elems(tgt) + rows <= usize::MAX
                    &&& st.length + rows <= usize::MAX
                } by {
                    assert(w1.entity_types@[tgt].layout.spec_contains(t));
                    let st = w1.components@[t];
                    assert(w1.components@.contains_key(t));
                    assert(st.spec_registered(tgt));
                    assert(st.spec_elems(tgt) == w1.entity_types@[tgt].entities@.len());
                    // the declared width: t appears in the source's type list
                    assert(w1.entity_types@[tgt].layout.spec_types().contains(t));
                    assert(src.spec_layout_types().to_set().contains(t));
                    assert(src.spec_layout_types().contains(t));
                    let i = src.spec_layout_types().index_of(t);
                    assert(exists|j: int|
                        0 <= j < src.spec_layout_types().len() && src.spec_layout_types()[j] == t);
                    assert(0 <= i < src.spec_layout_types().len() && src.spec_layout_types()[i]
                        == t);
                    assert(st.metadata == src.spec_layout_metadata()[i]);
                    // element counts stay in range
                    if tgt < w0.entity_types@.len() {
                        assert(w1.entity_types@[tgt] == w0.entity_types@[tgt]);
                        assert(w0.entity_types@[tgt].entities@.len() + rows <= usize::MAX);
                    }
                    if w0.components@.contains_key(t) {
                        assert(w0.components@[t].length + rows <= usize::MAX);
                        assert(st.length == w0.components@[t].length);
                    } else {
                        assert(w1.entity_types@.len() == w0.entity_types@.len() + 1);
                        assert(st.length == 0);
                    }
                }
                if tgt < w0.entity_types@.len() {
                    assert(w1.entity_types@[tgt] == w0.entity_types@[tgt]);
                    assert(w0.entity_types@[tgt].entities@.len() + rows <= usize::MAX);
                }
            }
        }
        source.push_components(&mut writer, &mut self.entity_allocator);
        proof {
            assert(writer.initial_count <= writer.entity_type.entities@.len()) by {
                assert(writer_batch_post(src, wr0, writer, minted));
            }
        }
        let (base, new_entities) = writer.inserted();
        // the batch is done: put the filled archetype and the map back
        let (filled, component_map_back) = writer.into_parts();
        let mut filled_swap = filled;
        self.entity_types.set_and_swap(idx, &mut filled_swap);
        let mut component_map_swap = component_map_back;
        core::mem::swap(&mut self.components, &mut component_map_swap);
        proof {
            assert(new_entities@ == minted) by {
                assert(writer_batch_post(src, wr0, writer, minted));
                assert((wr0.entity_type.entities@ + minted).subrange(
                    wr0.entity_type.entities@.len() as int,
                    (wr0.entity_type.entities@.len() + minted.len()) as int,
                ) =~= minted);
            }
            assert forall|i: int, j: int|
                0 <= i < j < new_entities@.len() implies new_entities@[i] != new_entities@[j] by {
                assert(minted[i].0 == w0.entity_allocator@.max_id + i);
                assert(minted[j].0 == w0.entity_allocator@.max_id + j);
            }
            assert forall|k: int| 0 <= k < rows implies !w1.entities@.contains_key(
                #[trigger] minted[k],
            ) by {
                if w1.entities@.contains_key(minted[k]) {
                    assert((minted[k].0 as int) < w1.entity_allocator@.max_id);
                    assert(minted[k].0 == w0.entity_allocator@.max_id + k);
                }
            }
        }
        let replaced = self.entities.insert(&new_entities, entity_type_index, base);
        proof {
            // freshly minted handles displace nothing
            assert(replaced@.len() == 0);
        }
        let mut k: usize = 0;
        while k < new_entities.len()
            invariant
                0 <= k <= new_entities@.len(),
                out@ == old(out)@ + new_entities@.subrange(0, k as int),
            decreases new_entities@.len() - k,
        {
            out.push(new_entities[k]);
            proof {
                assert(new_entities@.subrange(0, k + 1) == new_entities@.subrange(0, k as int).push(
                    new_entities@[k as int],
                ));
            }
            k = k + 1;
        }
        proof {
            assert(out@ == old(out)@ + minted) by {
                assert(new_entities@.subrange(0, new_entities@.len() as int) == new_entities@);
            }
            let w = *self;
            let base_i = wr0.initial_count as int;
            assert(writer_batch_post(src, wr0, writer, minted));
            assert(w.entity_types@ == w1.entity_types@.update(tgt, writer.entity_type));
            assert(w.components@ == writer.components.components@);
            assert(w.entity_types@[tgt].entities@ == w1.entity_types@[tgt].entities@ + minted);
            lemma_total_entities_update(w1.entity_types@, tgt, writer.entity_type);
            // the world invariant holds again
            assert(w.wf()) by {
                assert forall|e: Entity| #[trigger] w.entities@.contains_key(e) implies {
                    let loc = w.entities@[e];
                    &&& w.valid_location(loc)
                    &&& w.entity_types@[loc.type_id.id as int].entities@[loc.component_id.id as int]
                        == e
                } by {
                    if w1.entities@.contains_key(e) && !minted.contains(e) {
                        let loc = w1.entities@[e];
                        assert(w.entities@[e] == loc);
                        assert(w1.valid_location(loc));
                        if loc.type_id.id as int == tgt {
                            assert(w.entity_types@[tgt].entities@[loc.component_id.id as int]
                                == w1.entity_types@[tgt].entities@[loc.component_id.id as int]);
                        } else {
                            assert(w.entity_types@[loc.type_id.id as int]
                                == w1.entity_types@[loc.type_id.id as int]);
                        }
                    } else {
                        let k2 = choose|k2: int| 0 <= k2 < rows && minted[k2] == e;
                        assert(w.entities@.contains_key(minted[k2]));
                        assert(w.entities@[minted[k2]] == (EntityLocation {
                            type_id: EntityTypeIndex { id: idx },
                            component_id: ComponentIndex { id: (base_i + k2) as usize },
                        }));
                        assert(w.entity_types@[tgt].entities@[base_i + k2] == minted[k2]);
                    }
                }
                assert forall|a: int, r2: int|
                    0 <= a < w.entity_types@.len() && 0 <= r2 < w.entity_types@[a].entities@.len()
                        implies {
                    let e = #[trigger] w.entity_types@[a].entities@[r2];
                    &&& w.entities@.contains_key(e)
                    &&& w.entities@[e] == (EntityLocation {
                        type_id: EntityTypeIndex { id: a as usize },
                        component_id: ComponentIndex { id: r2 as usize },
                    })
                } by {
                    if a == tgt && r2 >= base_i {
                        let e = minted[r2 - base_i];
                        assert(w.entity_types@[a].entities@[r2] == e);
                        assert(w.entities@.contains_key(e));
                    } else {
                        let e = if a == tgt {
                            w1.entity_types@[tgt].entities@[r2]
                        } else {
                            w1.entity_types@[a].entities@[r2]
                        };
                        assert(w.entity_types@[a].entities@[r2] == e);
                        assert(w1.entities@.contains_key(e));
                        assert(!minted.contains(e)) by {
                            if minted.contains(e) {
                                let k2 = choose|k2: int| 0 <= k2 < rows && minted[k2] == e;
                                assert(minted[k2].0 == w0.entity_allocator@.max_id + k2);
                                assert((e.0 as int) < w1.entity_allocator@.max_id);
                            }
                        }
                        assert(!new_entities@.contains(e));
                        assert(w.entities@.contains_key(e) == w1.entities@.contains_key(e));
                        assert(w.entities@[e] == w1.entities@[e]);
                    }
                }
                assert forall|a: int|
                    0 <= a < w.entity_types@.len() implies {
                    let et = #[trigger] w.entity_types@[a];
                    &&& et.index.id == a
                    &&& et.layout.wf()
                } by {
                    if a != tgt {
                        assert(w.entity_types@[a] == w1.entity_types@[a]);
                    }
                }
                assert forall|a1: int, a2: int|
                    0 <= a1 < a2 < w.entity_types@.len() implies (
                #[trigger] w.entity_types@[a1]).layout.spec_types()
                    != (#[trigger] w.entity_types@[a2]).layout.spec_types() by {
                    assert(w.entity_types@[a1].layout == w1.entity_types@[a1].layout);
                    assert(w.entity_types@[a2].layout == w1.entity_types@[a2].layout);
                }
                assert forall|a: int, t: ComponentTypeIndex|
                    0 <= a < w.entity_types@.len() && #[trigger] w.entity_types@[a].layout.spec_contains(
                        t,
                    ) implies {
                    let st = w.components@[t];
                    &&& w.components@.contains_key(t)
                    &&& st.spec_registered(a)
                    &&& st.spec_elems(a) == w.entity_types@[a].entities@.len()
                    &&& st.metadata == w.entity_types@[a].layout.spec_metadata_of(t)
                } by {
                    assert(w.entity_types@[a].layout == w1.entity_types@[a].layout);
                    assert(w1.entity_types@[a].layout.spec_contains(t));
                    let st1 = w1.components@[t];
                    assert(w1.components@.contains_key(t));
                    assert(st1.spec_registered(a));
                    if w1.entity_types@[tgt].layout.spec_contains(t) {
                        let st = w.components@[t];
                        assert(st.indices@ == st1.indices@);
                        assert(st.metadata == st1.metadata);
                        if a == tgt {
                            assert(st.spec_elems(tgt) == st1.spec_elems(tgt) + minted.len());
                        } else {
                            assert(OpaqueComponentStorage::same_except(st1, st, tgt));
                            assert(st.spec_bytes(a) == st1.spec_bytes(a));
                            assert(st.spec_elems(a) == st1.spec_elems(a));
                        }
                    } else {
                        assert(a != tgt);
                        assert(w1.components@.contains_key(t));
                        assert(w.components@[t] == w1.components@[t]);
                    }
                }
                assert forall|t: ComponentTypeIndex| #[trigger]
                    w.components@.contains_key(t) implies {
                    let st = w.components@[t];
                    &&& st.indices@.len() <= w.entity_types@.len()
                    &&& forall|b: int| #[trigger] st.spec_registered(b)
                        ==> w.entity_types@[b].layout.spec_contains(t)
                } by {
                    assert(w.components@.dom() == w1.components@.dom());
                    assert(w1.components@.contains_key(t));
                    let st1 = w1.components@[t];
                    let st = w.components@[t];
                    assert(st.indices@ == st1.indices@) by {
                        if w1.entity_types@[tgt].layout.spec_contains(t) {
                        } else {
                            assert(st == st1);
                        }
                    }
                    assert forall|b: int| #[trigger] st.spec_registered(b)
                        implies w.entity_types@[b].layout.spec_contains(t) by {
                        assert(st1.spec_registered(b));
                        assert(w1.entity_types@[b].layout.spec_contains(t));
                        assert(w.entity_types@[b].layout == w1.entity_types@[b].layout);
                    }
                }
                assert forall|e: Entity| #[trigger] w.entities@.contains_key(e) implies (
                e.0 as int) < w.entity_allocator@.max_id by {
                    if w1.entities@.contains_key(e) && !minted.contains(e) {
                        assert((e.0 as int) < w1.entity_allocator@.max_id);
                    } else {
                        let k2 = choose|k2: int| 0 <= k2 < rows && minted[k2] == e;
                        assert(minted[k2].0 == w0.entity_allocator@.max_id + k2);
                    }
                }
            }
            // the per-type payload clause of the postcondition
            assert forall|i: int|
                0 <= i < src.spec_layout_types().len() implies {
                let t = #[trigger] src.spec_layout_types()[i];
                &&& w.components@.contains_key(t)
                &&& w.components@[t].spec_bytes(tgt) == (
                if tgt < w0.entity_types@.len() {
                    w0.components@[t].spec_bytes(tgt)
                } else {
                    Seq::<u8>::empty()
                }) + src.spec_payload(t)
            } by {
                let t = src.spec_layout_types()[i];
                assert(src.spec_layout_types().contains(t));
                assert(src.spec_layout_types().to_set().contains(t));
                assert(w1.entity_types@[tgt].layout.spec_types().contains(t));
                assert(w1.entity_types@[tgt].layout.spec_contains(t));
                assert(w.components@[t].spec_bytes(tgt) == w1.components@[t].spec_bytes(tgt)
                    + src.spec_payload(t));
                if tgt < w0.entity_types@.len() {
                    assert(*&w1 == w0);
                } else {
                    assert(w1.components@[t].spec_elems(tgt) == 0);
                    assert(w1.components@[t].spec_bytes(tgt) =~= Seq::<u8>::empty()) by {
                        assert(registered_extension(
                            w0.components@,
                            w1.components@,
                            t,
                            tgt,
                            w1.entity_types@[tgt].layout.spec_metadata_of(t),
                        )) by {
                            assert(w1.entity_types@[tgt].layout.spec_contains(t));
                        }
                    }
                }
            }
            // the remaining postcondition clauses, spelled out
            assert forall|e: Entity|
                w0.spec_contains(e) implies #[trigger] w.spec_contains(e)
                && w.spec_locations()[e] == w0.spec_locations()[e] by {
                assert(w1.entities@.contains_key(e));
                assert(!minted.contains(e)) by {
                    if minted.contains(e) {
                        let k2 = choose|k2: int| 0 <= k2 < rows && minted[k2] == e;
                        assert(minted[k2].0 == w0.entity_allocator@.max_id + k2);
                        assert((e.0 as int) < w0.entity_allocator@.max_id);
                    }
                }
                assert(!new_entities@.contains(e));
                assert(w.entities@.contains_key(e) == w1.entities@.contains_key(e));
                assert(w.entities@[e] == w1.entities@[e]);
            }
            assert forall|k: int| 0 <= k < rows implies #[trigger] w.spec_contains(minted[k]) by {
                assert(new_entities@[k] == minted[k]);
            }
            assert forall|e: Entity|
                #[trigger] w.spec_contains(e) implies w0.spec_contains(e) || minted.contains(
                e,
            ) by {
                if !minted.contains(e) {
                    assert(!new_entities@.contains(e));
                    assert(w.entities@.contains_key(e) == w1.entities@.contains_key(e));
                    assert(w1.entities@.contains_key(e));
                }
            }
            assert forall|k: int|
                0 <= k < rows implies #[trigger] w.spec_locations()[minted[k]] == (EntityLocation {
                type_id: EntityTypeIndex { id: tgt as usize },
                component_id: ComponentIndex {
                    id: ((if tgt < w0.entity_types@.len() {
                        w0.entity_types@[tgt].entities@.len() as int
                    } else {
                        0int
                    }) + k) as usize,
                },
            }) by {
                assert(new_entities@[k] == minted[k]);
                assert(w.entities@[new_entities@[k]] == (EntityLocation {
                    type_id: entity_type_index,
                    component_id: ComponentIndex { id: (base_i + k) as usize },
                }));
                if tgt < w0.entity_types@.len() {
                    assert(base_i == w0.entity_types@[tgt].entities@.len());
                } else {
                    assert(base_i == 0);
                }
            }
            // untouched component types
            assert forall|t: ComponentTypeIndex|
                !src.spec_layout_types().to_set().contains(t) implies (
            #[trigger] w.components@.contains_key(t) == w0.components@.contains_key(t)) && (
            w0.components@.contains_key(t) ==> w.components@[t] == w0.components@[t]) by {
                assert(!w1.entity_types@[tgt].layout.spec_types().contains(t));
                assert(!w1.entity_types@[tgt].layout.spec_contains(t));
                assert(w.components@.dom() == w1.components@.dom());
                if w1.components@.contains_key(t) {
                    assert(w.components@[t] == w1.components@[t]);
                }
                if tgt < w0.entity_types@.len() {
                    assert(*&w1 == w0);
                } else {
                    assert(w1.components@.contains_key(t) == w0.components@.contains_key(t));
                    if w0.components@.contains_key(t) {
                        assert(w1.components@[t] == w0.components@[t]);
                    }
                }
            }
            assert(World::extend_effect(w0, w, src, old(out)@, out@));
        }
    }
}


impl World {
    /// The observable outcome of a successful `push`: the returned handle is
    /// fresh and live, every previously live entity is untouched, the world
    /// grew by one, and the new entity's archetype carries exactly the
    /// pushed component-type set.
    pub open spec fn pushed_post(w0: World, w1: World, r: Entity, types: Set<ComponentTypeIndex>) -> bool {
        &&& w1.wf()
        &&& !w0.spec_contains(r)
        &&& w1.spec_contains(r)
        &&& w1.spec_len() == w0.spec_len() + 1
        &&& forall|e: Entity|
            w0.spec_contains(e) ==> #[trigger] w1.spec_contains(e) && w1.spec_locations()[e]
                == w0.spec_locations()[e]
        &&& forall|e: Entity|
            #[trigger] w1.spec_contains(e) ==> w0.spec_contains(e) || e == r
        &&& {
            let a = w1.spec_locations()[r].type_id.id as int;
            &&& 0 <= a < w1.entity_types@.len()
            &&& w1.entity_types@[a].layout.spec_types() == types
        }
    }

    /// Insert one entity built from `components` and return its handle.
    #[verifier::rlimit(60)]
    #[verifier::spinoff_prover]
    pub fn push<Src: IntoComponentSource>(&mut self, components: Src) -> (r: Entity)
        requires
            old(self).wf(),
            components.spec_into().spec_wf(),
            old(self).can_extend(components.spec_into()),
            components.spec_into().spec_rows() == 1,
        ensures
            final(self).wf(),
            ({
                let src = components.spec_into();
                let tgt = old(self).archetype_matching(src.spec_layout_types().to_set());
                &&& r.0 == old(self).entity_allocator@.max_id
                &&& !old(self).spec_contains(r)
                &&& final(self).spec_contains(r)
                &&& final(self).spec_len() == old(self).spec_len() + 1
                &&& forall|e: Entity|
                    old(self).spec_contains(e) ==> #[trigger] final(self).spec_contains(e)
                        && final(self).spec_locations()[e] == old(self).spec_locations()[e]
                &&& forall|e: Entity|
                    #[trigger] final(self).spec_contains(e) ==> old(self).spec_contains(e) || e
                        == r
                &&& 0 <= tgt < final(self).entity_types@.len()
                &&& final(self).spec_locations()[r].type_id.id == tgt
                &&& final(self).entity_types@[tgt].layout.spec_types()
                    == src.spec_layout_types().to_set()
                &&& final(self).entity_types@[tgt].entities@ == (
                if tgt < old(self).entity_types@.len() {
                    old(self).entity_types@[tgt].entities@
                } else {
                    Seq::<Entity>::empty()
                }).push(r)
                &&& final(self).spec_locations()[r].component_id.id as int == final(self).entity_types@[tgt].entities@.len() - 1
                &&& forall|a: int|
                    0 <= a < final(self).entity_types@.len() && a != tgt
                        ==> #[trigger] final(self).entity_types@[a] == old(self).entity_types@[a]
                &&& old(self).entity_types@.len() <= final(self).entity_types@.len() <= old(self).entity_types@.len() + 1
                &&& final(self).entity_allocator@ == old(self).entity_allocator@.allocate_state(1)
                &&& forall|i: int|
                    0 <= i < src.spec_layout_types().len() ==> {
                        let t = #[trigger] src.spec_layout_types()[i];
                        &&& final(self).components@.contains_key(t)
                        &&& final(self).components@[t].spec_bytes(tgt) == (
                        if tgt < old(self).entity_types@.len() {
                            old(self).components@[t].spec_bytes(tgt)
                        } else {
                            Seq::<u8>::empty()
                        }) + src.spec_payload(t)
                    }
                &&& forall|t: ComponentTypeIndex|
                    !src.spec_layout_types().to_set().contains(t) ==> (#[trigger] final(self).components@.contains_key(t) == old(self).components@.contains_key(t)) && (old(self).components@.contains_key(t) ==> final(self).components@[t] == old(self).components@[t])
                &&& final(self).allocation_buffer == old(self).allocation_buffer
                &&& World::pushed_post(
                    *old(self),
                    *final(self),
                    r,
                    src.spec_layout_types().to_set(),
                )
            }),
    {
        let ghost w0 = *self;
        let ghost src = components.spec_into();
        let mut buffer: Vec<Entity> = Vec::new();
        self.extend_out(components, &mut buffer);
        proof {
            lemma_allocate_run_sequential(w0.entity_allocator@, 1);
            let minted = w0.entity_allocator@.allocate_run(1);
            assert(buffer@ == Seq::<Entity>::empty() + minted);
            assert(buffer@.len() == 1);
            assert(buffer@[0] == minted[0]);
            assert(minted.contains(minted[0]));
            let tgt = w0.archetype_matching(src.spec_layout_types().to_set());
            assert(self.entity_types@[tgt].entities@ == (
            if tgt < w0.entity_types@.len() {
                w0.entity_types@[tgt].entities@
            } else {
                Seq::<Entity>::empty()
            }) + minted);
            assert((if tgt < w0.entity_types@.len() {
                w0.entity_types@[tgt].entities@
            } else {
                Seq::<Entity>::empty()
            }) + minted =~= (if tgt < w0.entity_types@.len() {
                w0.entity_types@[tgt].entities@
            } else {
                Seq::<Entity>::empty()
            }).push(minted[0]));
        }
        buffer[0]
    }

    /// Insert `components`'s batch of entities and return the new handles,
    /// which stay readable until the next `extend` or `push`.
    pub fn extend<Src: IntoComponentSource>(&mut self, components: Src) -> (r: &Vec<Entity>)
        requires
            old(self).wf(),
            components.spec_into().spec_wf(),
            old(self).can_extend(components.spec_into()),
        ensures
            final(self).wf(),
            r == &final(self).allocation_buffer,
            r@ == old(self).entity_allocator@.allocate_run(components.spec_into().spec_rows()),
            final(self).spec_len() == old(self).spec_len() + components.spec_into().spec_rows(),
            forall|e: Entity|
                old(self).spec_contains(e) ==> #[trigger] final(self).spec_contains(e) && final(self).spec_locations()[e] == old(self).spec_locations()[e],
            forall|k: int| 0 <= k < r@.len() ==> final(self).spec_contains(#[trigger] r@[k]),
            forall|k: int| 0 <= k < r@.len() ==> !old(self).spec_contains(#[trigger] r@[k]),
    {
        let mut allocation_buffer: Vec<Entity> = Vec::new();
        core::mem::swap(&mut self.allocation_buffer, &mut allocation_buffer);
        allocation_buffer.clear();
        let ghost m0 = *self;
        self.extend_out(components, &mut allocation_buffer);
        let ghost m1 = *self;
        core::mem::swap(&mut self.allocation_buffer, &mut allocation_buffer);
        proof {
            assert forall|e: Entity|
                old(self).spec_contains(e) implies #[trigger] self.spec_contains(e)
                && self.spec_locations()[e] == old(self).spec_locations()[e] by {
                assert(m0.spec_contains(e));
                assert(m1.spec_contains(e));
                assert(self.entities == m1.entities);
            }
            assert forall|k: int|
                0 <= k < allocation_buffer@.len() implies #[trigger] self.spec_contains(
                allocation_buffer@[k],
            ) by {
                let minted = m0.entity_allocator@.allocate_run(components.spec_into().spec_rows());
                assert(allocation_buffer@ == Seq::<Entity>::empty() + minted);
                assert(allocation_buffer@[k] == minted[k]);
                assert(m1.spec_contains(minted[k]));
            }
            assert forall|k: int|
                0 <= k < allocation_buffer@.len() implies !old(self).spec_contains(
                #[trigger] allocation_buffer@[k],
            ) by {
                let minted = m0.entity_allocator@.allocate_run(components.spec_into().spec_rows());
                assert(allocation_buffer@[k] == minted[k]);
                assert(!m0.spec_contains(minted[k]));
            }
            assert(self.allocation_buffer@ == Seq::<Entity>::empty() + old(self).entity_allocator@.allocate_run(components.spec_into().spec_rows()));
            assert(Seq::<Entity>::empty() + old(self).entity_allocator@.allocate_run(
                components.spec_into().spec_rows(),
            ) =~= old(self).entity_allocator@.allocate_run(components.spec_into().spec_rows()));
        }
        &self.allocation_buffer
    }
}


impl World {
    /// What `remove` does to the world when it removes the live entity at
    /// `location`: the entity leaves the location map and its archetype's
    /// row, the then-last row of that archetype moves into its place (and
    /// its location is updated), every component array of the archetype
    /// swap-removes the same row, and nothing else changes.
    pub open spec fn removed_post(w0: World, w1: World, location: EntityLocation) -> bool {
        let a = location.type_id.id as int;
        let row = location.component_id.id as int;
        let ents = w0.entity_types@[a].entities@;
        let e = ents[row];
        &&& w1.wf()
        &&& w1.spec_len() == w0.spec_len() - 1
        &&& !w1.spec_contains(e)
        &&& forall|q: Entity|
            q != e ==> #[trigger] w1.spec_contains(q) == w0.spec_contains(q)
        &&& forall|q: Entity|
            q != e && w0.spec_contains(q) ==> #[trigger] w1.spec_locations()[q] == (
            if w0.spec_locations()[q] == (EntityLocation {
                type_id: location.type_id,
                component_id: ComponentIndex { id: (ents.len() - 1) as usize },
            }) {
                location
            } else {
                w0.spec_locations()[q]
            })
        &&& w1.entity_types@.len() == w0.entity_types@.len()
        &&& forall|b: int|
            0 <= b < w0.entity_types@.len() && b != a ==> #[trigger] w1.entity_types@[b]
                == w0.entity_types@[b]
        &&& w1.entity_types@[a].layout == w0.entity_types@[a].layout
        &&& w1.entity_types@[a].index == w0.entity_types@[a].index
        &&& w1.entity_types@[a].entities@ == ents.update(row, ents.last()).drop_last()
        &&& w1.components@.dom() == w0.components@.dom()
        &&& forall|t: ComponentTypeIndex|
            #[trigger] w0.components@.contains_key(t) ==> w1.components@[t].indices@
                == w0.components@[t].indices@ && w1.components@[t].metadata
                == w0.components@[t].metadata
        &&& forall|t: ComponentTypeIndex|
            #[trigger] w0.entity_types@[a].layout.spec_contains(t) ==> {
                let st0 = w0.components@[t];
                let st1 = w1.components@[t];
                &&& st1.spec_bytes(a) == chunk_swap_removed(
                    st0.spec_bytes(a),
                    st0.spec_elem_size(),
                    row,
                    st0.spec_elems(a),
                )
                &&& st1.spec_elems(a) == st0.spec_elems(a) - 1
                &&& st1.length == st0.length - 1
                &&& OpaqueComponentStorage::same_except(st0, st1, a)
            }
        &&& forall|t: ComponentTypeIndex|
            w0.components@.contains_key(t) && !w0.entity_types@[a].layout.spec_contains(t)
                ==> #[trigger] w1.components@[t] == w0.components@[t]
        &&& w1.entity_allocator == w0.entity_allocator
        &&& w1.allocation_buffer == w0.allocation_buffer
    }

    /// Remove the entity living at `location`: swap-remove its archetype
    /// row and the same row of every component array of the archetype, drop
    /// its location, and redirect the location of the row that was swapped
    /// in.
    #[verifier::rlimit(100)]
    fn remove_at_location(&mut self, location: EntityLocation)
        requires
            old(self).wf(),
            old(self).valid_location(location),
        ensures
            World::removed_post(*old(self), *final(self), location),
    {
        let ghost w0 = *self;
        let entity_type_index = location.entity_type();
        let a = entity_type_index.id();
        let component_index = location.component();
        let row = component_index.id();
        let ghost ents = w0.entity_types@[a as int].entities@;
        let ghost e = ents[row as int];
        let ghost last = ents.last();
        proof {
            assert(w0.entities@.contains_key(e) && w0.entities@[e] == location);
            assert(w0.entities@.contains_key(last) && w0.entities@[last] == (EntityLocation {
                type_id: location.type_id,
                component_id: ComponentIndex { id: (ents.len() - 1) as usize },
            }));
        }
        let removed_entity = self.entity_types[a].entities[row];
        self.entities.remove(removed_entity);
        let archetype = &mut self.entity_types[a];
        let swapped_out = archetype.swap_remove(row);
        let ghost w1 = *self;
        proof {
            assert(w1.entity_types@ == w0.entity_types@.update(
                a as int,
                w1.entity_types@[a as int],
            ));
            assert(w1.entity_types@[a as int].entities@ == ents.update(row as int, last).drop_last());
        }
        // swap-remove the same row out of every component array of this
        // archetype
        let n = self.entity_types[a].layout.components.len();
        let ghost types = w0.entity_types@[a as int].layout.components@;
        let mut i: usize = 0;
        while i < n
            invariant
                0 <= i <= n,
                w0.wf(),
                w0.valid_location(location),
                a == location.type_id.id,
                row == location.component_id.id,
                entity_type_index.id == a,
                component_index.id == row,
                ents == w0.entity_types@[a as int].entities@,
                types == w0.entity_types@[a as int].layout.components@,
                n == types.len(),
                self.entities == w1.entities,
                self.entity_types == w1.entity_types,
                self.entity_allocator == w0.entity_allocator,
                self.allocation_buffer == w0.allocation_buffer,
                w1.entity_types@ == w0.entity_types@.update(a as int, w1.entity_types@[a as int]),
                w1.entity_types@[a as int].layout == w0.entity_types@[a as int].layout,
                self.components.wf(),
                self.components@.dom() == w0.components@.dom(),
                forall|k: int|
                    0 <= k < i ==> {
                        let st0 = w0.components@[#[trigger] types[k]];
                        let st1 = self.components@[types[k]];
                        &&& st1.spec_bytes(a as int) == chunk_swap_removed(
                            st0.spec_bytes(a as int),
                            st0.spec_elem_size(),
                            row as int,
                            st0.spec_elems(a as int),
                        )
                        &&& st1.spec_elems(a as int) == st0.spec_elems(a as int) - 1
                        &&& st1.length == st0.length - 1
                        &&& st1.indices@ == st0.indices@
                        &&& st1.metadata == st0.metadata
                        &&& OpaqueComponentStorage::same_except(st0, st1, a as int)
                    },
                forall|t: ComponentTypeIndex|
                    !types.subrange(0, i as int).contains(t) ==> (#[trigger] self.components@.contains_key(
                        t,
                    ) == w0.components@.contains_key(t)) && (w0.components@.contains_key(t)
                        ==> self.components@[t] == w0.components@[t]),
            decreases n - i,
        {
            let t = self.entity_types[a].layout.components[i];
            let ghost mid = *self;
            proof {
                assert(types[i as int] == t);
                assert(types.contains(t));
                assert(w0.entity_types@[a as int].layout.spec_contains(t));
                assert(w0.components@.contains_key(t));
                assert(!types.subrange(0, i as int).contains(t)) by {
                    if types.subrange(0, i as int).contains(t) {
                        let k = choose|k: int|
                            0 <= k < i && types.subrange(0, i as int)[k] == t;
                        assert(types[k] == types[i as int]);
                        assert(w0.entity_types@[a as int].layout.wf());
                    }
                }
                assert(mid.components@[t] == w0.components@[t]);
                assert(w0.components@[t].spec_registered(a as int));
                assert(w0.components@[t].spec_elems(a as int) == ents.len());
            }
            let storage = self.components.get_view_mut(t);
            let removed_bytes = storage.swap_remove(entity_type_index, component_index);
            proof {
                let stf = *storage;
                assert(self.components@ == mid.components@.insert(t, stf));
                assert forall|k: int|
                    0 <= k < i + 1 implies {
                    let st0 = w0.components@[#[trigger] types[k]];
                    let st1 = self.components@[types[k]];
                    &&& st1.spec_bytes(a as int) == chunk_swap_removed(
                        st0.spec_bytes(a as int),
                        st0.spec_elem_size(),
                        row as int,
                        st0.spec_elems(a as int),
                    )
                    &&& st1.spec_elems(a as int) == st0.spec_elems(a as int) - 1
                    &&& st1.length == st0.length - 1
                    &&& st1.indices@ == st0.indices@
                    &&& st1.metadata == st0.metadata
                    &&& OpaqueComponentStorage::same_except(st0, st1, a as int)
                } by {
                    if k < i as int {
                        assert(types[k] != t) by {
                            assert(w0.entity_types@[a as int].layout.wf());
                        }
                        assert(self.components@[types[k]] == mid.components@[types[k]]);
                    }
                }
                assert(types.subrange(0, i as int) == types.subrange(0, i + 1).drop_last());
                assert forall|u: ComponentTypeIndex|
                    !types.subrange(0, i + 1).contains(u) implies (#[trigger] self.components@.contains_key(
                    u,
                ) == w0.components@.contains_key(u)) && (w0.components@.contains_key(u)
                    ==> self.components@[u] == w0.components@[u]) by {
                    assert(u != t) by {
                        assert(types.subrange(0, i + 1)[i as int] == t);
                    }
                    assert(!types.subrange(0, i as int).contains(u));
                    assert(mid.components@.contains_key(u) == w0.components@.contains_key(u));
                    assert(self.components@.contains_key(u) == mid.components@.contains_key(u));
                    if w0.components@.contains_key(u) {
                        assert(mid.components@[u] == w0.components@[u]);
                        assert(self.components@[u] == mid.components@[u]);
                    }
                }
            }
            i = i + 1;
        }
        // if a row was swapped into the removed slot, its entity now lives
        // there
        let archetype_len = self.entity_types[a].entities.len();
        if row < archetype_len {
            let swapped = self.entity_types[a].entities[row];
            proof {
                assert(row as int != ents.len() - 1);
                assert(swapped == last);
                assert(last != e) by {
                    assert(w0.entities@[e] == location);
                }
                assert(self.entities@.contains_key(last));
            }
            self.entities.set(swapped, location);
        }
        proof {
            assert(types.subrange(0, n as int) == types);
            let w = *self;
            lemma_total_entities_update(
                w0.entity_types@,
                a as int,
                w1.entity_types@[a as int],
            );
            let new_ents = ents.update(row as int, last).drop_last();
            // entities at rows other than the removed one keep their handles
            assert forall|r2: int|
                0 <= r2 < new_ents.len() && r2 != row as int implies new_ents[r2] == ents[r2] by {}
            // distinctness of rows in the old archetype
            assert forall|r1: int, r2: int|
                0 <= r1 < r2 < ents.len() implies ents[r1] != ents[r2] by {
                assert(w0.entities@[ents[r1]].component_id.id == r1);
                assert(w0.entities@[ents[r2]].component_id.id == r2);
            }
            assert(w.wf()) by {
                assert forall|q: Entity| #[trigger] w.entities@.contains_key(q) implies {
                    let loc = w.entities@[q];
                    &&& w.valid_location(loc)
                    &&& w.entity_types@[loc.type_id.id as int].entities@[loc.component_id.id as int]
                        == q
                } by {
                    assert(q != e);
                    assert(w0.entities@.contains_key(q));
                    let loc0 = w0.entities@[q];
                    if q == last && (row as int) < ents.len() - 1 {
                        assert(loc0.component_id.id as int == ents.len() - 1);
                        assert(w.entities@[q] == location);
                        assert(new_ents[row as int] == last);
                    } else {
                        assert(w.entities@[q] == loc0);
                        if loc0.type_id.id == a {
                            assert(loc0.component_id.id as int != row as int) by {
                                assert(ents[loc0.component_id.id as int] == q);
                            }
                            assert((loc0.component_id.id as int) < ents.len() - 1) by {
                                if loc0.component_id.id as int == ents.len() - 1 {
                                    assert(ents[loc0.component_id.id as int] == last);
                                }
                            }
                            assert(new_ents[loc0.component_id.id as int] == q);
                        } else {
                            assert(w.entity_types@[loc0.type_id.id as int] == w0.entity_types@[loc0.type_id.id as int]);
                        }
                    }
                }
                assert forall|b: int, r2: int|
                    0 <= b < w.entity_types@.len() && 0 <= r2 < w.entity_types@[b].entities@.len()
                        implies {
                    let q = #[trigger] w.entity_types@[b].entities@[r2];
                    &&& w.entities@.contains_key(q)
                    &&& w.entities@[q] == (EntityLocation {
                        type_id: EntityTypeIndex { id: b as usize },
                        component_id: ComponentIndex { id: r2 as usize },
                    })
                } by {
                    if b == a as int {
                        let q = new_ents[r2];
                        if r2 == row as int {
                            assert(q == last);
                            assert(q != e);
                            assert(w.entities@.contains_key(q));
                        } else {
                            assert(q == ents[r2]);
                            assert(q != e) by {
                                assert(ents[row as int] == e);
                            }
                            assert(q != last) by {
                                assert(ents[ents.len() - 1] == last);
                                if r2 != ents.len() - 1 {
                                } else {
                                    assert(r2 < new_ents.len());
                                    assert(false);
                                }
                            }
                            assert(w0.entities@[q].component_id.id as int == r2);
                            assert(w.entities@[q] == w0.entities@[q]);
                        }
                    } else {
                        let q = w0.entity_types@[b].entities@[r2];
                        assert(w.entity_types@[b] == w0.entity_types@[b]);
                        assert(q != e) by {
                            assert(w0.entities@[q].type_id.id as int == b);
                        }
                        assert(q != last || (row as int) == ents.len() - 1) by {
                            assert(w0.entities@[q].type_id.id as int == b);
                            assert(w0.entities@[last].type_id.id as int == a as int);
                        }
                        assert(w.entities@[q] == w0.entities@[q]);
                    }
                }
                assert forall|b: int|
                    0 <= b < w.entity_types@.len() implies {
                    let et = #[trigger] w.entity_types@[b];
                    &&& et.index.id == b
                    &&& et.layout.wf()
                } by {
                    if b != a as int {
                        assert(w.entity_types@[b] == w0.entity_types@[b]);
                    } else {
                        assert(w.entity_types@[b].index == w0.entity_types@[b].index);
                        assert(w.entity_types@[b].layout == w0.entity_types@[b].layout);
                    }
                }
                assert forall|a1: int, a2: int|
                    0 <= a1 < a2 < w.entity_types@.len() implies (
                #[trigger] w.entity_types@[a1]).layout.spec_types()
                    != (#[trigger] w.entity_types@[a2]).layout.spec_types() by {
                    assert(w.entity_types@[a1].layout == w0.entity_types@[a1].layout);
                    assert(w.entity_types@[a2].layout == w0.entity_types@[a2].layout);
                }
                assert forall|b: int, t: ComponentTypeIndex|
                    0 <= b < w.entity_types@.len() && #[trigger] w.entity_types@[b].layout.spec_contains(
                        t,
                    ) implies {
                    let st = w.components@[t];
                    &&& w.components@.contains_key(t)
                    &&& st.spec_registered(b)
                    &&& st.spec_elems(b) == w.entity_types@[b].entities@.len()
                    &&& st.metadata == w.entity_types@[b].layout.spec_metadata_of(t)
                } by {
                    assert(w.entity_types@[b].layout == w0.entity_types@[b].layout);
                    assert(w0.entity_types@[b].layout.spec_contains(t));
                    let st0 = w0.components@[t];
                    assert(w0.components@.contains_key(t));
                    if types.contains(t) {
                        let k = types.index_of(t);
                        assert(exists|j: int| 0 <= j < types.len() && types[j] == t);
                        assert(0 <= k < types.len() && types[k] == t);
                        let st = w.components@[t];
                        assert(st.indices@ == st0.indices@);
                        if b == a as int {
                            assert(st.spec_elems(b) == st0.spec_elems(b) - 1);
                        } else {
                            assert(OpaqueComponentStorage::same_except(st0, st, a as int));
                            assert(st.spec_bytes(b) == st0.spec_bytes(b));
                            assert(st.spec_elems(b) == st0.spec_elems(b));
                        }
                    } else {
                        assert(b != a as int) by {
                            if b == a as int {
                                assert(types.contains(t));
                            }
                        }
                        assert(!types.subrange(0, n as int).contains(t));
                        assert(w.components@.contains_key(t) == w0.components@.contains_key(t));
                        assert(w.components@[t] == w0.components@[t]);
                    }
                }
                assert forall|t: ComponentTypeIndex| #[trigger]
                    w.components@.contains_key(t) implies {
                    let st = w.components@[t];
                    &&& st.indices@.len() <= w.entity_types@.len()
                    &&& forall|b: int| #[trigger] st.spec_registered(b)
                        ==> w.entity_types@[b].layout.spec_contains(t)
                } by {
                    assert(w0.components@.contains_key(t));
                    let st0 = w0.components@[t];
                    let st = w.components@[t];
                    assert(st.indices@ == st0.indices@) by {
                        if types.contains(t) {
                            let k = types.index_of(t);
                            assert(exists|j: int| 0 <= j < types.len() && types[j] == t);
                            assert(0 <= k < types.len() && types[k] == t);
                        } else {
                            assert(!types.subrange(0, n as int).contains(t));
                            assert(w.components@[t] == w0.components@[t]);
                        }
                    }
                    assert forall|b: int| #[trigger] st.spec_registered(b)
                        implies w.entity_types@[b].layout.spec_contains(t) by {
                        assert(st0.spec_registered(b));
                        assert(w0.entity_types@[b].layout.spec_contains(t));
                        assert(w.entity_types@[b].layout == w0.entity_types@[b].layout);
                    }
                }
                assert forall|q: Entity| #[trigger] w.entities@.contains_key(q) implies (
                q.0 as int) < w.entity_allocator@.max_id by {
                    assert(w0.entities@.contains_key(q));
                }
            }
            // the per-type clauses of the postcondition
            assert forall|t: ComponentTypeIndex|
                #[trigger] w0.entity_types@[a as int].layout.spec_contains(t) implies {
                let st0 = w0.components@[t];
                let st1 = w.components@[t];
                &&& st1.spec_bytes(a as int) == chunk_swap_removed(
                    st0.spec_bytes(a as int),
                    st0.spec_elem_size(),
                    row as int,
                    st0.spec_elems(a as int),
                )
                &&& st1.spec_elems(a as int) == st0.spec_elems(a as int) - 1
                &&& st1.length == st0.length - 1
                &&& OpaqueComponentStorage::same_except(st0, st1, a as int)
            } by {
                assert(types.contains(t));
                let k = types.index_of(t);
                assert(exists|j: int| 0 <= j < types.len() && types[j] == t);
                assert(0 <= k < types.len() && types[k] == t);
            }
            assert forall|t: ComponentTypeIndex|
                #[trigger] w0.components@.contains_key(t) implies w.components@[t].indices@
                == w0.components@[t].indices@ && w.components@[t].metadata
                == w0.components@[t].metadata by {
                if types.contains(t) {
                    let k = types.index_of(t);
                    assert(exists|j: int| 0 <= j < types.len() && types[j] == t);
                    assert(0 <= k < types.len() && types[k] == t);
                } else {
                    assert(!types.subrange(0, n as int).contains(t));
                    assert(w.components@.contains_key(t) == w0.components@.contains_key(t));
                    assert(w.components@[t] == w0.components@[t]);
                }
            }
            assert forall|t: ComponentTypeIndex|
                w0.components@.contains_key(t) && !w0.entity_types@[a as int].layout.spec_contains(
                    t,
                ) implies #[trigger] w.components@[t] == w0.components@[t] by {
                assert(!types.contains(t));
                assert(!types.subrange(0, n as int).contains(t));
                assert(w.components@.contains_key(t) == w0.components@.contains_key(t));
            }
        }
    }

    /// Remove `entity` from the world. Returns whether it was live; removing
    /// an unknown entity does nothing.
    pub fn remove(&mut self, entity: Entity) -> (r: bool)
        requires
            old(self).wf(),
        ensures
            final(self).wf(),
            r == old(self).spec_contains(entity),
            !final(self).spec_contains(entity),
            final(self).spec_len() == old(self).spec_len() - (if r {
                1int
            } else {
                0int
            }),
            forall|q: Entity|
                q != entity ==> #[trigger] final(self).spec_contains(q) == old(self).spec_contains(
                    q,
                ),
            !r ==> *final(self) == *old(self),
            r ==> World::removed_post(
                *old(self),
                *final(self),
                old(self).spec_locations()[entity],
            ),
    {
        match self.entities.get(entity) {
            Some(location) => {
                proof {
                    assert(old(self).entities@.contains_key(entity));
                    assert(old(self).valid_location(location));
                    assert(old(self).entity_types@[location.type_id.id as int].entities@[location.component_id.id as int]
                        == entity);
                }
                self.remove_at_location(location);
                true
            },
            None => false,
        }
    }
}


impl World {
    /// What `clear` leaves behind: no live entity, every archetype's entity
    /// list and every component array empty, while the archetypes, the
    /// storages' metadata and tables, the allocator and the scratch buffer
    /// persist.
    pub open spec fn cleared_post(w0: World, w1: World) -> bool {
        &&& w1.wf()
        &&& w1.spec_len() == 0
        &&& w1.spec_locations() == Map::<Entity, EntityLocation>::empty()
        &&& w1.entity_types@.len() == w0.entity_types@.len()
        &&& forall|a: int|
            0 <= a < w0.entity_types@.len() ==> (#[trigger] w1.entity_types@[a]).layout
                == w0.entity_types@[a].layout && w1.entity_types@[a].index
                == w0.entity_types@[a].index && w1.entity_types@[a].entities@
                == Seq::<Entity>::empty()
        &&& w1.components@.dom() == w0.components@.dom()
        &&& forall|t: ComponentTypeIndex|
            #[trigger] w0.components@.contains_key(t) ==> w1.components@[t].indices@
                == w0.components@[t].indices@ && w1.components@[t].metadata
                == w0.components@[t].metadata
        &&& forall|t: ComponentTypeIndex, a: int|
            w1.components@.contains_key(t) && (#[trigger] w1.components@[t].spec_registered(a))
                ==> w1.components@[t].spec_elems(a) == 0 && w1.components@[t].spec_bytes(a)
                == Seq::<u8>::empty()
        &&& w1.entity_allocator == w0.entity_allocator
        &&& w1.allocation_buffer == w0.allocation_buffer
    }

    /// Remove every live entity. Archetypes and storages persist, emptied;
    /// clearing an already-empty world changes nothing.
    pub fn clear(&mut self)
        requires
            old(self).wf(),
        ensures
            World::cleared_post(*old(self), *final(self)),
            old(self).spec_len() == 0 ==> *final(self) == *old(self),
    {
        let ghost w0 = *self;
        let entity_list = self.entities.iter();
        let ghost keys = entity_list@;
        let mut i: usize = 0;
        while i < entity_list.len()
            invariant
                0 <= i <= keys.len(),
                keys == entity_list@,
                forall|k1: int, k2: int| 0 <= k1 < k2 < keys.len() ==> keys[k1] != keys[k2],
                forall|e: Entity| keys.contains(e) == w0.spec_contains(e),
                self.wf(),
                forall|e: Entity|
                    #[trigger] self.spec_contains(e) == (w0.spec_contains(e) && !keys.subrange(
                        0,
                        i as int,
                    ).contains(e)),
                self.entity_types@.len() == w0.entity_types@.len(),
                forall|a: int|
                    0 <= a < w0.entity_types@.len() ==> (#[trigger] self.entity_types@[a]).layout
                        == w0.entity_types@[a].layout && self.entity_types@[a].index
                        == w0.entity_types@[a].index,
                self.components@.dom() == w0.components@.dom(),
                forall|t: ComponentTypeIndex|
                    #[trigger] w0.components@.contains_key(t) ==> self.components@[t].indices@
                        == w0.components@[t].indices@ && self.components@[t].metadata
                        == w0.components@[t].metadata,
                self.entity_allocator == w0.entity_allocator,
                self.allocation_buffer == w0.allocation_buffer,
                i == 0 ==> *self == w0,
            decreases keys.len() - i,
        {
            let entity = entity_list[i];
            let ghost mid = *self;
            proof {
                assert(keys[i as int] == entity);
                assert(keys.contains(entity));
                assert(w0.spec_contains(entity));
                assert(!keys.subrange(0, i as int).contains(entity)) by {
                    if keys.subrange(0, i as int).contains(entity) {
                        let k = choose|k: int|
                            0 <= k < i && keys.subrange(0, i as int)[k] == entity;
                        assert(keys[k] == keys[i as int]);
                    }
                }
                assert(self.spec_contains(entity));
            }
            let removed = self.remove(entity);
            proof {
                let loc = mid.spec_locations()[entity];
                assert(World::removed_post(mid, *self, loc));
                assert(keys.subrange(0, i as int) == keys.subrange(0, i + 1).drop_last());
                assert forall|e: Entity|
                    #[trigger] self.spec_contains(e) == (w0.spec_contains(e) && !keys.subrange(
                        0,
                        i + 1,
                    ).contains(e)) by {
                    if e == entity {
                        assert(keys.subrange(0, i + 1)[i as int] == entity);
                        assert(keys.subrange(0, i + 1).contains(entity));
                        assert(!self.spec_contains(entity));
                    } else {
                        assert(self.spec_contains(e) == mid.spec_contains(e));
                        let s1 = keys.subrange(0, i + 1);
                        if s1.contains(e) {
                            let k = choose|k: int| 0 <= k < s1.len() && s1[k] == e;
                            assert(k < i as int || s1[k] == entity);
                            assert(keys.subrange(0, i as int)[k] == e);
                            assert(keys.subrange(0, i as int).contains(e));
                        } else {
                            assert(!keys.subrange(0, i as int).contains(e)) by {
                                if keys.subrange(0, i as int).contains(e) {
                                    let k = choose|k: int|
                                        0 <= k < keys.subrange(0, i as int).len()
                                            && keys.subrange(0, i as int)[k] == e;
                                    assert(s1[k] == e);
                                }
                            }
                        }
                    }
                }
                let a = loc.type_id.id as int;
                assert forall|b: int|
                    0 <= b < w0.entity_types@.len() implies (#[trigger] self.entity_types@[b]).layout
                    == w0.entity_types@[b].layout && self.entity_types@[b].index
                    == w0.entity_types@[b].index by {
                    if b != a {
                        assert(self.entity_types@[b] == mid.entity_types@[b]);
                    } else {
                        assert(self.entity_types@[a].layout == mid.entity_types@[a].layout);
                    }
                }
            }
            i = i + 1;
        }
        proof {
            let w = *self;
            assert(keys.subrange(0, keys.len() as int) == keys);
            assert forall|e: Entity| !(#[trigger] w.spec_contains(e)) by {
                if w.spec_contains(e) {
                    assert(w0.spec_contains(e));
                    assert(keys.contains(e));
                    assert(keys.subrange(0, keys.len() as int).contains(e));
                }
            }
            assert(w.entities.locations@.len() == 0) by {
                if w.entities.locations@.len() > 0 {
                    let entry = w.entities.locations@[0];
                    assert(crate::storage::has_key(w.entities.locations@, entry.entity));
                    crate::storage::lemma_map_of_dom(w.entities.locations@);
                    assert(w.spec_contains(entry.entity));
                }
            }
            assert(w.spec_locations() =~= Map::<Entity, EntityLocation>::empty()) by {
                crate::storage::lemma_map_of_dom(w.entities.locations@);
                assert forall|e: Entity|
                    !(#[trigger] w.spec_locations().dom().contains(e)) by {
                    assert(!w.spec_contains(e));
                }
            }
            assert forall|a: int|
                0 <= a < w0.entity_types@.len() implies (#[trigger] w.entity_types@[a]).entities@
                =~= Seq::<Entity>::empty() by {
                if w.entity_types@[a].entities@.len() > 0 {
                    let e = w.entity_types@[a].entities@[0];
                    assert(w.entities@.contains_key(e));
                    assert(w.spec_contains(e));
                }
            }
            assert forall|t: ComponentTypeIndex, a: int|
                w.components@.contains_key(t) && (#[trigger] w.components@[t].spec_registered(a))
                    implies w.components@[t].spec_elems(a) == 0 && w.components@[t].spec_bytes(a)
                    =~= Seq::<u8>::empty() by {
                let st = w.components@[t];
                assert(w.entity_types@[a].layout.spec_contains(t));
                assert(0 <= a < w.entity_types@.len()) by {
                    assert(st.indices@.len() <= w.entity_types@.len());
                }
                assert(w.entity_types@[a].layout.spec_contains(t));
                assert(st.spec_elems(a) == w.entity_types@[a].entities@.len());
                assert(st.wf());
                assert(st.spec_slot(a) < st.components@.len());
                assert(st.components@[st.spec_slot(a)].wf(st.spec_elem_size()));
                assert(st.spec_bytes(a).len() == 0 * st.spec_elem_size()) by {
                    assert(st.components@[st.spec_slot(a)].len == 0);
                }
                assert(0 * st.spec_elem_size() == 0) by (nonlinear_arith);
            }
        }
    }
}


/// Every live entity's recorded location points back at it: if the location
/// map sends `e` to archetype `a`, row `r`, then archetype `a`'s entity
/// list holds `e` at row `r`.
pub proof fn lemma_location_points_back(w: World, e: Entity)
    requires
        w.wf(),
        w.spec_contains(e),
    ensures
        ({
            let loc = w.spec_locations()[e];
            &&& 0 <= (loc.type_id.id as int) < w.entity_types@.len()
            &&& (loc.component_id.id as int)
                < w.entity_types@[loc.type_id.id as int].entities@.len()
            &&& w.entity_types@[loc.type_id.id as int].entities@[loc.component_id.id as int] == e
        }),
{
}

/// For every archetype and every component type in its layout, the typed
/// storage holds an array for that archetype whose element count equals the
/// archetype's entity count.
pub proof fn lemma_array_lengths_match(w: World, a: int, t: ComponentTypeIndex)
    requires
        w.wf(),
        0 <= a < w.entity_types@.len(),
        w.entity_types@[a].layout.spec_contains(t),
    ensures
        w.components@.contains_key(t),
        w.components@[t].spec_registered(a),
        w.components@[t].spec_elems(a) == w.entity_types@[a].entities@.len(),
{
}

/// The world's length is the sum of the entity counts of all archetypes.
pub proof fn lemma_len_is_total(w: World)
    requires
        w.wf(),
    ensures
        w.spec_len() == total_entities(w.entity_types@),
{
}

/// No two archetypes carry the same unordered component-type set.
pub proof fn lemma_archetype_sets_distinct(w: World, a1: int, a2: int)
    requires
        w.wf(),
        0 <= a1 < w.entity_types@.len(),
        0 <= a2 < w.entity_types@.len(),
        a1 != a2,
    ensures
        w.entity_types@[a1].layout.spec_types() != w.entity_types@[a2].layout.spec_types(),
{
    if a1 < a2 {
    } else {
    }
}

/// One step of the liveness induction behind "every pushed, not yet removed
/// entity is contained": a push keeps every live entity live (and mints a
/// live one), so pushes never end a handle's life.
pub proof fn lemma_push_preserves_live(
    w0: World,
    w1: World,
    r: Entity,
    types: Set<ComponentTypeIndex>,
    e: Entity,
)
    requires
        World::pushed_post(w0, w1, r, types),
        w0.spec_contains(e) || e == r,
    ensures
        w1.spec_contains(e),
{
}

/// The other step of the liveness induction: a remove ends exactly the
/// removed entity's life and no other.
pub proof fn lemma_remove_preserves_live(w0: World, w1: World, q: Entity, e: Entity)
    requires
        w0.wf(),
        w0.spec_contains(q),
        World::removed_post(w0, w1, w0.spec_locations()[q]),
        w0.spec_contains(e),
        e != q,
    ensures
        w1.spec_contains(e),
{
    let loc = w0.spec_locations()[q];
    assert(w0.entity_types@[loc.type_id.id as int].entities@[loc.component_id.id as int] == q);
}

/// Push/remove round trip: pushing an entity and then removing it restores
/// the world's length, leaves no location mapping behind for the handle,
/// and every other entity's liveness is as before.
pub proof fn lemma_push_remove_round_trip(
    w0: World,
    w1: World,
    w2: World,
    r: Entity,
    types: Set<ComponentTypeIndex>,
)
    requires
        World::pushed_post(w0, w1, r, types),
        World::removed_post(w1, w2, w1.spec_locations()[r]),
    ensures
        w2.spec_len() == w0.spec_len(),
        !w2.spec_contains(r),
        forall|e: Entity| #[trigger] w2.spec_contains(e) == w0.spec_contains(e),
{
    let loc = w1.spec_locations()[r];
    assert(w1.entity_types@[loc.type_id.id as int].entities@[loc.component_id.id as int] == r);
    assert forall|e: Entity| #[trigger] w2.spec_contains(e) == w0.spec_contains(e) by {
        if e == r {
            assert(!w2.spec_contains(r));
            assert(!w0.spec_contains(r));
        } else {
            assert(w2.spec_contains(e) == w1.spec_contains(e));
            if w0.spec_contains(e) {
                assert(w1.spec_contains(e));
            }
            if w1.spec_contains(e) {
                assert(w0.spec_contains(e) || e == r);
            }
        }
    }
}

/// Clear idempotence: clearing twice leaves exactly the world that one
/// clear leaves, because a clear of an already-empty world changes nothing.
pub proof fn lemma_clear_idempotent(w0: World, w1: World, w2: World)
    requires
        World::cleared_post(w0, w1),
        World::cleared_post(w1, w2),
        w1.spec_len() == 0 ==> w2 == w1,
    ensures
        w2 == w1,
{
}


/// A view of one live entity: its location and a borrow of the world it
/// lives in.
pub struct Entry<'a> {
    pub location: EntityLocation,
    pub world: &'a World,
}

impl<'a> Entry<'a> {
    /// The conditions under which this entry's accessors are meaningful:
    /// the world is consistent and the location points at an existing row.
    pub open spec fn wf(self) -> bool {
        &&& self.world.wf()
        &&& self.world.valid_location(self.location)
    }

    pub fn new(location: EntityLocation, world: &'a World) -> (r: Entry<'a>)
        requires
            world.wf(),
            world.valid_location(location),
        ensures
            r.location == location,
            r.world == world,
            r.wf(),
    {
        Entry { location, world }
    }

    /// The archetype this entity belongs to.
    pub fn entity_type(&self) -> (r: &'a EntityType)
        requires
            self.wf(),
        ensures
            r == &self.world.entity_types@[self.location.type_id.id as int],
    {
        &self.world.entity_types[self.location.entity_type().id()]
    }

    /// Where the entity lives.
    pub fn location(&self) -> (r: EntityLocation)
        ensures
            r == self.location,
    {
        self.location
    }

    /// Whether the entity's archetype carries `component_type`.
    pub fn has_component(&self, component_type: ComponentTypeIndex) -> (r: bool)
        requires
            self.wf(),
        ensures
            r == self.world.entity_types@[self.location.type_id.id as int].layout.spec_contains(
                component_type,
            ),
    {
        self.entity_type().contains_component(component_type)
    }

    /// The bytes of the entity's component of type `component_type`, copied
    /// out of its archetype's array; an error if the archetype does not
    /// carry that type.
    pub fn get_component(&self, component_type: ComponentTypeIndex) -> (r: Result<Vec<u8>, ()>)
        requires
            self.wf(),
        ensures
            ({
                let a = self.location.type_id.id as int;
                let row = self.location.component_id.id as int;
                &&& r is Ok <==> self.world.entity_types@[a].layout.spec_contains(component_type)
                &&& r is Ok ==> {
                    let st = self.world.components@[component_type];
                    r->Ok_0@ == chunk_at(st.spec_bytes(a), st.spec_elem_size(), row)
                }
            }),
    {
        let ghost a_g = self.location.type_id.id as int;
        let entity_type_index = self.location.entity_type();
        let row = self.location.component().id();
        let carried = self.entity_type().contains_component(component_type);
        if !carried {
            return Err(());
        }
        let storage_opt = self.world.components().get_view(component_type);
        let storage = storage_opt.unwrap();
        let ghost st = *storage;
        proof {
            assert(st == self.world.components@[component_type]);
            assert(st.wf());
            assert(st.spec_registered(a_g));
            assert(st.spec_elems(a_g) == self.world.entity_types@[a_g].entities@.len());
        }
        let size = storage.metadata().size();
        let bytes_opt = storage.get_bytes(entity_type_index);
        let (bytes, elems) = bytes_opt.unwrap();
        proof {
            assert(bytes@ == st.spec_bytes(a_g));
            assert(elems == st.spec_elems(a_g));
            assert(row < elems);
            assert(bytes@.len() == elems * size) by {
                assert(st.spec_slot(a_g) < st.components@.len());
                assert(st.components@[st.spec_slot(a_g)].wf(st.spec_elem_size()));
            }
            assert(row * size + size <= elems * size) by (nonlinear_arith)
                requires
                    row + 1 <= elems,
                    0 <= size,
            ;
            assert(0 <= row * size) by (nonlinear_arith)
                requires
                    0 <= row,
                    0 <= size,
            ;
        }
        let bytes_len = bytes.len();
        let base = row * size;
        let mut chunk: Vec<u8> = Vec::new();
        let mut k: usize = 0;
        while k < size
            invariant
                0 <= k <= size,
                base == row * size,
                base + size <= bytes_len,
                bytes_len == bytes@.len(),
                chunk@.len() == k,
                forall|j: int| 0 <= j < k ==> chunk@[j] == bytes@[base + j],
            decreases size - k,
        {
            chunk.push(bytes[base + k]);
            k = k + 1;
        }
        proof {
            assert(chunk@ =~= chunk_at(st.spec_bytes(a_g), st.spec_elem_size(), row as int));
        }
        Ok(chunk)
    }
}


/// After a clear the world is empty: it reports length zero and contains no
/// entity.
pub proof fn lemma_clear_leaves_empty(w0: World, w1: World)
    requires
        World::cleared_post(w0, w1),
    ensures
        w1.spec_len() == 0,
        forall|e: Entity| !w1.spec_contains(e),
{
    assert forall|e: Entity| !w1.spec_contains(e) by {
        assert(!Map::<Entity, EntityLocation>::empty().contains_key(e));
    }
}

} // verus!













