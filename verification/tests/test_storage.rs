use realm::compactable::{ComponentArray, CompactableStorage};
use realm::component::ComponentTypeIndex;
use realm::entity::Entity;
use realm::storage::{
    ComponentIndex,
    ComponentMetadata,
    EntityLayout,
    EntityLocation,
    EntityLocationMap,
    EntityType,
    EntityTypeIndex,
    OpaqueComponentStorage,
};

fn usize_bytes(values: &[usize]) -> Vec<u8> {
    let mut bytes = Vec::new();
    for v in values {
        bytes.extend_from_slice(&v.to_le_bytes());
    }
    bytes
}

fn archetype(id: usize) -> EntityTypeIndex {
    EntityTypeIndex::new(id)
}

#[test]
fn test_typed_storage_bulk_append_and_swap_remove_middle() {
    let mut storage: CompactableStorage<usize> = CompactableStorage::new();
    storage.insert_entity_type(archetype(0));
    let mut values: Vec<usize> = vec![1, 2, 3, 4, 5];
    storage.extend_memcopy(archetype(0), &mut values);

    storage.swap_remove(archetype(0), ComponentIndex::new(2));

    assert_eq!(storage.get(archetype(0)).unwrap().as_slice(), &[1, 2, 5, 4]);
    assert_eq!(storage.len(), 4);
}

#[test]
fn test_typed_storage_swap_remove_first() {
    let mut storage: CompactableStorage<usize> = CompactableStorage::new();
    storage.insert_entity_type(archetype(0));
    let mut values: Vec<usize> = vec![1, 2, 3, 4, 5];
    storage.extend_memcopy(archetype(0), &mut values);

    storage.swap_remove(archetype(0), ComponentIndex::new(0));

    assert_eq!(storage.get(archetype(0)).unwrap().as_slice(), &[5, 2, 3, 4]);
}

#[test]
fn test_typed_storage_swap_remove_last() {
    let mut storage: CompactableStorage<usize> = CompactableStorage::new();
    storage.insert_entity_type(archetype(0));
    let mut values: Vec<usize> = vec![1, 2, 3, 4, 5];
    storage.extend_memcopy(archetype(0), &mut values);

    storage.swap_remove(archetype(0), ComponentIndex::new(4));

    assert_eq!(storage.get(archetype(0)).unwrap().as_slice(), &[1, 2, 3, 4]);
}

#[test]
fn test_component_array_grow_and_append() {
    let mut array: ComponentArray<u32> = ComponentArray::new();
    array.grow(4);
    array.reserve(2);
    let mut values: Vec<u32> = vec![7, 8, 9];
    array.extend_memcopy(&mut values);

    assert_eq!(array.len(), 3);
    assert!(values.is_empty());
    assert_eq!(array.data, vec![7, 8, 9]);
}

#[test]
fn test_typed_storage_iterates_per_archetype_arrays() {
    let mut storage: CompactableStorage<usize> = CompactableStorage::new();
    storage.insert_entity_type(archetype(0));
    storage.insert_entity_type(archetype(1));
    let mut first: Vec<usize> = vec![1, 2];
    let mut second: Vec<usize> = vec![3];
    storage.extend_memcopy(archetype(0), &mut first);
    storage.extend_memcopy(archetype(1), &mut second);

    let mut iter = storage.iter();
    assert_eq!(iter.next().unwrap().into_slice(), &[1, 2]);
    assert_eq!(iter.next().unwrap().into_slice(), &[3]);
    assert!(iter.next().is_none());
}

#[test]
fn test_opaque_storage_swap_remove_bytes() {
    let word = core::mem::size_of::<usize>();
    let mut storage = OpaqueComponentStorage::new(ComponentMetadata::new(word, word));
    storage.insert_entity_type(archetype(0));
    storage.extend_memcopy_raw(archetype(0), &usize_bytes(&[1, 2, 3, 4, 5]), 5);

    let removed = storage.swap_remove(archetype(0), ComponentIndex::new(2));

    assert_eq!(removed, usize_bytes(&[3]));
    let (bytes, elems) = storage.get_bytes(archetype(0)).unwrap();
    assert_eq!(elems, 4);
    assert_eq!(bytes, &usize_bytes(&[1, 2, 5, 4]));
}

#[test]
fn test_opaque_storage_move_component_between_archetypes() {
    let word = core::mem::size_of::<usize>();
    let mut storage = OpaqueComponentStorage::new(ComponentMetadata::new(word, word));
    storage.insert_entity_type(archetype(0));
    storage.insert_entity_type(archetype(1));
    storage.extend_memcopy_raw(archetype(0), &usize_bytes(&[10, 20, 30]), 3);

    storage.move_component(archetype(0), ComponentIndex::new(0), archetype(1));

    let (src, src_elems) = storage.get_bytes(archetype(0)).unwrap();
    let (dst, dst_elems) = storage.get_bytes(archetype(1)).unwrap();
    assert_eq!(src_elems, 2);
    assert_eq!(src, &usize_bytes(&[30, 20]));
    assert_eq!(dst_elems, 1);
    assert_eq!(dst, &usize_bytes(&[10]));
}

#[test]
fn test_opaque_storage_transfer_component_between_storages() {
    let word = core::mem::size_of::<usize>();
    let mut source = OpaqueComponentStorage::new(ComponentMetadata::new(word, word));
    let mut destination = OpaqueComponentStorage::new(ComponentMetadata::new(word, word));
    source.insert_entity_type(archetype(0));
    destination.insert_entity_type(archetype(1));
    source.extend_memcopy_raw(archetype(0), &usize_bytes(&[7, 8]), 2);
    destination.extend_memcopy_raw(archetype(1), &usize_bytes(&[9]), 1);

    source.transfer_component(archetype(0), ComponentIndex::new(1), archetype(1), &mut destination);

    let (src, _) = source.get_bytes(archetype(0)).unwrap();
    let (dst, _) = destination.get_bytes(archetype(1)).unwrap();
    assert_eq!(src, &usize_bytes(&[7]));
    assert_eq!(dst, &usize_bytes(&[9, 8]));
}

#[test]
fn test_opaque_storage_transfer_entity_type_into_empty_swaps() {
    let word = core::mem::size_of::<usize>();
    let mut source = OpaqueComponentStorage::new(ComponentMetadata::new(word, word));
    let mut destination = OpaqueComponentStorage::new(ComponentMetadata::new(word, word));
    source.insert_entity_type(archetype(0));
    destination.insert_entity_type(archetype(1));
    source.extend_memcopy_raw(archetype(0), &usize_bytes(&[1, 2, 3]), 3);

    source.transfer_entity_type(archetype(0), archetype(1), &mut destination);

    let (src, src_elems) = source.get_bytes(archetype(0)).unwrap();
    let (dst, dst_elems) = destination.get_bytes(archetype(1)).unwrap();
    assert_eq!(src_elems, 0);
    assert!(src.is_empty());
    assert_eq!(dst_elems, 3);
    assert_eq!(dst, &usize_bytes(&[1, 2, 3]));
    assert_eq!(source.len(), 0);
    assert_eq!(destination.len(), 3);
}

#[test]
fn test_opaque_storage_transfer_entity_type_appends_to_nonempty() {
    let word = core::mem::size_of::<usize>();
    let mut source = OpaqueComponentStorage::new(ComponentMetadata::new(word, word));
    let mut destination = OpaqueComponentStorage::new(ComponentMetadata::new(word, word));
    source.insert_entity_type(archetype(0));
    destination.insert_entity_type(archetype(1));
    source.extend_memcopy_raw(archetype(0), &usize_bytes(&[1, 2]), 2);
    destination.extend_memcopy_raw(archetype(1), &usize_bytes(&[9]), 1);

    source.transfer_entity_type(archetype(0), archetype(1), &mut destination);

    let (src, src_elems) = source.get_bytes(archetype(0)).unwrap();
    let (dst, dst_elems) = destination.get_bytes(archetype(1)).unwrap();
    assert_eq!(src_elems, 0);
    assert!(src.is_empty());
    assert_eq!(dst_elems, 3);
    assert_eq!(dst, &usize_bytes(&[9, 1, 2]));
}

#[test]
fn test_entity_location_map_set_get_remove() {
    let mut map = EntityLocationMap::new();
    let location = EntityLocation::new(EntityTypeIndex::new(0), ComponentIndex::new(3));
    let other = EntityLocation::new(EntityTypeIndex::new(1), ComponentIndex::new(0));

    assert!(map.is_empty());
    assert_eq!(map.set(Entity(7), location), None);
    assert_eq!(map.len(), 1);
    assert!(map.contains(Entity(7)));
    assert_eq!(map.get(Entity(7)), Some(location));
    assert_eq!(map.set(Entity(7), other), Some(location));
    assert_eq!(map.len(), 1);
    assert_eq!(map.remove(Entity(7)), Some(other));
    assert_eq!(map.remove(Entity(7)), None);
    assert!(map.is_empty());
}

#[test]
fn test_layout_records_types_and_metadata() {
    let mut layout = EntityLayout::new();
    let first = ComponentTypeIndex::new(1);
    let second = ComponentTypeIndex::new(2);
    layout.register_component(first, ComponentMetadata::new(12, 4));
    layout.register_component(second, ComponentMetadata::new(8, 8));

    assert_eq!(layout.component_types().len(), 2);
    assert!(layout.contains_component(first));
    assert!(layout.contains_component(second));
    assert!(!layout.contains_component(ComponentTypeIndex::new(3)));
    assert_eq!(layout.get_constructor_unchecked(second).size(), 8);
    assert_eq!(layout.get_constructor_unchecked(first).alignment(), 4);
    assert_eq!(layout.constructors().len(), 2);
}

#[test]
fn test_entity_type_tracks_rows() {
    let mut layout = EntityLayout::new();
    layout.register_component(ComponentTypeIndex::new(1), ComponentMetadata::new(4, 4));
    let mut entity_type = EntityType::new(EntityTypeIndex::new(0), layout);
    entity_type.push(Entity(0));
    entity_type.push(Entity(1));
    entity_type.push(Entity(2));

    let removed = entity_type.swap_remove(0);

    assert_eq!(removed, Entity(0));
    assert_eq!(entity_type.entities().as_slice(), &[Entity(2), Entity(1)]);
    assert!(entity_type.contains_component_value(1));
    assert!(!entity_type.contains_component_value(2));
}

#[test]
fn test_component_metadata_padding() {
    let metadata = ComponentMetadata::new(4, 8);
    assert_eq!(metadata.size(), 4);
    assert_eq!(metadata.alignment(), 8);
    assert_eq!(metadata.padding(), 4);
}

#[test]
fn test_typed_storage_mutable_access() {
    let mut storage: CompactableStorage<usize> = CompactableStorage::new();
    storage.insert_entity_type(archetype(0));
    let mut values: Vec<usize> = vec![1, 2, 3];
    storage.extend_memcopy(archetype(0), &mut values);

    storage.get_mut(archetype(0))[0] = 9;
    assert_eq!(storage.get(archetype(0)).unwrap().as_slice(), &[9, 2, 3]);

    let mut iter = storage.iter_mut();
    let view = iter.next().unwrap();
    let slice = view.into_slice();
    slice[2] = 7;
    assert!(iter.next().is_none());
    assert_eq!(storage.get(archetype(0)).unwrap().as_slice(), &[9, 2, 7]);
}

#[test]
fn test_swap_remove_order_is_commutative_up_to_multiset() {
    let mut forward: CompactableStorage<usize> = CompactableStorage::new();
    let mut backward: CompactableStorage<usize> = CompactableStorage::new();
    forward.insert_entity_type(archetype(0));
    backward.insert_entity_type(archetype(0));
    let mut values: Vec<usize> = vec![10, 20, 30, 40, 50];
    forward.extend_memcopy(archetype(0), &mut values);
    let mut values: Vec<usize> = vec![10, 20, 30, 40, 50];
    backward.extend_memcopy(archetype(0), &mut values);

    // remove rows 1 and 4: forward removes 1 first (4 becomes the moved
    // last row, so the adjusted index is 1); backward removes 4 first
    forward.swap_remove(archetype(0), ComponentIndex::new(1));
    forward.swap_remove(archetype(0), ComponentIndex::new(1));
    backward.swap_remove(archetype(0), ComponentIndex::new(4));
    backward.swap_remove(archetype(0), ComponentIndex::new(1));

    let mut left = forward.get(archetype(0)).unwrap().clone();
    let mut right = backward.get(archetype(0)).unwrap().clone();
    left.sort();
    right.sort();
    assert_eq!(left, vec![10, 30, 40]);
    assert_eq!(right, vec![10, 30, 40]);
}
