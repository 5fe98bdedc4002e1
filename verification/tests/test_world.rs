use realm::component::ComponentTypeIndex;
use realm::storage::ComponentMetadata;
use realm::storage::{ComponentView, ComponentViewMut, OpaqueComponentStorage};
use realm::world::{ComponentData, ComponentMap, Entry, LayoutFilter, PairFilter, SingleEntity, World};

struct Position {
    x: f32,
    y: f32,
    z: f32,
}

impl Position {
    fn new(x: f32, y: f32, z: f32) -> Self {
        Self { x, y, z }
    }

    fn to_bytes(&self) -> Vec<u8> {
        let mut bytes = Vec::new();
        bytes.extend_from_slice(&self.x.to_le_bytes());
        bytes.extend_from_slice(&self.y.to_le_bytes());
        bytes.extend_from_slice(&self.z.to_le_bytes());
        bytes
    }
}

struct Velocity {
    x: f32,
    y: f32,
    z: f32,
}

impl Velocity {
    fn new(x: f32, y: f32, z: f32) -> Self {
        Self { x, y, z }
    }

    fn to_bytes(&self) -> Vec<u8> {
        let mut bytes = Vec::new();
        bytes.extend_from_slice(&self.x.to_le_bytes());
        bytes.extend_from_slice(&self.y.to_le_bytes());
        bytes.extend_from_slice(&self.z.to_le_bytes());
        bytes
    }
}

fn position_type() -> ComponentTypeIndex {
    ComponentTypeIndex::new(1)
}

fn velocity_type() -> ComponentTypeIndex {
    ComponentTypeIndex::new(2)
}

fn acceleration_type() -> ComponentTypeIndex {
    ComponentTypeIndex::new(3)
}

fn triple_metadata() -> ComponentMetadata {
    ComponentMetadata::new(12, 4)
}

fn position_data(position: &Position) -> ComponentData {
    ComponentData::new(position_type(), triple_metadata(), position.to_bytes())
}

fn velocity_data(velocity: &Velocity) -> ComponentData {
    ComponentData::new(velocity_type(), triple_metadata(), velocity.to_bytes())
}

fn pair(position: Position, velocity: Velocity) -> SingleEntity {
    SingleEntity::new(position_data(&position), velocity_data(&velocity))
}

#[test]
fn test_empty_entity_store_is_empty() {
    let world = World::new();

    assert!(world.is_empty());
}

#[test]
fn test_empty_entity_storage_has_zero_length() {
    let world = World::new();

    assert_eq!(world.len(), 0);
}

#[test]
fn test_entity_storage_with_one_element_is_not_empty() {
    let mut world = World::new();
    let _ = world.push(pair(
        Position::new(0_f32, 0_f32, 0_f32),
        Velocity::new(1_f32, 1_f32, 1_f32),
    ));

    assert!(!world.is_empty());
}

#[test]
fn test_entity_storage_with_one_element_contains() {
    let mut world = World::new();
    let entity = world.push(pair(
        Position::new(0_f32, 0_f32, 0_f32),
        Velocity::new(1_f32, 1_f32, 1_f32),
    ));

    assert!(world.contains(entity));
}

#[test]
fn test_entity_storage_has_components() {
    let mut world = World::new();
    let entity = world.push(pair(
        Position::new(0_f32, 0_f32, 0_f32),
        Velocity::new(1_f32, 1_f32, 1_f32),
    ));

    assert!(world.has_component(position_type(), entity));
    assert!(world.has_component(velocity_type(), entity));
    assert!(!world.has_component(acceleration_type(), entity));
}

#[test]
fn test_entity_storage_contains_components() {
    let mut world = World::new();
    let _ = world.push(pair(
        Position::new(0_f32, 0_f32, 0_f32),
        Velocity::new(1_f32, 1_f32, 1_f32),
    ));

    assert!(world.contains_component(position_type()));
    assert!(world.contains_component(velocity_type()));
    assert!(!world.contains_component(acceleration_type()));
}

#[test]
fn test_entity_storage_push_multiple_elements() {
    let mut world = World::new();
    let _ = world.push(pair(
        Position::new(0_f32, 0_f32, 0_f32),
        Velocity::new(0_f32, 0_f32, 0_f32),
    ));
    let _ = world.push(pair(
        Position::new(1_f32, 1_f32, 1_f32),
        Velocity::new(1_f32, 1_f32, 1_f32),
    ));
    let _ = world.push(pair(
        Position::new(2_f32, 2_f32, 2_f32),
        Velocity::new(2_f32, 2_f32, 2_f32),
    ));

    assert_eq!(world.len(), 3);
}

#[test]
fn test_entity_storage_push_multiple_elements_clear() {
    let mut world = World::new();
    let _ = world.push(pair(
        Position::new(0_f32, 0_f32, 0_f32),
        Velocity::new(0_f32, 0_f32, 0_f32),
    ));
    let _ = world.push(pair(
        Position::new(1_f32, 1_f32, 1_f32),
        Velocity::new(1_f32, 1_f32, 1_f32),
    ));
    let _ = world.push(pair(
        Position::new(2_f32, 2_f32, 2_f32),
        Velocity::new(2_f32, 2_f32, 2_f32),
    ));

    world.clear();

    assert!(world.is_empty());
}

#[test]
fn test_entity_storage_push_multiple_elements_remove() {
    let mut world = World::new();
    let entity0 = world.push(pair(
        Position::new(0_f32, 0_f32, 0_f32),
        Velocity::new(0_f32, 0_f32, 0_f32),
    ));
    let entity1 = world.push(pair(
        Position::new(1_f32, 1_f32, 1_f32),
        Velocity::new(1_f32, 1_f32, 1_f32),
    ));
    let entity2 = world.push(pair(
        Position::new(2_f32, 2_f32, 2_f32),
        Velocity::new(2_f32, 2_f32, 2_f32),
    ));

    assert!(world.contains(entity0));
    assert!(world.contains(entity1));
    assert!(world.contains(entity2));

    world.remove(entity1);
    assert!(!world.contains(entity1));

    world.remove(entity2);
    assert!(!world.contains(entity2));

    world.remove(entity0);
    assert!(!world.contains(entity0));

    assert!(world.is_empty());
}

#[test]
fn test_remove_swaps_last_row_into_place() {
    let mut world = World::new();
    let _entity0 = world.push(pair(
        Position::new(0_f32, 0_f32, 0_f32),
        Velocity::new(0_f32, 0_f32, 0_f32),
    ));
    let entity1 = world.push(pair(
        Position::new(1_f32, 1_f32, 1_f32),
        Velocity::new(1_f32, 1_f32, 1_f32),
    ));
    let _entity2 = world.push(pair(
        Position::new(2_f32, 2_f32, 2_f32),
        Velocity::new(2_f32, 2_f32, 2_f32),
    ));

    world.remove(entity1);

    let archetype = world.entity_types()[0].index();
    let storage = world.components().get_view(position_type()).unwrap();
    let (bytes, elems) = storage.get_bytes(archetype).unwrap();
    assert_eq!(elems, 2);
    let mut expected = Position::new(0_f32, 0_f32, 0_f32).to_bytes();
    expected.extend_from_slice(&Position::new(2_f32, 2_f32, 2_f32).to_bytes());
    assert_eq!(bytes, &expected);
}

#[test]
fn test_same_ordered_pair_reuses_archetype() {
    let mut world = World::new();
    let _ = world.push(pair(
        Position::new(0_f32, 0_f32, 0_f32),
        Velocity::new(0_f32, 0_f32, 0_f32),
    ));
    let _ = world.push(pair(
        Position::new(1_f32, 1_f32, 1_f32),
        Velocity::new(1_f32, 1_f32, 1_f32),
    ));

    assert_eq!(world.entity_types().len(), 1);
}

#[test]
fn test_swapped_pair_reuses_archetype() {
    let mut world = World::new();
    let _ = world.push(pair(
        Position::new(0_f32, 0_f32, 0_f32),
        Velocity::new(0_f32, 0_f32, 0_f32),
    ));
    let velocity = Velocity::new(1_f32, 1_f32, 1_f32);
    let position = Position::new(1_f32, 1_f32, 1_f32);
    let swapped = SingleEntity::new(velocity_data(&velocity), position_data(&position));
    let entity = world.push(swapped);

    assert_eq!(world.entity_types().len(), 1);
    assert!(world.contains(entity));
    assert_eq!(world.len(), 2);
}

#[test]
fn test_zero_sized_components_preserve_length() {
    let mut world = World::new();
    let marker = ComponentData::new(ComponentTypeIndex::new(10), ComponentMetadata::new(0, 1), Vec::new());
    let tag = ComponentData::new(ComponentTypeIndex::new(11), ComponentMetadata::new(0, 1), Vec::new());
    let first = world.push(SingleEntity::new(marker, tag));

    assert_eq!(world.len(), 1);
    assert!(world.contains(first));

    let marker = ComponentData::new(ComponentTypeIndex::new(10), ComponentMetadata::new(0, 1), Vec::new());
    let tag = ComponentData::new(ComponentTypeIndex::new(11), ComponentMetadata::new(0, 1), Vec::new());
    let second = world.push(SingleEntity::new(marker, tag));

    assert_eq!(world.len(), 2);
    world.remove(first);
    assert_eq!(world.len(), 1);
    assert!(world.contains(second));
}

#[test]
fn test_single_entity_archetype_swap_remove_leaves_it_empty() {
    let mut world = World::new();
    let entity = world.push(pair(
        Position::new(4_f32, 5_f32, 6_f32),
        Velocity::new(0_f32, 0_f32, 0_f32),
    ));

    let removed = world.remove(entity);

    assert!(removed);
    assert!(world.is_empty());
    assert!(world.entity_types()[0].entities().is_empty());
    assert!(!world.remove(entity));
}

#[test]
fn test_clear_twice_equals_clear_once() {
    let mut world = World::new();
    let _ = world.push(pair(
        Position::new(0_f32, 0_f32, 0_f32),
        Velocity::new(0_f32, 0_f32, 0_f32),
    ));

    world.clear();
    assert!(world.is_empty());
    assert_eq!(world.len(), 0);
    let archetypes = world.entity_types().len();

    world.clear();
    assert!(world.is_empty());
    assert_eq!(world.len(), 0);
    assert_eq!(world.entity_types().len(), archetypes);
}

#[test]
fn test_extend_returns_new_entities() {
    let mut world = World::new();
    let new_entities = world
        .extend(pair(
            Position::new(0_f32, 0_f32, 0_f32),
            Velocity::new(1_f32, 1_f32, 1_f32),
        ))
        .clone();

    assert_eq!(new_entities.len(), 1);
    assert!(world.contains(new_entities[0]));
}

#[test]
fn test_entry_reads_component_bytes() {
    let mut world = World::new();
    let entity = world.push(pair(
        Position::new(1_f32, 2_f32, 3_f32),
        Velocity::new(4_f32, 5_f32, 6_f32),
    ));
    let mut others = Vec::new();
    others.push(world.push(pair(
        Position::new(7_f32, 7_f32, 7_f32),
        Velocity::new(8_f32, 8_f32, 8_f32),
    )));

    let location = {
        let mut found = None;
        for candidate in world.entity_types()[0].entities().iter().enumerate() {
            let (row, e) = candidate;
            if *e == entity {
                found = Some(row);
            }
        }
        found.unwrap()
    };
    assert_eq!(location, 0);
    let entry_location = realm::storage::EntityLocation::new(
        world.entity_types()[0].index(),
        realm::storage::ComponentIndex::new(0),
    );
    let entry = Entry::new(entry_location, &world);
    assert_eq!(entry.location(), entry_location);
    assert!(entry.has_component(position_type()));
    assert_eq!(
        entry.get_component(position_type()).unwrap(),
        Position::new(1_f32, 2_f32, 3_f32).to_bytes()
    );
    assert_eq!(entry.get_component(acceleration_type()), Err(()));
    assert_eq!(entry.entity_type().index(), world.entity_types()[0].index());
}

#[test]
fn test_push_remove_round_trip_restores_length() {
    let mut world = World::new();
    let _anchor = world.push(pair(
        Position::new(0_f32, 0_f32, 0_f32),
        Velocity::new(0_f32, 0_f32, 0_f32),
    ));
    let before = world.len();

    let entity = world.push(pair(
        Position::new(9_f32, 9_f32, 9_f32),
        Velocity::new(9_f32, 9_f32, 9_f32),
    ));
    assert_eq!(world.len(), before + 1);

    let removed = world.remove(entity);

    assert!(removed);
    assert_eq!(world.len(), before);
    assert!(!world.contains(entity));
}

#[test]
fn test_pair_filter_is_order_insensitive() {
    let filter = PairFilter { first: position_type(), second: velocity_type() };

    let ordered = vec![position_type(), velocity_type()];
    let swapped = vec![velocity_type(), position_type()];
    let too_few = vec![position_type()];
    let wrong = vec![position_type(), acceleration_type()];

    assert!(filter.matches_layout(&ordered));
    assert!(filter.matches_layout(&swapped));
    assert!(!filter.matches_layout(&too_few));
    assert!(!filter.matches_layout(&wrong));
}

#[test]
fn test_component_map_write_session_claims_each_type_once() {
    let mut map = ComponentMap::new();
    let storage = map.get_or_insert_with(position_type(), triple_metadata());
    assert_eq!(storage.metadata().size(), 12);
    assert!(map.contains_component(position_type()));
    assert!(!map.contains_component(velocity_type()));
    assert!(map.get_view(position_type()).is_some());
    assert!(map.get_view(velocity_type()).is_none());

    let mut session = map.get_multi_view_mut();
    let claimed: Option<OpaqueComponentStorage> = session.claim(position_type());
    assert!(claimed.is_some());
    assert!(session.claim(position_type()).is_none());
    assert!(session.claim(velocity_type()).is_none());
    session.restore(position_type(), claimed.unwrap());
}

#[test]
fn test_component_views_expose_slices() {
    let values = vec![1u32, 2, 3];
    let view = ComponentView::new(values.as_slice());
    assert_eq!(view.into_slice(), &[1, 2, 3]);

    let mut mutable = vec![4u32, 5];
    let view_mut = ComponentViewMut::new(mutable.as_mut_slice());
    let slice = view_mut.into_slice();
    slice[0] = 9;
    assert_eq!(mutable, vec![9, 5]);
}

#[test]
fn test_every_location_points_back_at_its_entity() {
    let mut world = World::new();
    let a = world.push(pair(
        Position::new(0_f32, 0_f32, 0_f32),
        Velocity::new(0_f32, 0_f32, 0_f32),
    ));
    let b = world.push(pair(
        Position::new(1_f32, 1_f32, 1_f32),
        Velocity::new(1_f32, 1_f32, 1_f32),
    ));
    let c = world.push(pair(
        Position::new(2_f32, 2_f32, 2_f32),
        Velocity::new(2_f32, 2_f32, 2_f32),
    ));
    world.remove(b);

    for (archetype_index, archetype) in world.entity_types().iter().enumerate() {
        for (row, entity) in archetype.entities().iter().enumerate() {
            let location = world.entities.get(*entity).unwrap();
            assert_eq!(location.entity_type().id(), archetype_index);
            assert_eq!(location.component().id(), row);
        }
    }
    assert!(world.contains(a));
    assert!(world.contains(c));
}

#[test]
fn test_array_lengths_follow_entity_counts() {
    let mut world = World::new();
    let _ = world.push(pair(
        Position::new(0_f32, 0_f32, 0_f32),
        Velocity::new(0_f32, 0_f32, 0_f32),
    ));
    let keep = world.push(pair(
        Position::new(1_f32, 1_f32, 1_f32),
        Velocity::new(1_f32, 1_f32, 1_f32),
    ));

    let archetype = &world.entity_types()[0];
    let rows = archetype.entities().len();
    for type_id in archetype.layout().component_types().iter() {
        let storage = world.components().get_view(*type_id).unwrap();
        let (_, elems) = storage.get_bytes(archetype.index()).unwrap();
        assert_eq!(elems, rows);
    }
    assert!(world.contains(keep));
}

#[test]
fn test_world_length_is_sum_over_archetypes() {
    let mut world = World::new();
    let _ = world.push(pair(
        Position::new(0_f32, 0_f32, 0_f32),
        Velocity::new(0_f32, 0_f32, 0_f32),
    ));
    let marker = ComponentData::new(ComponentTypeIndex::new(10), ComponentMetadata::new(0, 1), Vec::new());
    let tag = ComponentData::new(ComponentTypeIndex::new(11), ComponentMetadata::new(0, 1), Vec::new());
    let _ = world.push(SingleEntity::new(marker, tag));

    let total: usize = world
        .entity_types()
        .iter()
        .map(|archetype| archetype.entities().len())
        .sum();
    assert_eq!(world.len(), total);
}

#[test]
fn test_archetypes_have_distinct_type_sets() {
    let mut world = World::new();
    let _ = world.push(pair(
        Position::new(0_f32, 0_f32, 0_f32),
        Velocity::new(0_f32, 0_f32, 0_f32),
    ));
    let marker = ComponentData::new(ComponentTypeIndex::new(10), ComponentMetadata::new(0, 1), Vec::new());
    let tag = ComponentData::new(ComponentTypeIndex::new(11), ComponentMetadata::new(0, 1), Vec::new());
    let _ = world.push(SingleEntity::new(marker, tag));

    assert_eq!(world.entity_types().len(), 2);
    let mut first: Vec<u64> = world.entity_types()[0]
        .layout()
        .component_types()
        .iter()
        .map(|t| t.id())
        .collect();
    let mut second: Vec<u64> = world.entity_types()[1]
        .layout()
        .component_types()
        .iter()
        .map(|t| t.id())
        .collect();
    first.sort();
    second.sort();
    assert_ne!(first, second);
}
