use hourglass::handle::HandleAllocator;
use hourglass::slot_vec::{GenerationalVec, HandleNotFoundError};
use hourglass::world::{entity_has_component, World};

const POSITION: u64 = 0;
const HEALTH: u64 = 1;
const NAME: u64 = 2;

const DELTA_TIME: u64 = 0;

#[derive(Debug, Default, PartialEq, Copy, Clone)]
struct Position {
    x: f32,
    y: f32,
}

#[derive(Debug, Default, PartialEq, Eq, Copy, Clone)]
struct Health {
    value: u8,
}

#[derive(Debug, PartialEq, Clone)]
enum Component {
    Position(Position),
    Health(Health),
    Name(String),
}

#[derive(Debug, PartialEq)]
struct DeltaTime(f32);

type TestWorld = World<Component, DeltaTime>;

/// Translate only named entities.
fn translation_system(value: f32, world: &mut TestWorld) -> Result<(), HandleNotFoundError> {
    let entities = world
        .query(&[POSITION, NAME, HEALTH])
        .unwrap_or_else(|error| {
            panic!(
                "System accessed an unregistered component type: {:?}",
                error.type_id
            )
        });
    for entity in entities {
        if let Some(Component::Position(position)) = world.get_component_mut(entity, POSITION) {
            position.x += value;
            position.y += value;
        }
    }
    Ok(())
}

/// This runs for each entity but ensures we can access and mutate
/// resources from systems.
fn resource_system(value: f32, world: &mut TestWorld) -> Result<(), HandleNotFoundError> {
    let entities = world.query(&[POSITION]).unwrap_or_else(|error| {
        panic!(
            "System accessed an unregistered component type: {:?}",
            error.type_id
        )
    });
    for _entity in entities {
        world.resources_mut().insert(DELTA_TIME, DeltaTime(value));
    }
    Ok(())
}

#[test]
fn entity() {
    let mut world = TestWorld::default();
    let entity = world.create_entity();
    world
        .add_component(entity, POSITION, Component::Position(Position::default()))
        .unwrap();
    assert!(world.get_component(entity, POSITION).is_some());
    world.remove_entity(entity);
    assert!(world.get_component(entity, POSITION).is_none());
}

#[test]
fn add_component() {
    let mut world = TestWorld::default();
    let entity = world.create_entity();
    assert!(world.get_component(entity, POSITION).is_none());
    assert!(world.get_component(entity, HEALTH).is_none());
    world
        .add_component(entity, POSITION, Component::Position(Position::default()))
        .unwrap();
    world
        .add_component(entity, HEALTH, Component::Health(Health { value: 10 }))
        .unwrap();
    if let Some(Component::Health(health)) = world.get_component_mut(entity, HEALTH) {
        health.value = 0;
    } else {
        panic!("Health component not found.");
    }
    assert_eq!(
        world.get_component(entity, POSITION),
        Some(&Component::Position(Position::default()))
    );
    assert_eq!(
        world.get_component(entity, HEALTH),
        Some(&Component::Health(Health { value: 0 }))
    );
}

#[test]
fn remove_component() {
    let mut world = TestWorld::new();
    let entity = world.create_entity();
    let position = Position { x: 10.0, y: 10.0 };
    world
        .add_component(entity, POSITION, Component::Position(position))
        .unwrap();
    assert_eq!(
        world.get_component(entity, POSITION),
        Some(&Component::Position(position))
    );
    world.remove_component(entity, POSITION).unwrap();
    assert!(world.get_component(entity, POSITION).is_none());
}

#[test]
fn get_component() {
    let mut world = TestWorld::default();
    let entity = world.create_entity();
    world
        .add_component(entity, POSITION, Component::Position(Position::default()))
        .unwrap();
    assert!(world.has_component(entity, POSITION));
    assert_eq!(
        world.get_component(entity, POSITION),
        Some(&Component::Position(Position::default()))
    );
}

#[test]
fn get_component_mut() {
    let mut world = TestWorld::default();
    let entity = world.create_entity();
    world
        .add_component(entity, POSITION, Component::Position(Position::default()))
        .unwrap();
    if let Some(Component::Position(position)) = world.get_component_mut(entity, POSITION) {
        position.x = 10.0;
    } else {
        panic!("Position component not found.");
    }
    assert_eq!(
        world.get_component(entity, POSITION),
        Some(&Component::Position(Position { x: 10.0, y: 0.0 }))
    );
}

#[test]
fn system() {
    let mut world = TestWorld::default();
    let entity = world.create_entity();
    world
        .add_component(entity, POSITION, Component::Position(Position::default()))
        .unwrap();
    world
        .add_component(entity, HEALTH, Component::Health(Health::default()))
        .unwrap();
    world
        .add_component(entity, NAME, Component::Name("Tyrell Wellick".to_string()))
        .unwrap();

    translation_system(10.0, &mut world).unwrap();

    assert_eq!(
        world.get_component(entity, POSITION),
        Some(&Component::Position(Position { x: 10.0, y: 10.0 }))
    );
}

#[test]
fn component_exists() {
    let mut entity_allocator = HandleAllocator::new();
    let entity = entity_allocator.allocate();

    let mut components: GenerationalVec<Component> = GenerationalVec::new(vec![]);
    components
        .insert(entity, Component::Name("Elliot Alderson".to_string()))
        .unwrap();

    assert!(entity_has_component(entity, &components));
}

#[test]
fn system_resources() {
    let mut world = TestWorld::default();

    let entity = world.create_entity();
    world
        .add_component(entity, POSITION, Component::Position(Position::default()))
        .unwrap();

    let value = 0.18;
    resource_system(value, &mut world).unwrap();

    assert_eq!(
        world.resources().get(DELTA_TIME),
        Some(&DeltaTime(value))
    );
}

#[test]
fn world_resources() {
    let mut world = TestWorld::default();
    let value = 0.18;
    world.resources_mut().insert(DELTA_TIME, DeltaTime(value));
    assert_eq!(
        world.resources().get(DELTA_TIME),
        Some(&DeltaTime(value))
    );
}

#[test]
#[should_panic]
fn unregistered_component() {
    let mut world = TestWorld::default();
    world.get_component_vec_mut(POSITION).unwrap();
}

#[test]
#[should_panic]
fn system_accessed_unregistered_component() {
    let mut world = TestWorld::new();
    translation_system(0.14, &mut world).unwrap();
}

#[test]
fn component_registration() {
    let mut world = TestWorld::default();

    assert!(world.get_component_vec_mut(POSITION).is_none());

    let entity = world.create_entity();
    world
        .add_component(entity, POSITION, Component::Position(Position::default()))
        .unwrap();

    assert!(world.get_component_vec_mut(POSITION).is_some());
}
