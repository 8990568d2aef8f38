use hourglass::app::AppConfig;
use hourglass::handle::HandleAllocator;
use hourglass::slot_vec::HandleNotFoundError;
use hourglass::world::World;

const POSITION: u64 = 0;
const NAME: u64 = 1;

#[derive(Debug, PartialEq, Clone)]
enum Component {
    Position(i32, i32),
    Name(String),
}

type TestWorld = World<Component, u32>;

#[test]
fn fresh_handles_never_collide() {
    let mut allocator = HandleAllocator::new();
    let handles = allocator.allocate_many(5);
    for i in 0..handles.len() {
        for j in 0..handles.len() {
            if i != j {
                assert_ne!(handles[i], handles[j]);
                assert_ne!(handles[i].index, handles[j].index);
            }
        }
        assert!(allocator.is_allocated(&handles[i]));
    }
    allocator.deallocate(&handles[2]);
    let reused = allocator.allocate();
    assert_ne!(reused, handles[2]);
    assert!(allocator.is_allocated(&reused));
}

#[test]
fn deallocated_handle_stays_dead() {
    let mut allocator = HandleAllocator::new();
    let first = allocator.allocate();
    allocator.deallocate(&first);
    assert!(!allocator.is_allocated(&first));

    let second = allocator.allocate();
    assert_eq!(second.index, first.index);
    assert!(!allocator.is_allocated(&first));
    assert!(allocator.is_allocated(&second));
}

#[test]
fn deallocate_is_idempotent() {
    let mut once = HandleAllocator::new();
    let mut twice = HandleAllocator::new();
    let a = once.allocate();
    let b = twice.allocate();
    once.deallocate(&a);
    twice.deallocate(&b);
    twice.deallocate(&b);
    assert_eq!(once.allocate(), twice.allocate());
}

#[test]
fn stale_handle_never_reaches_new_data() {
    let mut world = TestWorld::new();
    let e = world.create_entity();
    world
        .add_component(e, POSITION, Component::Position(1, 2))
        .unwrap();
    world.remove_entity(e);
    let replacement = world.create_entity();
    assert_ne!(replacement, e);
    world
        .add_component(replacement, POSITION, Component::Position(7, 8))
        .unwrap();

    assert_eq!(world.get_component(e, POSITION), None);
    assert!(!world.has_component(e, POSITION));
    assert_eq!(
        world.add_component(e, POSITION, Component::Position(0, 0)),
        Err(HandleNotFoundError { handle: e })
    );
    assert_eq!(
        world.remove_component(e, POSITION),
        Err(HandleNotFoundError { handle: e })
    );
    assert_eq!(
        world.get_component(replacement, POSITION),
        Some(&Component::Position(7, 8))
    );
}

#[test]
fn removing_an_entity_orphans_every_column() {
    let mut world = TestWorld::new();
    let e = world.create_entity();
    world
        .add_component(e, POSITION, Component::Position(3, 4))
        .unwrap();
    world
        .add_component(e, NAME, Component::Name("row".to_string()))
        .unwrap();
    world.remove_entity(e);
    assert_eq!(world.get_component(e, POSITION), None);
    assert_eq!(world.get_component(e, NAME), None);
}

#[test]
fn remove_component_is_idempotent() {
    let mut world = TestWorld::new();
    let e = world.create_entity();
    world
        .add_component(e, POSITION, Component::Position(5, 6))
        .unwrap();
    assert_eq!(world.remove_component(e, POSITION), Ok(()));
    assert_eq!(world.remove_component(e, POSITION), Ok(()));
    assert_eq!(world.get_component(e, POSITION), None);
}

#[test]
fn query_yields_exactly_the_shared_holders_in_order() {
    let mut world = TestWorld::new();
    let entities = world.create_entities(3);
    let (e0, e1, e2) = (entities[0], entities[1], entities[2]);

    world
        .add_component(e0, POSITION, Component::Position(0, 0))
        .unwrap();
    world
        .add_component(e2, POSITION, Component::Position(2, 2))
        .unwrap();
    world
        .add_component(e1, NAME, Component::Name("one".to_string()))
        .unwrap();
    world
        .add_component(e2, NAME, Component::Name("two".to_string()))
        .unwrap();

    assert_eq!(world.query(&[POSITION, NAME]), Ok(vec![e2]));
    assert_eq!(world.query(&[POSITION]), Ok(vec![e0, e2]));

    world.remove_entity(e2);
    assert_eq!(world.query(&[POSITION, NAME]), Ok(vec![]));
}

#[test]
fn query_reports_the_first_unregistered_type() {
    let mut world = TestWorld::new();
    world.register_component(POSITION);
    let error = world.query(&[POSITION, NAME]).unwrap_err();
    assert_eq!(error.type_id, NAME);
}

#[test]
fn registration_is_idempotent() {
    let mut world = TestWorld::new();
    assert!(world.get_component_vec(POSITION).is_none());
    world.register_component(POSITION);
    assert!(world.get_component_vec(POSITION).is_some());
    world.register_component(POSITION);
    assert!(world.get_component_vec(POSITION).is_some());
    assert_eq!(world.query(&[POSITION]), Ok(vec![]));
}

#[test]
fn remove_entities_spares_the_rest() {
    let mut world = TestWorld::new();
    let entities = world.create_entities(4);
    world.remove_entities(&[entities[0], entities[2]]);
    assert!(!world.entity_exists(entities[0]));
    assert!(world.entity_exists(entities[1]));
    assert!(!world.entity_exists(entities[2]));
    assert!(world.entity_exists(entities[3]));
}

#[test]
fn default_app_config() {
    let config = AppConfig::default();
    assert_eq!(config.width, 1920);
    assert_eq!(config.height, 1080);
    assert!(!config.is_fullscreen);
    assert_eq!(config.title, "Hourglass App".to_string());
    assert!(config.icon.is_none());
}
