use std::any::TypeId;

use breakout::bundle::Bundle;
use breakout::component::Component;
use breakout::component::ComponentId;
use breakout::component::ComponentInfo;
use breakout::component::Components;
use breakout::entity::Entities;
use breakout::entity::Entity;
use breakout::query::fetch;
use breakout::query::Item;
use breakout::query::Query;
use breakout::query::QueryError;
use breakout::query::QueryState;
use breakout::storage::downcast_mut;
use breakout::storage::downcast_ref;
use breakout::storage::Storages;
use breakout::storage::Tagged;
use breakout::world::World;

#[derive(Debug, Clone, Copy, PartialEq)]
struct Position(u8, u8);

#[derive(Debug, Clone, Copy, PartialEq)]
struct Velocity(u8);

#[derive(Debug, Clone, Copy, PartialEq)]
struct Life(u8);

#[derive(Debug, Clone, Copy, PartialEq)]
enum Value {
    Position(Position),
    Velocity(Velocity),
    Life(Life),
}

impl Component for Value {}

fn position() -> TypeId {
    TypeId::of::<Position>()
}

fn velocity() -> TypeId {
    TypeId::of::<Velocity>()
}

fn life() -> TypeId {
    TypeId::of::<Life>()
}

fn pos(x: u8, y: u8) -> Value {
    Value::Position(Position(x, y))
}

fn vel(v: u8) -> Value {
    Value::Velocity(Velocity(v))
}

fn some(v: Value) -> Item<Value> {
    Item::Component(Some(v))
}

fn none() -> Item<Value> {
    Item::Component(None)
}

#[test]
fn spawn_entities() {
    let mut world: World<Value> = World::new();
    let e1 = world.spawn(Bundle::new().with(position(), pos(0, 0)).with(velocity(), vel(1)));
    let e2 = world.spawn(Bundle::new().with(velocity(), vel(3)).with(position(), pos(1, 1)));
    assert_eq!(e1, Entity(0));
    assert_eq!(e2, Entity(1));
}

#[test]
fn query_components() {
    let mut world: World<Value> = World::new();
    let entity_1 = world.spawn(Bundle::new().with(position(), pos(0, 0)).with(velocity(), vel(1)));
    let query = world.query(&Query::new().read(position()).read(velocity()));
    let components = query.get(&world, entity_1).unwrap();
    assert_eq!(components, vec![some(pos(0, 0)), some(vel(1))]);
}

#[test]
fn registration_is_idempotent() {
    let mut world: World<Value> = World::new();
    let first = world.init_component(position());
    let second = world.init_component(position());
    assert_eq!(first, ComponentId(0));
    assert_eq!(first, second);
    assert_eq!(world.init_component(velocity()), ComponentId(1));
    assert!(world.bucket(ComponentId(0)).is_some());
    assert!(world.bucket(ComponentId(1)).is_some());
    assert!(world.bucket(ComponentId(2)).is_none());
}

#[test]
fn ids_are_dense_across_spawns() {
    let mut world: World<Value> = World::new();
    world.spawn(Bundle::new().with(velocity(), vel(1)));
    world.spawn(Bundle::new().with(life(), Value::Life(Life(2))).with(velocity(), vel(1)));
    world.spawn(Bundle::new().with(position(), pos(1, 2)).with(life(), Value::Life(Life(3))));
    assert_eq!(world.init_component(velocity()), ComponentId(0));
    assert_eq!(world.init_component(life()), ComponentId(1));
    assert_eq!(world.init_component(position()), ComponentId(2));
    assert!(world.bucket(ComponentId(3)).is_none());
}

#[test]
fn spawn_round_trip() {
    let mut world: World<Value> = World::new();
    let e = world.spawn(Bundle::new().with(position(), pos(4, 5)).with(velocity(), vel(6)));
    let query = world.query(&Query::new().read(position()).read(velocity()));
    assert_eq!(query.get(&world, e), Ok(vec![some(pos(4, 5)), some(vel(6))]));
}

#[test]
fn absent_component_reads_none() {
    let mut world: World<Value> = World::new();
    world.spawn(Bundle::new().with(position(), pos(0, 0)).with(velocity(), vel(1)));
    let bare = world.spawn(Bundle::new().with(position(), pos(7, 7)));
    let query = world.query(&Query::new().read(velocity()));
    assert_eq!(query.get(&world, bare), Ok(vec![none()]));
}

#[test]
fn never_registered_type_reads_none() {
    let mut world: World<Value> = World::new();
    let e = world.spawn(Bundle::new().with(position(), pos(0, 0)));
    let query = world.query(&Query::new().read(life()));
    assert_eq!(query.get(&world, e), Ok(vec![none()]));
    assert_eq!(world.init_component(life()), ComponentId(1));
    let later = world.spawn(Bundle::new().with(velocity(), vel(2)));
    assert_eq!(query.get(&world, later), Ok(vec![none()]));
}

#[test]
fn composite_query_keeps_partial_results() {
    let mut world: World<Value> = World::new();
    world.spawn(Bundle::new().with(velocity(), vel(9)));
    let only_position = world.spawn(Bundle::new().with(position(), pos(3, 4)));
    let query = world.query(&Query::new().read(position()).read(velocity()));
    assert_eq!(query.get(&world, only_position), Ok(vec![some(pos(3, 4)), none()]));
}

#[test]
fn entity_handles_increase() {
    let mut world: World<Value> = World::new();
    let e1 = world.spawn(Bundle::new().with(life(), Value::Life(Life(1))));
    let e2 = world.spawn(Bundle::new());
    let e3 = world.spawn(Bundle::new().with(life(), Value::Life(Life(1))));
    assert!(e1.index() < e2.index());
    assert!(e2.index() < e3.index());
    assert_eq!(e3.index(), 2);
}

#[test]
fn end_to_end_field_order() {
    let mut world: World<Value> = World::new();
    let e1 = world.spawn(Bundle::new().with(position(), pos(0, 0)).with(velocity(), vel(1)));
    let e2 = world.spawn(Bundle::new().with(velocity(), vel(3)).with(position(), pos(1, 1)));
    let query = world.query(&Query::new().read(position()).read(velocity()));
    assert_eq!(query.get(&world, e1), Ok(vec![some(pos(0, 0)), some(vel(1))]));
    assert_eq!(query.get(&world, e2), Ok(vec![some(pos(1, 1)), some(vel(3))]));
}

#[test]
fn duplicate_attach_keeps_first() {
    let mut world: World<Value> = World::new();
    let e = world.spawn(
        Bundle::new().with(life(), Value::Life(Life(5))).with(life(), Value::Life(Life(2))),
    );
    let query = world.query(&Query::new().read(life()));
    assert_eq!(query.get(&world, e), Ok(vec![some(Value::Life(Life(5)))]));
}

#[test]
fn entity_leaf_returns_handle() {
    let mut world: World<Value> = World::new();
    world.spawn(Bundle::new().with(life(), Value::Life(Life(1))));
    let e = world.spawn(Bundle::new().with(life(), Value::Life(Life(8))));
    let query = world.query(&Query::new().entity().read(life()));
    assert_eq!(query.get(&world, e), Ok(vec![Item::Entity(e), some(Value::Life(Life(8)))]));
}

#[test]
fn write_beside_read_of_same_slot_conflicts() {
    let mut world: World<Value> = World::new();
    let with_position = world.spawn(Bundle::new().with(position(), pos(1, 1)));
    let without = world.spawn(Bundle::new().with(velocity(), vel(1)));
    let query = world.query(&Query::new().write(position()).read(position()));
    assert_eq!(query.get(&world, with_position), Err(QueryError::Conflict));
    assert_eq!(query.get(&world, without), Ok(vec![none(), none()]));
    let twice = world.query(&Query::new().write(velocity()).write(velocity()));
    assert_eq!(twice.get(&world, without), Err(QueryError::Conflict));
}

#[test]
fn reads_of_same_slot_do_not_conflict() {
    let mut world: World<Value> = World::new();
    let e = world.spawn(Bundle::new().with(position(), pos(2, 2)));
    let query = world.query(&Query::new().read(position()).read(position()));
    assert_eq!(query.get(&world, e), Ok(vec![some(pos(2, 2)), some(pos(2, 2))]));
}

#[test]
fn set_writes_back_written_leaves() {
    let mut world: World<Value> = World::new();
    let e = world.spawn(Bundle::new().with(position(), pos(0, 0)).with(velocity(), vel(1)));
    let other = world.spawn(Bundle::new().with(position(), pos(9, 9)));
    let query = world.query(&Query::new().write(position()).read(velocity()));
    let mut items = query.get(&world, e).unwrap();
    items[0] = some(pos(1, 0));
    items[1] = some(vel(50));
    query.set(&mut world, e, &items);
    assert_eq!(query.get(&world, e), Ok(vec![some(pos(1, 0)), some(vel(1))]));
    assert_eq!(query.get(&world, other), Ok(vec![some(pos(9, 9)), none()]));
}

#[test]
fn set_ignores_missing_slots() {
    let mut world: World<Value> = World::new();
    let e = world.spawn(Bundle::new().with(velocity(), vel(1)));
    let query = world.query(&Query::new().write(position()));
    query.set(&mut world, e, &vec![some(pos(5, 5))]);
    assert_eq!(query.get(&world, e), Ok(vec![none()]));
}

#[test]
fn query_state_from_other_world_reads_none_on_type_mismatch() {
    let mut first: World<Value> = World::new();
    first.init_component(position());
    let query = first.query(&Query::new().read(position()));
    let mut second: World<Value> = World::new();
    let e = second.spawn(Bundle::new().with(velocity(), vel(4)));
    assert_eq!(query.get(&second, e), Ok(vec![none()]));
}

#[test]
fn downcast_checks_the_tag() {
    let mut cell = Tagged { kind: life(), value: Value::Life(Life(3)) };
    assert_eq!(downcast_ref(&cell, &life()), Some(&Value::Life(Life(3))));
    assert_eq!(downcast_ref(&cell, &position()), None);
    assert!(downcast_mut(&mut cell, &position()).is_none());
    if let Some(v) = downcast_mut(&mut cell, &life()) {
        *v = Value::Life(Life(4));
    }
    assert_eq!(cell.value, Value::Life(Life(4)));
    assert_eq!(cell.kind, life());
}

#[test]
fn storage_push_keeps_first_value() {
    let mut storages: Storages<Value> = Storages::new();
    let c = ComponentId(3);
    assert!(storages.bucket(c).is_none());
    storages.push_component(Entity(1), c, Tagged { kind: life(), value: Value::Life(Life(5)) });
    storages.push_component(Entity(1), c, Tagged { kind: life(), value: Value::Life(Life(2)) });
    storages.push_component(Entity(2), c, Tagged { kind: life(), value: Value::Life(Life(7)) });
    let bucket = storages.bucket(c).unwrap();
    assert_eq!(bucket.len(), 2);
    assert_eq!(bucket.get(&1).unwrap().value, Value::Life(Life(5)));
    assert_eq!(bucket.get(&2).unwrap().value, Value::Life(Life(7)));
    storages.init_component(c);
    assert_eq!(storages.bucket(c).unwrap().len(), 2);
    storages.init_component(ComponentId(4));
    assert_eq!(storages.bucket(ComponentId(4)).unwrap().len(), 0);
}

#[test]
fn registry_gives_dense_ids() {
    let mut components = Components::new();
    let mut storages: Storages<Value> = Storages::new();
    let a = components.init_component(&mut storages, velocity());
    let b = components.init_component(&mut storages, position());
    let a_again = components.init_component(&mut storages, velocity());
    assert_eq!(a, ComponentId(0));
    assert_eq!(b, ComponentId(1));
    assert_eq!(a_again, a);
    assert!(storages.bucket(ComponentId(1)).is_some());
}

#[test]
fn registry_record_carries_its_id() {
    let mut infos: Vec<ComponentInfo> = Vec::new();
    assert_eq!(Components::init_component_inner(&mut infos), 0);
    assert_eq!(Components::init_component_inner(&mut infos), 1);
    assert_eq!(infos[1].id, ComponentId(1));
    assert_eq!(ComponentInfo::new(ComponentId(7)).id, ComponentId(7));
}

#[test]
fn allocator_issues_consecutive_handles() {
    let mut entities = Entities::new();
    assert_eq!(entities.allocate(), Entity(0));
    assert_eq!(entities.allocate(), Entity(1));
    entities.set_components(Entity(0), vec![ComponentId(0)]);
    entities.set_components(Entity(0), vec![ComponentId(2), ComponentId(1)]);
    assert_eq!(
        entities.components_of(Entity(0)),
        Some(&vec![ComponentId(0), ComponentId(2), ComponentId(1)])
    );
    assert_eq!(entities.components_of(Entity(1)), None);
    assert_eq!(Entity::from(5), Entity(5));
}

#[test]
fn query_state_caches_resolved_ids() {
    let mut world: World<Value> = World::new();
    world.init_component(velocity());
    let state = QueryState::new(&mut world, &Query::new().read(position()).entity().write(velocity()));
    assert_eq!(state.fetch_state.len(), 3);
    assert_eq!(world.init_component(position()), ComponentId(1));
}

#[test]
fn spawn_records_component_ids_in_order() {
    let mut world: World<Value> = World::new();
    world.spawn(Bundle::new().with(velocity(), vel(1)));
    let e = world.spawn(
        Bundle::new()
            .with(position(), pos(0, 0))
            .with(velocity(), vel(2))
            .with(position(), pos(1, 1)),
    );
    assert_eq!(world.components_of(e), Some(&vec![ComponentId(1), ComponentId(0), ComponentId(1)]));
    assert_eq!(world.components_of(Entity(7)), None);
}

#[test]
fn fetch_reads_through_buckets() {
    let mut world: World<Value> = World::new();
    let e = world.spawn(Bundle::new().with(life(), Value::Life(Life(3))));
    let state = world.query(&Query::new().entity().read(life()).read(position()));
    let fetches = state.init_fetch(&world);
    assert_eq!(fetches.len(), 3);
    assert_eq!(fetch(&fetches[0], &state.fetch_state[0], e), Item::Entity(e));
    assert_eq!(fetch(&fetches[1], &state.fetch_state[1], e), some(Value::Life(Life(3))));
    assert_eq!(fetch(&fetches[2], &state.fetch_state[2], e), none());
    assert_eq!(fetch(&fetches[1], &state.fetch_state[1], Entity(4)), none());
}
