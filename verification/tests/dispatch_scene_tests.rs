use tecs::dispatch::{Dispatcher, System};
use tecs::scene::{Scene, SceneData, SceneError};
use tecs::table::Archetype;
use tecs::value::{TypeTag, Value};
use tecs::world::World;

const X: TypeTag = TypeTag(1);
const Y: TypeTag = TypeTag(2);
const POINT: TypeTag = TypeTag(100);
const PAIR: TypeTag = TypeTag(101);
const LOG: TypeTag = TypeTag(600);

enum LogSystem {
    First,
    Second,
}

impl System for LogSystem {
    type Event = u32;

    fn tick(&mut self, world: &mut World) {
        let mark = match self {
            LogSystem::First => Value::UInt(1),
            LogSystem::Second => Value::UInt(2),
        };
        let mut log = world.get(LOG).cloned().unwrap_or_default();
        log.push(mark);
        if !world.set_resource(LOG, log) {
            panic!("the log resource must be installed before ticking");
        }
    }

    fn event(&mut self, world: &mut World, event: &u32) {
        let mut log = world.get(LOG).cloned().unwrap_or_default();
        log.push(Value::UInt(*event as u64));
        if !world.set_resource(LOG, log) {
            panic!("the log resource must be installed before dispatching");
        }
    }
}

#[test]
fn scenario_systems_run_in_registration_order() {
    let mut world = World::new().with_resource(LOG, Vec::new());
    let mut dispatcher =
        Dispatcher::new().with_system(LogSystem::First).with_system(LogSystem::Second);
    dispatcher.tick(&mut world);
    assert_eq!(Some(&vec![Value::UInt(1), Value::UInt(2)]), world.get(LOG));
    assert_eq!(2, dispatcher.len());
}

#[test]
fn submit_reaches_every_system_in_order() {
    let mut world = World::new().with_resource(LOG, Vec::new());
    let mut dispatcher =
        Dispatcher::new().with_system(LogSystem::First).with_system(LogSystem::Second);
    dispatcher.submit(&mut world, &7);
    assert_eq!(Some(&vec![Value::UInt(7), Value::UInt(7)]), world.get(LOG));
}

fn two_archetype_world() -> World {
    World::new()
        .register(&Archetype::new(POINT, vec![X]))
        .register(&Archetype::new(PAIR, vec![X, Y]))
}

#[test]
fn scenario_scene_round_trip_two_archetypes() {
    let mut world = two_archetype_world();
    world.spawn(POINT, &vec![Value::Int(1)]);
    world.spawn(POINT, &vec![Value::Int(2)]);
    world.spawn(PAIR, &vec![Value::Int(3), Value::Int(4)]);

    let mut scene = Scene::new();
    scene.from_world(&world);
    let data = scene.save(&world);
    assert_eq!(2, data.groups.len());

    let mut fresh = two_archetype_world();
    let loaded = Scene::load(&mut fresh, &data).expect("same archetypes are registered");
    assert_eq!(3, loaded.entities.len());

    let points = fresh.query(X, &Vec::new()).iter();
    let mut xs: Vec<i64> = points
        .into_iter()
        .map(|v| match v {
            Value::Int(x) => x,
            other => panic!("expected an Int, got {:?}", other),
        })
        .collect();
    xs.sort();
    assert_eq!(vec![1, 2, 3], xs);
    let ys = fresh.query(Y, &Vec::new()).iter();
    assert_eq!(vec![Value::Int(4)], ys);
}

#[test]
fn scenario_scene_load_missing_archetype_fails() {
    let mut world = two_archetype_world();
    world.spawn(POINT, &vec![Value::Int(1)]);
    world.spawn(PAIR, &vec![Value::Int(2), Value::Int(3)]);
    let mut scene = Scene::new();
    scene.from_world(&world);
    let data = scene.save(&world);

    let mut missing_one = World::new().register(&Archetype::new(POINT, vec![X]));
    let before = missing_one.query(X, &Vec::new()).iter().len();
    let err = Scene::load(&mut missing_one, &data).expect_err("the pair archetype is missing");
    assert_eq!(SceneError::UnknownArchetype(PAIR.0), err);
    assert_eq!(before, missing_one.query(X, &Vec::new()).iter().len());
}

#[test]
fn scene_load_rejects_unsaved_archetype() {
    let mut data = SceneData { groups: Vec::new() };
    data.groups.push((POINT.0, vec![vec![Value::Int(1)]]));
    let mut world = World::new().register_unsaved(&Archetype::new(POINT, vec![X]));
    let err = Scene::load(&mut world, &data).expect_err("the table is not scene-enabled");
    assert_eq!(SceneError::UnsavedArchetype(POINT.0), err);
}

#[test]
fn scene_load_rejects_duplicate_keys() {
    let mut data = SceneData { groups: Vec::new() };
    data.groups.push((POINT.0, vec![vec![Value::Int(1)]]));
    data.groups.push((POINT.0, vec![vec![Value::Int(2)]]));
    let mut world = two_archetype_world();
    let before = world.query(X, &Vec::new()).iter().len();
    let err = Scene::load(&mut world, &data).expect_err("a scene is a map; keys are unique");
    assert_eq!(SceneError::DuplicateArchetype(POINT.0), err);
    assert_eq!(before, world.query(X, &Vec::new()).iter().len());
}

#[test]
fn scene_load_rejects_misshapen_rows() {
    let mut data = SceneData { groups: Vec::new() };
    data.groups.push((PAIR.0, vec![vec![Value::Int(1)]]));
    let mut world = two_archetype_world();
    let err = Scene::load(&mut world, &data).expect_err("a pair row needs two values");
    assert_eq!(SceneError::RowShape(PAIR.0), err);
}

#[test]
fn scene_save_skips_dead_handles() {
    let mut world = two_archetype_world();
    let id = world.spawn(POINT, &vec![Value::Int(9)]);
    let mut scene = Scene::new();
    scene.add(id);
    world.despawn(POINT, id);
    let data = scene.save(&world);
    assert_eq!(0, data.groups.len());
}
