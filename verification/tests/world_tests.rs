use tecs::query::{Filter, Is, With, Without};
use tecs::table::Archetype;
use tecs::value::{TypeTag, Value};
use tecs::world::World;

const X: TypeTag = TypeTag(1);
const Y: TypeTag = TypeTag(2);
const POINT: TypeTag = TypeTag(100);
const PAIR: TypeTag = TypeTag(101);

fn point_archetype() -> Archetype {
    Archetype::new(POINT, vec![X])
}

fn pair_archetype() -> Archetype {
    Archetype::new(PAIR, vec![X, Y])
}

fn world_with_points(xs: &[i64]) -> (World, Vec<tecs::world::EntityId>) {
    let mut world = World::new().register(&point_archetype());
    let mut ids = Vec::new();
    for &x in xs {
        ids.push(world.spawn(POINT, &vec![Value::Int(x)]));
    }
    (world, ids)
}

fn sorted_ints(values: Vec<Value>) -> Vec<i64> {
    let mut out: Vec<i64> = values
        .into_iter()
        .map(|v| match v {
            Value::Int(x) => x,
            other => panic!("expected an Int, got {:?}", other),
        })
        .collect();
    out.sort();
    out
}

#[test]
fn scenario_spawn_three_and_query() {
    let (world, _) = world_with_points(&[1, 2, 3]);
    let cols = world.query(X, &Vec::new());
    let values = cols.iter();
    assert_eq!(3, values.len());
    assert_eq!(vec![1, 2, 3], sorted_ints(values));
}

#[test]
fn scenario_despawn_keeps_other_entities_intact() {
    let (mut world, ids) = world_with_points(&[1, 2, 3]);
    let (e1, e2, e3) = (ids[0], ids[1], ids[2]);
    world.despawn(POINT, e2);
    let values = world.query(X, &Vec::new()).iter();
    assert_eq!(vec![1, 3], sorted_ints(values));
    assert_eq!(Some(Value::Int(1)), world.get_component(e1, X));
    assert_eq!(Some(Value::Int(3)), world.get_component(e3, X));
    assert_eq!(None, world.get_component(e2, X));
}

#[test]
fn despawn_dead_handle_is_no_op() {
    let (mut world, ids) = world_with_points(&[4]);
    world.despawn(POINT, ids[0]);
    world.despawn(POINT, ids[0]);
    assert_eq!(0, world.query(X, &Vec::new()).iter().len());
}

#[test]
fn query_selects_only_matching_tables() {
    let mut world = World::new().register(&pair_archetype()).register(&point_archetype());
    world.spawn(PAIR, &vec![Value::Int(10), Value::Int(20)]);
    world.spawn(PAIR, &vec![Value::Int(11), Value::Int(21)]);
    world.spawn(POINT, &vec![Value::Int(30)]);

    // Both components required: only the pair table qualifies.
    let both = world.query(X, &vec![Filter::With(With(Y))]).iter();
    assert_eq!(vec![10, 11], sorted_ints(both));

    // Presence of X alone spans both tables.
    let any_x = world.query(X, &Vec::new()).iter();
    assert_eq!(vec![10, 11, 30], sorted_ints(any_x));

    // Without Y excludes the pair table.
    let no_y = world.query(X, &vec![Filter::Without(Without(Y))]).iter();
    assert_eq!(vec![30], sorted_ints(no_y));

    // Entity query with a presence filter spans both tables.
    let ids = world.query_entities(&vec![Filter::With(With(X))]);
    assert_eq!(3, ids.len());
}

#[test]
fn query_is_filter_selects_one_archetype() {
    let mut world = World::new().register(&pair_archetype()).register(&point_archetype());
    world.spawn(PAIR, &vec![Value::Int(1), Value::Int(2)]);
    world.spawn(POINT, &vec![Value::Int(3)]);
    let only_points = world.query(X, &vec![Filter::Is(Is(POINT))]).iter();
    assert_eq!(vec![3], sorted_ints(only_points));
}

#[test]
fn query_opt_aligns_absent_columns() {
    let mut world = World::new().register(&pair_archetype()).register(&point_archetype());
    world.spawn(PAIR, &vec![Value::Int(1), Value::Int(2)]);
    world.spawn(POINT, &vec![Value::Int(3)]);
    let opts = world.query_opt(Y, &Vec::new()).iter();
    assert_eq!(2, opts.len());
    assert!(opts.contains(&Some(Value::Int(2))));
    assert!(opts.contains(&None));
}

#[test]
fn query_one_reads_first_matching_row() {
    let mut world = World::new().register(&point_archetype());
    world.spawn(POINT, &vec![Value::Int(42)]);
    let v = world.query_one(X, &Vec::new());
    assert_eq!(Value::Int(42), v);
}

#[test]
fn query_mut_edits_write_back_on_commit() {
    let (mut world, ids) = world_with_points(&[1, 2, 3]);
    let filters = Vec::new();
    let mut cols = world.query_mut(X, &filters);
    cols.for_each(|v| match v {
        Value::Int(x) => Value::Int(x + 100),
        other => other,
    });
    world.commit(X, &filters, &cols);
    assert_eq!(Some(Value::Int(101)), world.get_component(ids[0], X));
    assert_eq!(Some(Value::Int(102)), world.get_component(ids[1], X));
    assert_eq!(Some(Value::Int(103)), world.get_component(ids[2], X));
}

#[test]
fn set_component_changes_one_value() {
    let (mut world, ids) = world_with_points(&[5, 6]);
    assert!(world.set_component(ids[0], X, Value::Int(50)));
    assert!(!world.set_component(ids[0], Y, Value::Int(50)));
    assert_eq!(Some(Value::Int(50)), world.get_component(ids[0], X));
    assert_eq!(Some(Value::Int(6)), world.get_component(ids[1], X));
}

#[test]
fn resources_keep_only_latest_value() {
    let log = TypeTag(500);
    let world = World::new()
        .with_resource(log, vec![Value::UInt(1)])
        .with_resource(log, vec![Value::UInt(2)]);
    assert_eq!(Some(&vec![Value::UInt(2)]), world.get(log));
}

#[test]
fn resource_remove_returns_value_then_nothing() {
    let slot = TypeTag(501);
    let mut world = World::new().with_resource(slot, vec![Value::Bool(true)]);
    assert_eq!(Some(vec![Value::Bool(true)]), world.remove(slot));
    assert_eq!(None, world.get(slot));
    assert_eq!(None, world.remove(slot));
}

#[test]
fn set_resource_only_overwrites_existing() {
    let slot = TypeTag(502);
    let mut world = World::new();
    assert!(!world.set_resource(slot, vec![Value::Int(1)]));
    world = world.with_resource(slot, vec![Value::Int(1)]);
    assert!(world.set_resource(slot, vec![Value::Int(2)]));
    assert_eq!(Some(&vec![Value::Int(2)]), world.get(slot));
}

#[test]
fn place_and_table_report_locations() {
    let (world, ids) = world_with_points(&[7]);
    let place = world.place(ids[0]).expect("live entity has a place");
    assert_eq!(POINT, place.0);
    assert_eq!(0, place.1 .0);
    assert!(world.table(POINT).is_some());
    assert!(world.table(TypeTag(999)).is_none());
    assert_eq!(1, world.table(POINT).unwrap().len());
}
