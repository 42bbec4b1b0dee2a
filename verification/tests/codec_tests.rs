use tecs::codec::{decode, encode, CodecError};
use tecs::scene::{Scene, SceneData};
use tecs::table::Archetype;
use tecs::value::{TypeTag, Value};
use tecs::world::World;

const X: TypeTag = TypeTag(1);
const Y: TypeTag = TypeTag(2);
const POINT: TypeTag = TypeTag(100);
const PAIR: TypeTag = TypeTag(101);

fn sample_data() -> SceneData {
    SceneData {
        groups: vec![
            (7, vec![vec![Value::Int(-5), Value::UInt(9)], vec![Value::Bool(true), Value::Int(0)]]),
            (9, vec![vec![Value::Bool(false)]]),
        ],
    }
}

fn assert_same(a: &SceneData, b: &SceneData) {
    assert_eq!(a.groups.len(), b.groups.len());
    for (ga, gb) in a.groups.iter().zip(b.groups.iter()) {
        assert_eq!(ga.0, gb.0);
        assert_eq!(ga.1, gb.1);
    }
}

#[test]
fn codec_round_trip_preserves_groups() {
    let data = sample_data();
    let bytes = encode(&data);
    let back = decode(&bytes).expect("an encoded scene decodes");
    assert_same(&data, &back);
}

#[test]
fn codec_round_trip_empty_scene() {
    let data = SceneData { groups: Vec::new() };
    let bytes = encode(&data);
    assert_eq!(8, bytes.len());
    let back = decode(&bytes).expect("an empty scene decodes");
    assert_eq!(0, back.groups.len());
}

#[test]
fn codec_rejects_truncated_buffers() {
    let mut bytes = encode(&sample_data());
    bytes.pop();
    assert_eq!(Err(CodecError::Truncated), decode(&bytes).map(|_| ()));
    assert_eq!(Err(CodecError::Truncated), decode(&vec![1, 2, 3]).map(|_| ()));
}

#[test]
fn codec_rejects_unknown_tags() {
    let data = SceneData { groups: vec![(1, vec![vec![Value::UInt(4)]])] };
    let mut bytes = encode(&data);
    // The value's kind marker sits after three lengths and the group key.
    let tag_at = 8 + 8 + 8 + 8;
    bytes[tag_at] = 9;
    assert_eq!(Err(CodecError::BadTag), decode(&bytes).map(|_| ()));
}

#[test]
fn codec_rejects_bad_truth_payloads() {
    let data = SceneData { groups: vec![(1, vec![vec![Value::Bool(true)]])] };
    let mut bytes = encode(&data);
    let payload_at = 8 + 8 + 8 + 8 + 1;
    bytes[payload_at] = 2;
    assert_eq!(Err(CodecError::BadPayload), decode(&bytes).map(|_| ()));
}

#[test]
fn codec_rejects_trailing_bytes() {
    let mut bytes = encode(&sample_data());
    bytes.push(0);
    assert_eq!(Err(CodecError::TrailingBytes), decode(&bytes).map(|_| ()));
}

#[test]
fn scene_survives_save_encode_decode_load() {
    let mut world = World::new()
        .register(&Archetype::new(POINT, vec![X]))
        .register(&Archetype::new(PAIR, vec![X, Y]));
    world.spawn(POINT, &vec![Value::Int(1)]);
    world.spawn(PAIR, &vec![Value::Int(2), Value::Int(3)]);

    let mut scene = Scene::new();
    scene.from_world(&world);
    let bytes = encode(&scene.save(&world));
    let data = decode(&bytes).expect("the saved scene decodes");

    let mut fresh = World::new()
        .register(&Archetype::new(POINT, vec![X]))
        .register(&Archetype::new(PAIR, vec![X, Y]));
    let loaded = Scene::load(&mut fresh, &data).expect("both archetypes are registered");
    assert_eq!(2, loaded.entities.len());
    let mut xs: Vec<Value> = fresh.query(X, &Vec::new()).iter();
    xs.sort_by_key(|v| match v {
        Value::Int(x) => *x,
        _ => 0,
    });
    assert_eq!(vec![Value::Int(1), Value::Int(2)], xs);
}
