use tecs::value::{TypeTag, Value};
use tecs::vecany::VecAny;

#[test]
fn test_normal() {
    let mut vecany = VecAny::new(TypeTag(7));
    vecany.push(TypeTag(7), Value::UInt(0));
    vecany.push(TypeTag(7), Value::UInt(1));
    vecany.push(TypeTag(7), Value::UInt(2));
    let data = vec![Value::UInt(0), Value::UInt(1), Value::UInt(2)];
    assert_eq!(Some(&data), vecany.downcast_ref(TypeTag(7)));
    assert_eq!(3, vecany.len());
}

#[test]
fn test_uninit() {
    let mut vecany = VecAny::new_uninit(TypeTag(7));
    vecany.push(TypeTag(7), Value::UInt(0));
    vecany.push(TypeTag(7), Value::UInt(1));
    vecany.push(TypeTag(7), Value::UInt(2));
    let data = vec![Value::UInt(0), Value::UInt(1), Value::UInt(2)];
    assert_eq!(Some(&data), vecany.downcast_ref(TypeTag(7)));
    assert_eq!(3, vecany.len());
}

#[test]
fn mismatched_push_is_no_op() {
    let mut vecany = VecAny::new(TypeTag(1));
    vecany.push(TypeTag(1), Value::Int(5));
    vecany.push(TypeTag(2), Value::Int(99));
    assert_eq!(1, vecany.len());
    assert_eq!(Some(Value::Int(5)), vecany.get(TypeTag(1), 0));
}

#[test]
fn mismatched_downcast_is_none() {
    let mut vecany = VecAny::new(TypeTag(1));
    vecany.push(TypeTag(1), Value::Bool(true));
    assert!(vecany.downcast_ref(TypeTag(2)).is_none());
    assert!(vecany.downcast_ref(TypeTag(1)).is_some());
    assert_eq!(TypeTag(1), vecany.ty());
    assert!(!vecany.is_empty());
}

#[test]
fn from_vec_binds_contents() {
    let data = vec![Value::Int(3), Value::Int(4)];
    let mut vecany = VecAny::from_vec(TypeTag(9), data.clone());
    assert_eq!(Some(&data), vecany.downcast_ref(TypeTag(9)));
    let removed = vecany.swap_remove(TypeTag(9), 0);
    assert_eq!(Some(Value::Int(3)), removed);
    assert_eq!(Some(Value::Int(4)), vecany.get(TypeTag(9), 0));
    assert_eq!(1, vecany.len());
}

#[test]
fn set_overwrites_in_place() {
    let mut vecany = VecAny::new(TypeTag(3));
    vecany.push(TypeTag(3), Value::UInt(10));
    assert!(vecany.set(TypeTag(3), 0, Value::UInt(20)));
    assert!(!vecany.set(TypeTag(4), 0, Value::UInt(30)));
    assert!(!vecany.set(TypeTag(3), 5, Value::UInt(30)));
    assert_eq!(Some(Value::UInt(20)), vecany.get(TypeTag(3), 0));
}
