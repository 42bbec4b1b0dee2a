use tecs::query::{Columns, ColumnsMut, ColumnsOptional};
use tecs::value::Value;

fn chunks(parts: &[&[i64]]) -> Vec<Vec<Value>> {
    parts.iter().map(|part| part.iter().map(|&x| Value::Int(x)).collect()).collect()
}

#[test]
fn columns_iter_concatenates_in_order() {
    let cols = Columns { chunks: chunks(&[&[1, 2, 3], &[4, 5]]) };
    let flat = cols.iter();
    assert_eq!(
        vec![Value::Int(1), Value::Int(2), Value::Int(3), Value::Int(4), Value::Int(5)],
        flat
    );
    assert_eq!(5, cols.len());
}

#[test]
fn columns_mut_get_crosses_chunk_boundaries() {
    let cols = ColumnsMut { chunks: chunks(&[&[1, 2, 3], &[4, 5]]) };
    assert_eq!(Some(Value::Int(4)), cols.get(3));
    assert_eq!(Some(Value::Int(1)), cols.get(0));
    assert_eq!(None, cols.get(5));
    assert_eq!(Some(Value::Int(1)), cols.first());
}

#[test]
fn columns_mut_first_skips_empty_chunks() {
    let cols = ColumnsMut { chunks: chunks(&[&[], &[4]]) };
    assert_eq!(Some(Value::Int(4)), cols.first());
    let empty = ColumnsMut { chunks: chunks(&[&[], &[]]) };
    assert_eq!(None, empty.first());
}

#[test]
fn columns_mut_set_lands_in_the_right_chunk() {
    let mut cols = ColumnsMut { chunks: chunks(&[&[1, 2], &[3]]) };
    assert!(cols.set(2, Value::Int(30)));
    assert!(!cols.set(3, Value::Int(99)));
    assert_eq!(vec![Value::Int(1), Value::Int(2), Value::Int(30)], cols.iter());
}

#[test]
fn columns_mut_for_each_touches_every_value() {
    let mut cols = ColumnsMut { chunks: chunks(&[&[1], &[2, 3]]) };
    cols.for_each(|v| match v {
        Value::Int(x) => Value::Int(x * 10),
        other => other,
    });
    assert_eq!(vec![Value::Int(10), Value::Int(20), Value::Int(30)], cols.iter());
}

#[test]
fn columns_mut_fold_accumulates_across_chunks() {
    let cols = ColumnsMut { chunks: chunks(&[&[1, 2], &[3, 4]]) };
    let sum = cols.fold(0i64, |acc, v| match v {
        Value::Int(x) => acc + x,
        _ => acc,
    });
    assert_eq!(10, sum);
}

#[test]
fn columns_mut_map_and_filter_map_collect_outputs() {
    let cols = ColumnsMut { chunks: chunks(&[&[1, 2], &[3]]) };
    let doubled = cols.map(|v| match v {
        Value::Int(x) => 2 * x,
        _ => 0,
    });
    assert_eq!(vec![2, 4, 6], doubled);
    let odds = cols.filter_map(|v| match v {
        Value::Int(x) if x % 2 == 1 => Some(x),
        _ => None,
    });
    assert_eq!(vec![1, 3], odds);
}

#[test]
fn columns_optional_substitutes_absent_rows() {
    let cols = ColumnsOptional {
        chunks: vec![Ok(vec![Value::Int(1), Value::Int(2)]), Err(2), Ok(vec![Value::Int(5)])],
    };
    assert_eq!(
        vec![Some(Value::Int(1)), Some(Value::Int(2)), None, None, Some(Value::Int(5))],
        cols.iter()
    );
}
