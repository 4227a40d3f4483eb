//! The structural value order and shape checks.

use ddengine::value::{shape_check, value_cmp, value_eq, Cmp, Shape, Value};

fn tup(xs: Vec<Value>) -> Value {
    Value::Tup(xs)
}

#[test]
fn order_by_shape_rank() {
    let i = Value::Int(99);
    let s = Value::Str(vec![0u8]);
    let t = tup(vec![]);
    assert_eq!(value_cmp(&i, &s), Cmp::Lt);
    assert_eq!(value_cmp(&s, &t), Cmp::Lt);
    assert_eq!(value_cmp(&t, &i), Cmp::Gt);
}

#[test]
fn order_integers() {
    assert_eq!(value_cmp(&Value::Int(1), &Value::Int(2)), Cmp::Lt);
    assert_eq!(value_cmp(&Value::Int(2), &Value::Int(2)), Cmp::Eq);
    assert_eq!(value_cmp(&Value::Int(3), &Value::Int(2)), Cmp::Gt);
}

#[test]
fn order_bytes_lexicographic() {
    let a = Value::Str(b"ab".to_vec());
    let b = Value::Str(b"abc".to_vec());
    let c = Value::Str(b"b".to_vec());
    assert_eq!(value_cmp(&a, &b), Cmp::Lt);
    assert_eq!(value_cmp(&b, &c), Cmp::Lt);
    assert_eq!(value_cmp(&c, &a), Cmp::Gt);
}

#[test]
fn order_tuples_lexicographic() {
    let a = tup(vec![Value::Int(1), Value::Int(2)]);
    let b = tup(vec![Value::Int(1), Value::Int(3)]);
    let c = tup(vec![Value::Int(1)]);
    assert_eq!(value_cmp(&a, &b), Cmp::Lt);
    assert_eq!(value_cmp(&c, &a), Cmp::Lt);
    assert_eq!(value_cmp(&a, &a), Cmp::Eq);
}

#[test]
fn deep_equality() {
    let a = tup(vec![Value::Int(1), tup(vec![Value::Str(b"x".to_vec()), Value::Int(2)])]);
    let b = tup(vec![Value::Int(1), tup(vec![Value::Str(b"x".to_vec()), Value::Int(2)])]);
    let c = tup(vec![Value::Int(1), tup(vec![Value::Str(b"y".to_vec()), Value::Int(2)])]);
    assert!(value_eq(&a, &b));
    assert!(!value_eq(&a, &c));
}

#[test]
fn shapes() {
    let pair = Shape::Tup(vec![Shape::Int, Shape::Int]);
    let good = tup(vec![Value::Int(1), Value::Int(2)]);
    let short = tup(vec![Value::Int(1)]);
    let wrong = tup(vec![Value::Int(1), Value::Str(b"x".to_vec())]);
    assert!(shape_check(&pair, &good));
    assert!(!shape_check(&pair, &short));
    assert!(!shape_check(&pair, &wrong));
    assert!(shape_check(&Shape::Free, &wrong));
    assert!(shape_check(&Shape::Str, &Value::Str(vec![])));
    assert!(!shape_check(&Shape::Int, &wrong));
}
