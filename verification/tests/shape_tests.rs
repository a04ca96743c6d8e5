use columnize::shape::{infer, record_shape, shape_eq, str_eq, str_le, Shape};
use columnize::value::Value;

fn dict(entries: Vec<(&str, Value)>) -> Value {
    Value::Dict(entries.into_iter().map(|(k, v)| (k.to_string(), v)).collect())
}

#[test]
fn scalar_shapes() {
    assert!(shape_eq(&infer(&Value::Null), &Shape::Null));
    assert!(shape_eq(&infer(&Value::Bool(true)), &Shape::Bool));
    assert!(shape_eq(&infer(&Value::Integer(7)), &Shape::Integer));
    assert!(shape_eq(&infer(&Value::Float(1.5f64.to_bits())), &Shape::Float));
    assert!(shape_eq(&infer(&Value::Text("hi".to_string())), &Shape::Text));
    assert!(shape_eq(&infer(&Value::Bytes(vec![1, 2])), &Shape::Bytes));
    assert!(shape_eq(&infer(&Value::Link(vec![0, 1])), &Shape::Link));
}

#[test]
fn map_key_order_is_canonical() {
    let a = dict(vec![("x", Value::Integer(1)), ("y", Value::Text("a".to_string()))]);
    let b = dict(vec![("y", Value::Text("b".to_string())), ("x", Value::Integer(9))]);
    let sa = infer(&a);
    let sb = infer(&b);
    assert!(shape_eq(&sa, &sb));
    match sa {
        Shape::Dict(entries) => {
            assert_eq!(entries.len(), 2);
            assert_eq!(entries[0].0, "x");
            assert_eq!(entries[1].0, "y");
        },
        _ => panic!("expected a map shape"),
    }
}

#[test]
fn map_shapes_differ_when_field_types_differ() {
    let a = dict(vec![("x", Value::Integer(1))]);
    let b = dict(vec![("x", Value::Float(1.5f64.to_bits()))]);
    assert!(!shape_eq(&infer(&a), &infer(&b)));
}

#[test]
fn list_takes_first_element_shape() {
    let l = Value::List(vec![Value::Integer(1), Value::Text("mixed".to_string())]);
    let expected = Shape::List(Box::new(Shape::Integer));
    assert!(shape_eq(&infer(&l), &expected));
}

#[test]
fn empty_list_collapses_to_null() {
    let l = Value::List(vec![]);
    let expected = Shape::List(Box::new(Shape::Null));
    assert!(shape_eq(&infer(&l), &expected));
}

#[test]
fn record_shape_wraps_cid_and_data() {
    let sh = record_shape(&Value::Integer(3));
    match sh {
        Shape::Dict(entries) => {
            assert_eq!(entries.len(), 2);
            assert_eq!(entries[0].0, "cid");
            assert!(shape_eq(&entries[0].1, &Shape::Bytes));
            assert_eq!(entries[1].0, "data");
            assert!(shape_eq(&entries[1].1, &Shape::Integer));
        },
        _ => panic!("expected a map shape"),
    }
}

#[test]
fn string_order_helpers() {
    assert!(str_le("abc", "abd"));
    assert!(str_le("ab", "abc"));
    assert!(!str_le("b", "ab"));
    assert!(str_le("", "a"));
    assert!(str_eq("same", "same"));
    assert!(!str_eq("same", "sane"));
}
