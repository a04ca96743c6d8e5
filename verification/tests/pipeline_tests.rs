use columnize::columnar::{
    column_metas, translate, ColumnDecl, DeclKind, LogicalHint, PhysicalType, RepetitionKind,
};
use columnize::emit::{emit_column, BatchValues};
use columnize::error::Error;
use columnize::group::{group_records, order_buckets, Record};
use columnize::plan_bucket;
use columnize::resolve::resolve;
use columnize::shape::{infer, shape_eq, Shape};
use columnize::value::Value;

fn dict(entries: Vec<(&str, Value)>) -> Value {
    Value::Dict(entries.into_iter().map(|(k, v)| (k.to_string(), v)).collect())
}

fn path(parts: Vec<&str>) -> Vec<String> {
    parts.into_iter().map(|p| p.to_string()).collect()
}

fn record(id: u8, data: Value) -> Record {
    Record { id: vec![id; 4], data, raw: vec![id, id] }
}

#[test]
fn translate_scalars_to_physical_types() {
    let cases = vec![
        (Shape::Null, PhysicalType::Boolean, LogicalHint::Plain),
        (Shape::Bool, PhysicalType::Boolean, LogicalHint::Plain),
        (Shape::Integer, PhysicalType::Int64, LogicalHint::UnsignedInt64),
        (Shape::Float, PhysicalType::Double, LogicalHint::Plain),
        (Shape::Text, PhysicalType::ByteArray, LogicalHint::Utf8),
        (Shape::Bytes, PhysicalType::ByteArray, LogicalHint::Plain),
        (Shape::Link, PhysicalType::ByteArray, LogicalHint::Plain),
    ];
    for (sh, pt, lh) in cases {
        let d = translate(&sh, "f", false).unwrap();
        assert_eq!(d.name, "f");
        assert_eq!(d.repetition, RepetitionKind::Required);
        match d.kind {
            DeclKind::Leaf(p, l) => {
                assert_eq!(p, pt);
                assert_eq!(l, lh);
            },
            DeclKind::Group(_) => panic!("expected a leaf"),
        }
    }
}

#[test]
fn translate_list_is_repeated_element() {
    let sh = Shape::List(Box::new(Shape::Integer));
    let d = translate(&sh, "xs", false).unwrap();
    assert_eq!(d.repetition, RepetitionKind::Repeated);
    assert!(matches!(d.kind, DeclKind::Leaf(PhysicalType::Int64, _)));
}

#[test]
fn translate_list_of_list_fails() {
    let sh = Shape::List(Box::new(Shape::List(Box::new(Shape::Integer))));
    let e = translate(&sh, "xs", false).unwrap_err();
    assert!(matches!(e, Error::NestedListUnsupported));
    assert_eq!(e.message(), "nested lists are not implemented");
}

#[test]
fn column_metas_levels_and_paths() {
    let sh = infer(&dict(vec![
        ("plain", Value::Integer(1)),
        ("xs", Value::List(vec![Value::Integer(1)])),
    ]));
    let root = translate(&wrap_record_shape(&sh), "", false).unwrap();
    let metas = column_metas(&root);
    assert_eq!(metas.len(), 3);
    assert_eq!(metas[0].path, path(vec!["cid"]));
    assert_eq!(metas[0].max_rep, 0);
    assert_eq!(metas[0].max_def, 0);
    assert_eq!(metas[1].path, path(vec!["data", "plain"]));
    assert_eq!(metas[1].max_rep, 0);
    assert_eq!(metas[2].path, path(vec!["data", "xs"]));
    assert_eq!(metas[2].max_rep, 1);
    assert_eq!(metas[2].max_def, 1);
}

fn wrap_record_shape(data_shape: &Shape) -> Shape {
    // the whole-record wrapper as the grouping builds it
    let cloned = clone_shape(data_shape);
    Shape::Dict(vec![("cid".to_string(), Shape::Bytes), ("data".to_string(), cloned)])
}

fn clone_shape(s: &Shape) -> Shape {
    match s {
        Shape::Null => Shape::Null,
        Shape::Bool => Shape::Bool,
        Shape::Integer => Shape::Integer,
        Shape::Float => Shape::Float,
        Shape::Text => Shape::Text,
        Shape::Bytes => Shape::Bytes,
        Shape::Link => Shape::Link,
        Shape::List(b) => Shape::List(Box::new(clone_shape(b))),
        Shape::Dict(m) => Shape::Dict(
            m.iter().map(|(k, v)| (k.clone(), clone_shape(v))).collect(),
        ),
    }
}

#[test]
fn resolver_list_levels() {
    let payload = dict(vec![(
        "xs",
        Value::List(vec![Value::Integer(10), Value::Integer(20), Value::Integer(30)]),
    )]);
    let out = resolve(&vec![9; 4], &payload, &vec![], &path(vec!["data", "xs"]), 1).unwrap();
    assert_eq!(out.len(), 3);
    let levels: Vec<usize> = out.iter().map(|p| p.1).collect();
    assert_eq!(levels, vec![0, 1, 1]);
    assert!(matches!(out[0].0, Value::Integer(10)));
    assert!(matches!(out[2].0, Value::Integer(30)));
}

#[test]
fn resolver_empty_list_collapses_to_one_null_pair() {
    let payload = dict(vec![("xs", Value::List(vec![]))]);
    let out = resolve(&vec![9; 4], &payload, &vec![], &path(vec!["data", "xs"]), 1).unwrap();
    assert_eq!(out.len(), 1);
    assert!(matches!(out[0].0, Value::Null));
    assert_eq!(out[0].1, 0);
}

#[test]
fn resolver_cid_and_rawbytes_roots() {
    let id = vec![1, 2, 3, 4];
    let raw = vec![9, 9];
    let payload = Value::Integer(5);
    let out = resolve(&id, &payload, &raw, &path(vec!["cid"]), 0).unwrap();
    assert_eq!(out.len(), 1);
    match &out[0].0 {
        Value::Link(c) => assert_eq!(c, &id),
        _ => panic!("expected a link"),
    }
    let out = resolve(&id, &payload, &raw, &path(vec!["rawbytes"]), 0).unwrap();
    match &out[0].0 {
        Value::Bytes(b) => assert_eq!(b, &raw),
        _ => panic!("expected bytes"),
    }
}

#[test]
fn resolver_missing_segment_is_fatal() {
    let payload = dict(vec![("x", Value::Integer(1))]);
    let e = resolve(&vec![1], &payload, &vec![], &path(vec!["data", "nope"]), 0).unwrap_err();
    assert!(matches!(e, Error::MissingPathSegment));
}

#[test]
fn resolver_unexpected_root_is_fatal() {
    let payload = dict(vec![("x", Value::Integer(1))]);
    let e = resolve(&vec![1], &payload, &vec![], &path(vec!["elsewhere"]), 0).unwrap_err();
    assert!(matches!(e, Error::UnexpectedRootPath));
    assert_eq!(e.message(), "unexpected root path");
}

#[test]
fn emit_integer_round_trip() {
    let pairs = vec![(Value::Integer(41), 0usize), (Value::Integer(-7), 0usize)];
    let out = emit_column(PhysicalType::Int64, &pairs, 0).unwrap();
    match out.values {
        BatchValues::Ints64(xs) => assert_eq!(xs, vec![41, -7]),
        _ => panic!("expected 64-bit integers"),
    }
    assert_eq!(out.rep_levels, vec![0, 0]);
    assert!(out.def_levels.is_none());
}

#[test]
fn emit_type_mismatch_is_fatal() {
    let pairs = vec![
        (Value::Integer(1), 0usize),
        (Value::Text("oops".to_string()), 0usize),
    ];
    let e = emit_column(PhysicalType::Int64, &pairs, 0).unwrap_err();
    match e {
        Error::BadType { expected, found } => {
            assert_eq!(expected, PhysicalType::Int64);
            assert!(matches!(found, Value::Text(_)));
        },
        _ => panic!("expected a type error"),
    }
}

#[test]
fn emit_byteish_forms() {
    let pairs = vec![
        (Value::Text("ab".to_string()), 0usize),
        (Value::Bytes(vec![1, 2, 3]), 1usize),
        (Value::Link(vec![7, 8]), 1usize),
        (Value::Null, 0usize),
    ];
    let out = emit_column(PhysicalType::ByteArray, &pairs, 1).unwrap();
    match out.values {
        BatchValues::Byteish(xs) => {
            assert_eq!(xs[0], b"ab".to_vec());
            assert_eq!(xs[1], vec![1, 2, 3]);
            assert_eq!(xs[2], vec![7, 8]);
            assert_eq!(xs[3], Vec::<u8>::new());
        },
        _ => panic!("expected byte arrays"),
    }
    assert_eq!(out.rep_levels, vec![0, 1, 1, 0]);
    assert_eq!(out.def_levels, Some(vec![1, 1, 1, 1]));
}

#[test]
fn emit_unimplemented_physical_types() {
    let pairs = vec![(Value::Integer(1), 0usize)];
    let e = emit_column(PhysicalType::Int96, &pairs, 0).unwrap_err();
    assert!(matches!(e, Error::UnsupportedPhysicalType));
    let e = emit_column(PhysicalType::FixedLenByteArray, &pairs, 0).unwrap_err();
    assert!(matches!(e, Error::UnsupportedPhysicalType));
}

#[test]
fn grouping_is_a_partition() {
    let records = vec![
        record(1, dict(vec![("x", Value::Integer(1))])),
        record(2, dict(vec![("x", Value::Text("s".to_string()))])),
        record(3, dict(vec![("x", Value::Integer(5))])),
    ];
    let buckets = group_records(records);
    assert_eq!(buckets.len(), 2);
    let total: usize = buckets.iter().map(|b| b.records.len()).sum();
    assert_eq!(total, 3);
    for b in &buckets {
        for r in &b.records {
            assert!(shape_eq(&columnize::shape::record_shape(&r.data), &b.shape));
        }
    }
    assert!(!shape_eq(&buckets[0].shape, &buckets[1].shape));
}

#[test]
fn buckets_order_by_population() {
    let records = vec![
        record(1, dict(vec![("x", Value::Integer(1))])),
        record(2, dict(vec![("x", Value::Text("s".to_string()))])),
        record(3, dict(vec![("x", Value::Integer(5))])),
    ];
    let buckets = order_buckets(group_records(records));
    assert_eq!(buckets[0].records.len(), 2);
    assert_eq!(buckets[1].records.len(), 1);
}

#[test]
fn end_to_end_single_bucket() {
    let a = record(1, dict(vec![("x", Value::Integer(1)), ("y", Value::Text("a".to_string()))]));
    let b = record(2, dict(vec![("x", Value::Integer(2)), ("y", Value::Text("b".to_string()))]));
    let buckets = group_records(vec![a, b]);
    assert_eq!(buckets.len(), 1);
    let plan = plan_bucket(&buckets[0]).unwrap();
    assert_eq!(plan.columns.len(), 3);
    assert_eq!(plan.columns[0].meta.path, path(vec!["cid"]));
    match &plan.columns[0].data.values {
        BatchValues::Byteish(xs) => {
            assert_eq!(xs[0], vec![1; 4]);
            assert_eq!(xs[1], vec![2; 4]);
        },
        _ => panic!("expected byte arrays for the identifier column"),
    }
    assert_eq!(plan.columns[1].meta.path, path(vec!["data", "x"]));
    match &plan.columns[1].data.values {
        BatchValues::Ints64(xs) => assert_eq!(xs, &vec![1, 2]),
        _ => panic!("expected 64-bit integers"),
    }
    assert_eq!(plan.columns[2].meta.path, path(vec!["data", "y"]));
    match &plan.columns[2].data.values {
        BatchValues::Byteish(xs) => {
            assert_eq!(xs[0], b"a".to_vec());
            assert_eq!(xs[1], b"b".to_vec());
        },
        _ => panic!("expected byte arrays"),
    }
    assert_eq!(plan.columns[1].data.rep_levels, vec![0, 0]);
}

#[test]
fn heterogeneous_payloads_make_two_buckets() {
    let a = record(1, dict(vec![("x", Value::Integer(1))]));
    let b = record(2, dict(vec![("x", Value::Float(1.5f64.to_bits()))]));
    let buckets = order_buckets(group_records(vec![a, b]));
    assert_eq!(buckets.len(), 2);
    for bucket in &buckets {
        assert_eq!(bucket.records.len(), 1);
        let plan = plan_bucket(bucket).unwrap();
        assert_eq!(plan.columns.len(), 2);
        match &plan.columns[1].data.values {
            BatchValues::Ints64(xs) => assert_eq!(xs, &vec![1]),
            BatchValues::DoubleBits(xs) => {
                assert_eq!(xs.len(), 1);
                assert_eq!(f64::from_bits(xs[0]), 1.5);
            },
            _ => panic!("expected an integer or double column"),
        }
    }
}

#[test]
fn plan_bucket_reports_type_mismatch() {
    // two records forced into one bucket by hand: the second's field type
    // disagrees with the bucket's shape
    let a = record(1, dict(vec![("x", Value::Integer(1))]));
    let mut buckets = group_records(vec![a]);
    buckets[0].records.push(record(2, dict(vec![("x", Value::Text("s".to_string()))])));
    let e = plan_bucket(&buckets[0]).unwrap_err();
    assert!(matches!(e, Error::BadType { .. }));
}

#[test]
fn schema_group_fields_follow_sorted_keys() {
    let sh = infer(&dict(vec![("b", Value::Integer(1)), ("a", Value::Bool(true))]));
    let d = translate(&sh, "", false).unwrap();
    match d.kind {
        DeclKind::Group(children) => {
            assert_eq!(children.len(), 2);
            assert_eq!(children[0].name, "a");
            assert_eq!(children[1].name, "b");
        },
        _ => panic!("expected a group"),
    }
}
