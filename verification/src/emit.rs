use vstd::prelude::*;
use vstd::string::StringSliceAdditionalSpecFns;
use vstd::string::StrSliceExecFns;
use vstd::utf8::encode_utf8;

use crate::columnar::PhysicalType;
use crate::error::Error;
use crate::resolve::{flatten_value, lemma_pairs_view, lookup_entry, pairs_view, resolve_data, walk_path};
use crate::value::{clone_bytes, clone_value, SpecValue, Value};

verus! {

/// One typed batch of column values, ready for a columnar writer.
#[derive(Debug)]
pub enum BatchValues {
    Bools(Vec<bool>),
    Ints32(Vec<i32>),
    Ints64(Vec<i64>),
    /// Bit patterns of the 64-bit source floats; the caller narrows them to
    /// 32-bit floats, the one step that cannot happen here.
    FloatBits(Vec<u64>),
    /// Bit patterns of the 64-bit source floats.
    DoubleBits(Vec<u64>),
    Byteish(Vec<Vec<u8>>),
}

/// A column's emitted arrays: coerced values, definition levels (present
/// only when the column sits under a repeated field, and then constant), and
/// the repetition levels handed over from the resolver.
#[derive(Debug)]
pub struct EmittedColumn {
    pub values: BatchValues,
    pub def_levels: Option<Vec<usize>>,
    pub rep_levels: Vec<usize>,
}

/// Whether one value's tag agrees with the declared physical type.
pub open spec fn coerce_ok(pt: PhysicalType, v: SpecValue) -> bool {
    match pt {
        PhysicalType::Boolean => v is Bool,
        PhysicalType::Int32 => v is Integer,
        PhysicalType::Int64 => v is Integer,
        PhysicalType::Float => v is Float,
        PhysicalType::Double => v is Float,
        PhysicalType::ByteArray => v is Text || v is Bytes || v is Link || v is Null,
        PhysicalType::Int96 => false,
        PhysicalType::FixedLenByteArray => false,
    }
}

/// The byte-array form of a value: text as its UTF-8 bytes, bytes and links
/// as themselves, null as the zero-length placeholder.
pub open spec fn bytes_of(v: SpecValue) -> Seq<u8> {
    match v {
        SpecValue::Text(s) => encode_utf8(s),
        SpecValue::Bytes(b) => b,
        SpecValue::Link(c) => c,
        _ => Seq::empty(),
    }
}

pub open spec fn all_coerce(pt: PhysicalType, pv: Seq<(SpecValue, int)>) -> bool {
    forall|i: int| 0 <= i < pv.len() ==> coerce_ok(pt, (#[trigger] pv[i]).0)
}

/// What the emitted value batch holds, per declared physical type.
pub open spec fn values_match(pt: PhysicalType, vs: BatchValues, pv: Seq<(SpecValue, int)>) -> bool {
    match pt {
        PhysicalType::Boolean => vs matches BatchValues::Bools(xs) && xs@.len() == pv.len() && (
        forall|i: int| 0 <= i < pv.len() ==> #[trigger] xs@[i] == pv[i].0->Bool_0),
        PhysicalType::Int32 => vs matches BatchValues::Ints32(xs) && xs@.len() == pv.len() && (
        forall|i: int| 0 <= i < pv.len() ==> #[trigger] xs@[i] == pv[i].0->Integer_0 as i32),
        PhysicalType::Int64 => vs matches BatchValues::Ints64(xs) && xs@.len() == pv.len() && (
        forall|i: int| 0 <= i < pv.len() ==> #[trigger] xs@[i] == pv[i].0->Integer_0 as i64),
        PhysicalType::Float => vs matches BatchValues::FloatBits(xs) && xs@.len() == pv.len() && (
        forall|i: int| 0 <= i < pv.len() ==> #[trigger] xs@[i] == pv[i].0->Float_0),
        PhysicalType::Double => vs matches BatchValues::DoubleBits(xs) && xs@.len() == pv.len() && (
        forall|i: int| 0 <= i < pv.len() ==> #[trigger] xs@[i] == pv[i].0->Float_0),
        PhysicalType::ByteArray => vs matches BatchValues::Byteish(xs) && xs@.len() == pv.len() && (
        forall|i: int| 0 <= i < pv.len() ==> (#[trigger] xs@[i])@ == bytes_of(pv[i].0)),
        PhysicalType::Int96 => false,
        PhysicalType::FixedLenByteArray => false,
    }
}

/// Everything emission promises of one successfully emitted column.
pub open spec fn emitted_ok(
    pt: PhysicalType,
    out: EmittedColumn,
    pv: Seq<(SpecValue, int)>,
    max_def: int,
) -> bool {
    &&& values_match(pt, out.values, pv)
    &&& out.rep_levels@.len() == pv.len()
    &&& (forall|i: int| 0 <= i < pv.len() ==> #[trigger] out.rep_levels@[i] as int == pv[i].1)
    &&& (max_def == 0 ==> out.def_levels is None)
    &&& (max_def > 0 ==> (out.def_levels matches Option::Some(d) && d@.len() == pv.len() && (
    forall|i: int| 0 <= i < pv.len() ==> #[trigger] d@[i] == max_def)))
}

/// Coerce one column's resolved stream to its declared physical type and
/// build the arrays a columnar writer takes. A value whose tag disagrees
/// with the declared type is fatal for the whole column.
#[verifier::loop_isolation(false)]
pub fn emit_column(pt: PhysicalType, pairs: &Vec<(Value, usize)>, max_def: usize) -> (r: Result<
    EmittedColumn,
    Error,
>)
    ensures
        (pt is Int96 || pt is FixedLenByteArray) ==> (r matches Err(e)
            && e is UnsupportedPhysicalType),
        !(pt is Int96 || pt is FixedLenByteArray) && all_coerce(pt, pairs_view(pairs@)) ==> (
        r matches Ok(out) && emitted_ok(pt, out, pairs_view(pairs@), max_def as int)),
        !(pt is Int96 || pt is FixedLenByteArray) && !all_coerce(pt, pairs_view(pairs@)) ==> (
        r matches Err(e) && e matches Error::BadType { expected, found } && expected == pt && (
        exists|i: int|
            0 <= i < pairs_view(pairs@).len() && !coerce_ok(pt, (#[trigger] pairs_view(
                pairs@,
            )[i]).0) && found@ == pairs_view(pairs@)[i].0)),
{
    match pt {
        PhysicalType::Int96 => {
            return Err(Error::UnsupportedPhysicalType);
        },
        PhysicalType::FixedLenByteArray => {
            return Err(Error::UnsupportedPhysicalType);
        },
        _ => {},
    }
    proof {
        lemma_pairs_view(pairs@);
    }
    let ghost pv: Seq<(SpecValue, int)> = pairs_view(pairs@);
    let n = pairs.len();
    let mut reps: Vec<usize> = Vec::new();
    let mut i: usize = 0;
    while i < n
        invariant
            i <= n,
            reps@.len() == i,
            forall|k: int| 0 <= k < i ==> #[trigger] reps@[k] as int == pv[k].1,
        decreases n - i,
    {
        reps.push(pairs[i].1);
        i = i + 1;
    }
    let def_levels: Option<Vec<usize>> = if max_def > 0 {
        let mut ds: Vec<usize> = Vec::new();
        let mut j: usize = 0;
        while j < n
            invariant
                j <= n,
                ds@.len() == j,
                forall|k: int| 0 <= k < j ==> #[trigger] ds@[k] == max_def,
            decreases n - j,
        {
            ds.push(max_def);
            j = j + 1;
        }
        Option::Some(ds)
    } else {
        Option::None
    };
    match pt {
        PhysicalType::Boolean => {
            let mut xs: Vec<bool> = Vec::new();
            let mut i: usize = 0;
            while i < n
                invariant
                    i <= n,
                    xs@.len() == i,
                    forall|k: int| 0 <= k < i ==> coerce_ok(pt, (#[trigger] pv[k]).0),
                    forall|k: int| 0 <= k < i ==> #[trigger] xs@[k] == pv[k].0->Bool_0,
                decreases n - i,
            {
                match &pairs[i].0 {
                    Value::Bool(b) => {
                        xs.push(*b);
                    },
                    _ => {
                        proof {
                            assert(pv[i as int] == (pairs@[i as int].0@, pairs@[i as int].1 as int));
                            assert(!coerce_ok(pt, pv[i as int].0));
                            assert(!all_coerce(pt, pv));
                        }
                        return Err(
                            Error::BadType { expected: pt, found: clone_value(&pairs[i].0) },
                        );
                    },
                }
                i = i + 1;
            }
            Ok(EmittedColumn { values: BatchValues::Bools(xs), def_levels, rep_levels: reps })
        },
        PhysicalType::Int32 => {
            let mut xs: Vec<i32> = Vec::new();
            let mut i: usize = 0;
            while i < n
                invariant
                    i <= n,
                    xs@.len() == i,
                    forall|k: int| 0 <= k < i ==> coerce_ok(pt, (#[trigger] pv[k]).0),
                    forall|k: int| 0 <= k < i ==> #[trigger] xs@[k] == pv[k].0->Integer_0 as i32,
                decreases n - i,
            {
                match &pairs[i].0 {
                    Value::Integer(iv) => {
                        xs.push(#[verifier::truncate] (*iv as i32));
                    },
                    _ => {
                        proof {
                            assert(pv[i as int] == (pairs@[i as int].0@, pairs@[i as int].1 as int));
                            assert(!coerce_ok(pt, pv[i as int].0));
                            assert(!all_coerce(pt, pv));
                        }
                        return Err(
                            Error::BadType { expected: pt, found: clone_value(&pairs[i].0) },
                        );
                    },
                }
                i = i + 1;
            }
            Ok(EmittedColumn { values: BatchValues::Ints32(xs), def_levels, rep_levels: reps })
        },
        PhysicalType::Int64 => {
            let mut xs: Vec<i64> = Vec::new();
            let mut i: usize = 0;
            while i < n
                invariant
                    i <= n,
                    xs@.len() == i,
                    forall|k: int| 0 <= k < i ==> coerce_ok(pt, (#[trigger] pv[k]).0),
                    forall|k: int| 0 <= k < i ==> #[trigger] xs@[k] == pv[k].0->Integer_0 as i64,
                decreases n - i,
            {
                match &pairs[i].0 {
                    Value::Integer(iv) => {
                        xs.push(*iv);
                    },
                    _ => {
                        proof {
                            assert(pv[i as int] == (pairs@[i as int].0@, pairs@[i as int].1 as int));
                            assert(!coerce_ok(pt, pv[i as int].0));
                            assert(!all_coerce(pt, pv));
                        }
                        return Err(
                            Error::BadType { expected: pt, found: clone_value(&pairs[i].0) },
                        );
                    },
                }
                i = i + 1;
            }
            Ok(EmittedColumn { values: BatchValues::Ints64(xs), def_levels, rep_levels: reps })
        },
        PhysicalType::Float => {
            let mut xs: Vec<u64> = Vec::new();
            let mut i: usize = 0;
            while i < n
                invariant
                    i <= n,
                    xs@.len() == i,
                    forall|k: int| 0 <= k < i ==> coerce_ok(pt, (#[trigger] pv[k]).0),
                    forall|k: int| 0 <= k < i ==> #[trigger] xs@[k] == pv[k].0->Float_0,
                decreases n - i,
            {
                match &pairs[i].0 {
                    Value::Float(bits) => {
                        xs.push(*bits);
                    },
                    _ => {
                        proof {
                            assert(pv[i as int] == (pairs@[i as int].0@, pairs@[i as int].1 as int));
                            assert(!coerce_ok(pt, pv[i as int].0));
                            assert(!all_coerce(pt, pv));
                        }
                        return Err(
                            Error::BadType { expected: pt, found: clone_value(&pairs[i].0) },
                        );
                    },
                }
                i = i + 1;
            }
            Ok(EmittedColumn { values: BatchValues::FloatBits(xs), def_levels, rep_levels: reps })
        },
        PhysicalType::Double => {
            let mut xs: Vec<u64> = Vec::new();
            let mut i: usize = 0;
            while i < n
                invariant
                    i <= n,
                    xs@.len() == i,
                    forall|k: int| 0 <= k < i ==> coerce_ok(pt, (#[trigger] pv[k]).0),
                    forall|k: int| 0 <= k < i ==> #[trigger] xs@[k] == pv[k].0->Float_0,
                decreases n - i,
            {
                match &pairs[i].0 {
                    Value::Float(bits) => {
                        xs.push(*bits);
                    },
                    _ => {
                        proof {
                            assert(pv[i as int] == (pairs@[i as int].0@, pairs@[i as int].1 as int));
                            assert(!coerce_ok(pt, pv[i as int].0));
                            assert(!all_coerce(pt, pv));
                        }
                        return Err(
                            Error::BadType { expected: pt, found: clone_value(&pairs[i].0) },
                        );
                    },
                }
                i = i + 1;
            }
            Ok(EmittedColumn { values: BatchValues::DoubleBits(xs), def_levels, rep_levels: reps })
        },
        _ => {
            let mut xs: Vec<Vec<u8>> = Vec::new();
            let mut i: usize = 0;
            while i < n
                invariant
                    pt is ByteArray,
                    i <= n,
                    xs@.len() == i,
                    forall|k: int| 0 <= k < i ==> coerce_ok(pt, (#[trigger] pv[k]).0),
                    forall|k: int| 0 <= k < i ==> (#[trigger] xs@[k])@ == bytes_of(pv[k].0),
                decreases n - i,
            {
                match &pairs[i].0 {
                    Value::Text(s) => {
                        xs.push(s.as_str().as_bytes_vec());
                    },
                    Value::Bytes(b) => {
                        xs.push(clone_bytes(b));
                    },
                    Value::Link(c) => {
                        xs.push(clone_bytes(c));
                    },
                    Value::Null => {
                        xs.push(Vec::new());
                    },
                    _ => {
                        proof {
                            assert(pv[i as int] == (pairs@[i as int].0@, pairs@[i as int].1 as int));
                            assert(!coerce_ok(pt, pv[i as int].0));
                            assert(!all_coerce(pt, pv));
                        }
                        return Err(
                            Error::BadType { expected: pt, found: clone_value(&pairs[i].0) },
                        );
                    },
                }
                i = i + 1;
            }
            Ok(EmittedColumn { values: BatchValues::Byteish(xs), def_levels, rep_levels: reps })
        },
    }
}

/// Round-trip scalar fidelity: a record whose payload is one integer field
/// resolves to exactly that integer at level zero, and any 64-bit integer
/// batch emitted for that stream holds exactly the original value.
pub proof fn lemma_scalar_round_trip(key: Seq<char>, v: i64)
    ensures
        resolve_data(
            SpecValue::Dict(seq![(key, SpecValue::Integer(v as int))]),
            seq![key],
            1,
        ) == Option::Some(seq![(SpecValue::Integer(v as int), 0int)]),
        forall|vs: BatchValues|
            values_match(
                PhysicalType::Int64,
                vs,
                seq![(SpecValue::Integer(v as int), 0int)],
            ) ==> (vs matches BatchValues::Ints64(xs) && xs@.len() == 1 && xs@[0] == v),
{
    let payload = SpecValue::Dict(seq![(key, SpecValue::Integer(v as int))]);
    let path: Seq<Seq<char>> = seq![key];
    assert(lookup_entry(seq![(key, SpecValue::Integer(v as int))], key) == Option::Some(
        SpecValue::Integer(v as int),
    ));
    assert(path.drop_first().len() == 0);
    assert(walk_path(SpecValue::Integer(v as int), path.drop_first()) == Option::Some(
        SpecValue::Integer(v as int),
    ));
    assert(walk_path(payload, path) == Option::Some(SpecValue::Integer(v as int)));
    assert(flatten_value(SpecValue::Integer(v as int), 1) =~= seq![
        (SpecValue::Integer(v as int), 0int),
    ]);
    assert forall|vs: BatchValues|
        values_match(
            PhysicalType::Int64,
            vs,
            seq![(SpecValue::Integer(v as int), 0int)],
        ) implies (vs matches BatchValues::Ints64(xs) && xs@.len() == 1 && xs@[0] == v) by {
        let pv = seq![(SpecValue::Integer(v as int), 0int)];
        assert(pv[0].0->Integer_0 == v as int);
        assert((v as int) as i64 == v);
    }
}

} // verus!
