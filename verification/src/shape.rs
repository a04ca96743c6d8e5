use vstd::prelude::*;
use vstd::seq_lib::lemma_multiset_commutative;
use vstd::string::StrSliceExecFns;

use crate::value::{
    clone_string, lemma_value_entries_view, lemma_value_list_view, SpecValue, Value,
    value_entries_view, value_list_view,
};

verus! {

/// The structural schema of a value: the same tags as `Value`, with every
/// payload erased. A list keeps only the shape of its first element; a map
/// keeps its fields sorted by key, so that two maps whose keys were inserted
/// in different orders still share one shape.
#[derive(Debug)]
pub enum Shape {
    Null,
    Bool,
    Integer,
    Float,
    Text,
    Bytes,
    List(Box<Shape>),
    Dict(Vec<(String, Shape)>),
    Link,
}

/// The mathematical model of a `Shape`.
pub enum SpecShape {
    Null,
    Bool,
    Integer,
    Float,
    Text,
    Bytes,
    List(Box<SpecShape>),
    Dict(Seq<(Seq<char>, SpecShape)>),
    Link,
}

pub open spec fn shape_view(s: Shape) -> SpecShape
    decreases s,
{
    match s {
        Shape::Null => SpecShape::Null,
        Shape::Bool => SpecShape::Bool,
        Shape::Integer => SpecShape::Integer,
        Shape::Float => SpecShape::Float,
        Shape::Text => SpecShape::Text,
        Shape::Bytes => SpecShape::Bytes,
        Shape::List(b) => SpecShape::List(Box::new(shape_view(*b))),
        Shape::Dict(m) => SpecShape::Dict(shape_entries_view(m@)),
        Shape::Link => SpecShape::Link,
    }
}

pub open spec fn shape_entries_view(s: Seq<(String, Shape)>) -> Seq<(Seq<char>, SpecShape)>
    decreases s,
{
    if s.len() == 0 {
        Seq::empty()
    } else {
        seq![(s[0].0@, shape_view(s[0].1))] + shape_entries_view(s.drop_first())
    }
}

impl View for Shape {
    type V = SpecShape;

    open spec fn view(&self) -> SpecShape {
        shape_view(*self)
    }
}

pub broadcast proof fn lemma_shape_entries_view(s: Seq<(String, Shape)>)
    ensures
        (#[trigger] shape_entries_view(s)).len() == s.len(),
        forall|i: int|
            0 <= i < s.len() ==> #[trigger] shape_entries_view(s)[i] == (s[i].0@, shape_view(
                s[i].1,
            )),
    decreases s.len(),
{
    if s.len() > 0 {
        lemma_shape_entries_view(s.drop_first());
        assert forall|i: int|
            0 <= i < s.len() implies #[trigger] shape_entries_view(s)[i] == (s[i].0@, shape_view(
            s[i].1,
        )) by {
            if i > 0 {
                assert(shape_entries_view(s.drop_first())[i - 1] == (s.drop_first()[i - 1].0@,
                    shape_view(s.drop_first()[i - 1].1)));
                assert(s.drop_first()[i - 1] == s[i]);
            }
        }
    }
}

/// Lexicographic order on key texts, by code point.
pub open spec fn chars_le(a: Seq<char>, b: Seq<char>) -> bool
    decreases a.len(),
{
    if a.len() == 0 {
        true
    } else if b.len() == 0 {
        false
    } else if (a[0] as u32) < (b[0] as u32) {
        true
    } else if a[0] == b[0] {
        chars_le(a.drop_first(), b.drop_first())
    } else {
        false
    }
}

pub proof fn lemma_char_trichotomy(c1: char, c2: char)
    ensures
        (c1 as u32) < (c2 as u32) || (c2 as u32) < (c1 as u32) || c1 == c2,
{
}

pub proof fn lemma_chars_le_refl(a: Seq<char>)
    ensures
        chars_le(a, a),
    decreases a.len(),
{
    if a.len() > 0 {
        lemma_chars_le_refl(a.drop_first());
    }
}

pub proof fn lemma_chars_le_total(a: Seq<char>, b: Seq<char>)
    ensures
        chars_le(a, b) || chars_le(b, a),
    decreases a.len(),
{
    if a.len() > 0 && b.len() > 0 {
        lemma_char_trichotomy(a[0], b[0]);
        if a[0] == b[0] {
            lemma_chars_le_total(a.drop_first(), b.drop_first());
        }
    }
}

pub proof fn lemma_chars_le_antisym(a: Seq<char>, b: Seq<char>)
    requires
        chars_le(a, b),
        chars_le(b, a),
    ensures
        a == b,
    decreases a.len(),
{
    if a.len() == 0 {
        assert(b.len() == 0);
        assert(a =~= b);
    } else {
        assert(b.len() > 0);
        lemma_char_trichotomy(a[0], b[0]);
        assert(a[0] == b[0]);
        lemma_chars_le_antisym(a.drop_first(), b.drop_first());
        assert(a =~= seq![a[0]] + a.drop_first());
        assert(b =~= seq![b[0]] + b.drop_first());
        assert(seq![a[0]] + a.drop_first() == seq![b[0]] + b.drop_first());
    }
}

pub proof fn lemma_chars_le_trans(a: Seq<char>, b: Seq<char>, c: Seq<char>)
    requires
        chars_le(a, b),
        chars_le(b, c),
    ensures
        chars_le(a, c),
    decreases a.len(),
{
    if a.len() > 0 && b.len() > 0 && c.len() > 0 {
        lemma_char_trichotomy(a[0], b[0]);
        lemma_char_trichotomy(b[0], c[0]);
        lemma_char_trichotomy(a[0], c[0]);
        if a[0] == b[0] && b[0] == c[0] {
            lemma_chars_le_trans(a.drop_first(), b.drop_first(), c.drop_first());
        }
    }
}

/// Decides the key order on two texts.
pub fn str_le(a: &str, b: &str) -> (r: bool)
    ensures
        r == chars_le(a@, b@),
{
    let la: usize = a.unicode_len();
    let lb: usize = b.unicode_len();
    let mut i: usize = 0;
    proof {
        assert(a@.skip(0) =~= a@);
        assert(b@.skip(0) =~= b@);
    }
    while i < la && i < lb
        invariant
            i <= la,
            i <= lb,
            la == a@.len(),
            lb == b@.len(),
            chars_le(a@, b@) == chars_le(a@.skip(i as int), b@.skip(i as int)),
        decreases la - i,
    {
        let ca = a.get_char(i);
        let cb = b.get_char(i);
        if (ca as u32) < (cb as u32) {
            proof {
                assert(a@.skip(i as int)[0] == ca);
                assert(b@.skip(i as int)[0] == cb);
            }
            return true;
        }
        if (cb as u32) < (ca as u32) {
            proof {
                assert(a@.skip(i as int)[0] == ca);
                assert(b@.skip(i as int)[0] == cb);
            }
            return false;
        }
        proof {
            assert(ca == cb);
            assert(a@.skip(i as int)[0] == ca);
            assert(b@.skip(i as int)[0] == cb);
            assert(a@.skip(i as int).drop_first() =~= a@.skip(i + 1));
            assert(b@.skip(i as int).drop_first() =~= b@.skip(i + 1));
        }
        i = i + 1;
    }
    if i == la {
        proof {
            assert(a@.skip(i as int).len() == 0);
        }
        true
    } else {
        proof {
            assert(b@.skip(i as int).len() == 0);
            assert(a@.skip(i as int).len() > 0);
        }
        false
    }
}

/// Decides text equality.
pub fn str_eq(a: &str, b: &str) -> (r: bool)
    ensures
        r == (a@ == b@),
{
    let r = str_le(a, b) && str_le(b, a);
    proof {
        if r {
            lemma_chars_le_antisym(a@, b@);
        } else {
            lemma_chars_le_refl(a@);
            if a@ == b@ {
                assert(chars_le(a@, b@) && chars_le(b@, a@));
            }
        }
    }
    r
}

/// Insert one entry into a key-sorted entry sequence, keeping it sorted.
pub open spec fn insert_sorted(
    s: Seq<(Seq<char>, SpecShape)>,
    e: (Seq<char>, SpecShape),
) -> Seq<(Seq<char>, SpecShape)>
    decreases s.len(),
{
    if s.len() == 0 {
        seq![e]
    } else if chars_le(e.0, s[0].0) {
        seq![e] + s
    } else {
        seq![s[0]] + insert_sorted(s.drop_first(), e)
    }
}

/// Sort an entry sequence by key, by repeated insertion.
pub open spec fn sort_entries(s: Seq<(Seq<char>, SpecShape)>) -> Seq<(Seq<char>, SpecShape)>
    decreases s.len(),
{
    if s.len() == 0 {
        Seq::empty()
    } else {
        insert_sorted(sort_entries(s.drop_last()), s.last())
    }
}

pub proof fn lemma_insert_sorted_at(s: Seq<(Seq<char>, SpecShape)>, e: (Seq<char>, SpecShape), j: int)
    requires
        0 <= j <= s.len(),
        forall|k: int| 0 <= k < j ==> !chars_le(e.0, (#[trigger] s[k]).0),
        j < s.len() ==> chars_le(e.0, s[j].0),
    ensures
        insert_sorted(s, e) == s.take(j) + seq![e] + s.skip(j),
    decreases j,
{
    if j == 0 {
        assert(insert_sorted(s, e) =~= s.take(0) + seq![e] + s.skip(0));
    } else {
        assert(!chars_le(e.0, s[0].0));
        assert forall|k: int| 0 <= k < j - 1 implies !chars_le(e.0, (#[trigger] s.drop_first()[k]).0) by {
            assert(s.drop_first()[k] == s[k + 1]);
        }
        assert(j - 1 < s.drop_first().len() ==> chars_le(e.0, s.drop_first()[j - 1].0));
        lemma_insert_sorted_at(s.drop_first(), e, j - 1);
        assert(insert_sorted(s, e) =~= s.take(j) + seq![e] + s.skip(j));
    }
}

/// The structural shape of a value. Lists collapse to the shape of their
/// first element (an empty list collapses to the null shape); map fields are
/// sorted by key for a canonical order.
pub open spec fn shape_of(v: SpecValue) -> SpecShape
    decreases v,
{
    match v {
        SpecValue::Null => SpecShape::Null,
        SpecValue::Bool(_) => SpecShape::Bool,
        SpecValue::Integer(_) => SpecShape::Integer,
        SpecValue::Float(_) => SpecShape::Float,
        SpecValue::Text(_) => SpecShape::Text,
        SpecValue::Bytes(_) => SpecShape::Bytes,
        SpecValue::Link(_) => SpecShape::Link,
        SpecValue::List(l) => SpecShape::List(
            Box::new(
                if l.len() == 0 {
                    SpecShape::Null
                } else {
                    shape_of(l[0])
                },
            ),
        ),
        SpecValue::Dict(m) => SpecShape::Dict(sort_entries(shape_of_entries(m))),
    }
}

pub open spec fn shape_of_entries(s: Seq<(Seq<char>, SpecValue)>) -> Seq<(Seq<char>, SpecShape)>
    decreases s,
{
    if s.len() == 0 {
        Seq::empty()
    } else {
        seq![(s[0].0, shape_of(s[0].1))] + shape_of_entries(s.drop_first())
    }
}

pub broadcast proof fn lemma_shape_of_entries(s: Seq<(Seq<char>, SpecValue)>)
    ensures
        (#[trigger] shape_of_entries(s)).len() == s.len(),
        forall|i: int|
            0 <= i < s.len() ==> #[trigger] shape_of_entries(s)[i] == (s[i].0, shape_of(s[i].1)),
    decreases s.len(),
{
    if s.len() > 0 {
        lemma_shape_of_entries(s.drop_first());
        assert forall|i: int|
            0 <= i < s.len() implies #[trigger] shape_of_entries(s)[i] == (s[i].0, shape_of(
            s[i].1,
        )) by {
            if i > 0 {
                assert(shape_of_entries(s.drop_first())[i - 1] == (s.drop_first()[i - 1].0,
                    shape_of(s.drop_first()[i - 1].1)));
                assert(s.drop_first()[i - 1] == s[i]);
            }
        }
    }
}

/// The shape of a whole record: a two-field map holding the identifier column
/// and the decoded payload.
pub open spec fn record_shape_of(data: SpecValue) -> SpecShape {
    SpecShape::Dict(seq![("cid"@, SpecShape::Bytes), ("data"@, shape_of(data))])
}

fn find_insert_pos(out: &Vec<(String, Shape)>, key: &String) -> (j: usize)
    ensures
        j <= out@.len(),
        forall|k: int| 0 <= k < j ==> !chars_le(key@, (#[trigger] out@[k]).0@),
        j < out@.len() ==> chars_le(key@, out@[j as int].0@),
{
    let mut j: usize = 0;
    while j < out.len()
        invariant
            j <= out@.len(),
            forall|k: int| 0 <= k < j ==> !chars_le(key@, (#[trigger] out@[k]).0@),
        decreases out@.len() - j,
    {
        if str_le(key.as_str(), out[j].0.as_str()) {
            return j;
        }
        j = j + 1;
    }
    j
}

fn insert_entry(out: &mut Vec<(String, Shape)>, e: (String, Shape))
    ensures
        shape_entries_view(final(out)@) == insert_sorted(
            shape_entries_view(old(out)@),
            (e.0@, e.1@),
        ),
{
    let ghost before: Seq<(String, Shape)> = out@;
    let j = find_insert_pos(out, &e.0);
    let ghost ev: (Seq<char>, SpecShape) = (e.0@, e.1@);
    out.insert(j, e);
    proof {
        lemma_shape_entries_view(before);
        lemma_shape_entries_view(out@);
        let sv = shape_entries_view(before);
        assert forall|k: int| 0 <= k < j implies !chars_le(ev.0, (#[trigger] sv[k]).0) by {
            assert(sv[k] == (before[k].0@, shape_view(before[k].1)));
        }
        lemma_insert_sorted_at(sv, ev, j as int);
        assert(shape_entries_view(out@) =~= sv.take(j as int) + seq![ev] + sv.skip(j as int));
    }
}

/// Sort map entries by key.
pub fn sort_entries_exec(entries: Vec<(String, Shape)>) -> (r: Vec<(String, Shape)>)
    ensures
        shape_entries_view(r@) == sort_entries(shape_entries_view(entries@)),
{
    let ghost orig: Seq<(String, Shape)> = entries@;
    let mut rest = entries;
    let mut out: Vec<(String, Shape)> = Vec::new();
    proof {
        assert(orig.take(0) =~= Seq::<(String, Shape)>::empty());
        assert(shape_entries_view(orig.take(0)) =~= Seq::<(Seq<char>, SpecShape)>::empty());
    }
    while rest.len() > 0
        invariant
            rest@.len() <= orig.len(),
            rest@ == orig.skip(orig.len() - rest@.len()),
            shape_entries_view(out@) == sort_entries(
                shape_entries_view(orig.take(orig.len() - rest@.len())),
            ),
        decreases rest@.len(),
    {
        let ghost p: int = orig.len() - rest@.len();
        let e = rest.remove(0);
        proof {
            assert(e == orig[p]);
            assert(rest@ =~= orig.skip(p + 1));
        }
        insert_entry(&mut out, e);
        proof {
            lemma_shape_entries_view(orig.take(p));
            lemma_shape_entries_view(orig.take(p + 1));
            let x = shape_entries_view(orig.take(p + 1));
            assert(x.drop_last() =~= shape_entries_view(orig.take(p)));
            assert(x.last() == (orig[p].0@, shape_view(orig[p].1)));
            assert(sort_entries(x) == insert_sorted(
                sort_entries(shape_entries_view(orig.take(p))),
                (orig[p].0@, shape_view(orig[p].1)),
            ));
        }
    }
    proof {
        assert(orig.take(orig.len() as int) =~= orig);
    }
    out
}

/// Derive the canonical shape of one value.
#[verifier::loop_isolation(false)]
pub fn infer(v: &Value) -> (s: Shape)
    ensures
        s@ == shape_of(v@),
    decreases v,
{
    match v {
        Value::Null => Shape::Null,
        Value::Bool(_) => Shape::Bool,
        Value::Integer(_) => Shape::Integer,
        Value::Float(_) => Shape::Float,
        Value::Text(_) => Shape::Text,
        Value::Bytes(_) => Shape::Bytes,
        Value::Link(_) => Shape::Link,
        Value::List(l) => {
            proof {
                lemma_value_list_view(l@);
            }
            if l.len() == 0 {
                Shape::List(Box::new(Shape::Null))
            } else {
                Shape::List(Box::new(infer(&l[0])))
            }
        },
        Value::Dict(m) => {
            let mut entries: Vec<(String, Shape)> = Vec::new();
            let mut i: usize = 0;
            while i < m.len()
                invariant
                    i <= m@.len(),
                    entries@.len() == i,
                    forall|k: int|
                        0 <= k < i ==> (#[trigger] entries@[k]).0@ == m@[k].0@ && entries@[k].1@
                            == shape_of(m@[k].1@),
                decreases m@.len() - i,
            {
                let key = clone_string(&m[i].0);
                let sh = infer(&m[i].1);
                entries.push((key, sh));
                i = i + 1;
            }
            let ghost ent: Seq<(String, Shape)> = entries@;
            let sorted = sort_entries_exec(entries);
            proof {
                lemma_value_entries_view(m@);
                lemma_shape_entries_view(ent);
                lemma_shape_of_entries(value_entries_view(m@));
                assert(shape_entries_view(ent) =~= shape_of_entries(value_entries_view(m@)));
            }
            Shape::Dict(sorted)
        },
    }
}

/// Build the whole-record shape for one decoded payload.
pub fn record_shape(data: &Value) -> (s: Shape)
    ensures
        s@ == record_shape_of(data@),
{
    let sh = infer(data);
    let mut fields: Vec<(String, Shape)> = Vec::new();
    fields.push(("cid".to_owned(), Shape::Bytes));
    fields.push(("data".to_owned(), sh));
    proof {
        lemma_shape_entries_view(fields@);
        assert(shape_entries_view(fields@) =~= seq![
            ("cid"@, SpecShape::Bytes),
            ("data"@, shape_of(data@)),
        ]);
    }
    Shape::Dict(fields)
}

/// Decide structural equality of two shapes.
#[verifier::loop_isolation(false)]
pub fn shape_eq(a: &Shape, b: &Shape) -> (r: bool)
    ensures
        r == (a@ == b@),
    decreases a,
{
    match (a, b) {
        (Shape::Null, Shape::Null) => true,
        (Shape::Bool, Shape::Bool) => true,
        (Shape::Integer, Shape::Integer) => true,
        (Shape::Float, Shape::Float) => true,
        (Shape::Text, Shape::Text) => true,
        (Shape::Bytes, Shape::Bytes) => true,
        (Shape::Link, Shape::Link) => true,
        (Shape::List(x), Shape::List(y)) => shape_eq(&*x, &*y),
        (Shape::Dict(x), Shape::Dict(y)) => {
            proof {
                lemma_shape_entries_view(x@);
                lemma_shape_entries_view(y@);
            }
            if x.len() != y.len() {
                return false;
            }
            let mut i: usize = 0;
            while i < x.len()
                invariant
                    i <= x@.len(),
                    x@.len() == y@.len(),
                    forall|k: int|
                        0 <= k < i ==> (#[trigger] x@[k]).0@ == y@[k].0@ && x@[k].1@ == y@[k].1@,
                decreases x@.len() - i,
            {
                if !str_eq(x[i].0.as_str(), y[i].0.as_str()) {
                    proof {
                        assert(shape_entries_view(x@)[i as int] != shape_entries_view(y@)[i as int]);
                    }
                    return false;
                }
                if !shape_eq(&x[i].1, &y[i].1) {
                    proof {
                        assert(shape_entries_view(x@)[i as int] != shape_entries_view(y@)[i as int]);
                    }
                    return false;
                }
                i = i + 1;
            }
            proof {
                assert(shape_entries_view(x@) =~= shape_entries_view(y@));
            }
            true
        },
        _ => false,
    }
}


/// A key-sorted entry sequence.
pub open spec fn entries_sorted(s: Seq<(Seq<char>, SpecShape)>) -> bool {
    forall|i: int, j: int| 0 <= i < j < s.len() ==> chars_le((#[trigger] s[i]).0, (#[trigger] s[j]).0)
}

/// Pairwise distinct keys.
pub open spec fn entry_keys_unique(s: Seq<(Seq<char>, SpecShape)>) -> bool {
    forall|i: int, j: int| 0 <= i < j < s.len() ==> (#[trigger] s[i]).0 != (#[trigger] s[j]).0
}

/// The position at which `insert_sorted` places an entry.
pub open spec fn insert_pos(s: Seq<(Seq<char>, SpecShape)>, e: (Seq<char>, SpecShape)) -> int
    decreases s.len(),
{
    if s.len() == 0 {
        0
    } else if chars_le(e.0, s[0].0) {
        0
    } else {
        1 + insert_pos(s.drop_first(), e)
    }
}

pub proof fn lemma_insert_pos(s: Seq<(Seq<char>, SpecShape)>, e: (Seq<char>, SpecShape))
    ensures
        0 <= insert_pos(s, e) <= s.len(),
        forall|k: int| 0 <= k < insert_pos(s, e) ==> !chars_le(e.0, (#[trigger] s[k]).0),
        insert_pos(s, e) < s.len() ==> chars_le(e.0, s[insert_pos(s, e)].0),
    decreases s.len(),
{
    if s.len() > 0 && !chars_le(e.0, s[0].0) {
        lemma_insert_pos(s.drop_first(), e);
        let j = insert_pos(s, e);
        assert forall|k: int| 0 <= k < j implies !chars_le(e.0, (#[trigger] s[k]).0) by {
            if k > 0 {
                assert(s.drop_first()[k - 1] == s[k]);
                assert(!chars_le(e.0, s.drop_first()[k - 1].0));
            }
        }
        if j < s.len() {
            assert(s.drop_first()[j - 1] == s[j]);
        }
    }
}

/// `insert_sorted` splits around the insertion position; on a sorted input
/// with a fresh key it keeps sortedness, key uniqueness, and adds the entry
/// to the multiset.
pub proof fn lemma_insert_sorted_props(s: Seq<(Seq<char>, SpecShape)>, e: (Seq<char>, SpecShape))
    requires
        entries_sorted(s),
    ensures
        insert_sorted(s, e) == s.take(insert_pos(s, e)) + seq![e] + s.skip(insert_pos(s, e)),
        insert_sorted(s, e).len() == s.len() + 1,
        entries_sorted(insert_sorted(s, e)),
        insert_sorted(s, e).to_multiset() == s.to_multiset().insert(e),
        forall|q: int|
            0 <= q < insert_sorted(s, e).len() ==> insert_sorted(s, e)[q] == e || s.contains(
                #[trigger] insert_sorted(s, e)[q],
            ),
        entry_keys_unique(s) && (forall|k: int| 0 <= k < s.len() ==> (#[trigger] s[k]).0 != e.0)
            ==> entry_keys_unique(insert_sorted(s, e)),
{
    lemma_insert_pos(s, e);
    let j = insert_pos(s, e);
    lemma_insert_sorted_at(s, e, j);
    let ins = insert_sorted(s, e);
    assert(ins =~= s.take(j) + seq![e] + s.skip(j));
    assert forall|q: int| 0 <= q < ins.len() implies ins[q] == e || s.contains(
        #[trigger] ins[q],
    ) by {
        if q < j {
            assert(ins[q] == s[q]);
        } else if q > j {
            assert(ins[q] == s[q - 1]);
        }
    }
    assert forall|q1: int, q2: int| 0 <= q1 < q2 < ins.len() implies chars_le(
        (#[trigger] ins[q1]).0,
        (#[trigger] ins[q2]).0,
    ) by {
        lemma_chars_le_refl(e.0);
        if q1 < j {
            assert(ins[q1] == s[q1]);
        } else if q1 > j {
            assert(ins[q1] == s[q1 - 1]);
        }
        if q2 < j {
            assert(ins[q2] == s[q2]);
        } else if q2 > j {
            assert(ins[q2] == s[q2 - 1]);
        }
        if q1 == j && q2 > j {
            // e against a tail element: the tail starts at the first key
            // that e's key precedes
            assert(chars_le(e.0, s[j].0));
            if q2 - 1 > j {
                lemma_chars_le_trans(e.0, s[j].0, s[q2 - 1].0);
            }
        }
        if q2 == j && q1 < j {
            // a front element against e: front keys all precede e's key
            assert(!chars_le(e.0, s[q1].0));
            lemma_chars_le_total(e.0, s[q1].0);
        }
        if q1 < j && q2 > j {
            assert(chars_le(s[q1].0, s[q2 - 1].0));
        }
    }
    assert(ins.to_multiset() =~= s.to_multiset().insert(e)) by {
        broadcast use vstd::seq_lib::group_to_multiset_ensures;

        assert(ins =~= s.take(j) + (seq![e] + s.skip(j)));
        lemma_multiset_commutative(s.take(j), seq![e] + s.skip(j));
        lemma_multiset_commutative(seq![e], s.skip(j));
        assert(s =~= s.take(j) + s.skip(j));
        lemma_multiset_commutative(s.take(j), s.skip(j));
        assert(seq![e] =~= Seq::<(Seq<char>, SpecShape)>::empty().push(e));
    }
    if entry_keys_unique(s) && (forall|k: int| 0 <= k < s.len() ==> (#[trigger] s[k]).0 != e.0) {
        assert forall|q1: int, q2: int| 0 <= q1 < q2 < ins.len() implies (#[trigger] ins[q1]).0
            != (#[trigger] ins[q2]).0 by {
            if q1 < j {
                assert(ins[q1] == s[q1]);
            } else if q1 > j {
                assert(ins[q1] == s[q1 - 1]);
            }
            if q2 < j {
                assert(ins[q2] == s[q2]);
            } else if q2 > j {
                assert(ins[q2] == s[q2 - 1]);
            }
        }
    }
}

/// Sorting keeps the entries (as a multiset), keeps key uniqueness, and
/// yields a key-sorted sequence whose every element comes from the input.
pub proof fn lemma_sort_entries_props(s: Seq<(Seq<char>, SpecShape)>)
    ensures
        sort_entries(s).len() == s.len(),
        entries_sorted(sort_entries(s)),
        sort_entries(s).to_multiset() == s.to_multiset(),
        forall|q: int|
            0 <= q < sort_entries(s).len() ==> s.contains(#[trigger] sort_entries(s)[q]),
        entry_keys_unique(s) ==> entry_keys_unique(sort_entries(s)),
    decreases s.len(),
{
    broadcast use vstd::seq_lib::group_to_multiset_ensures;

    if s.len() > 0 {
        let dl = s.drop_last();
        lemma_sort_entries_props(dl);
        let sorted_dl = sort_entries(dl);
        lemma_insert_sorted_props(sorted_dl, s.last());
        assert(s =~= dl.push(s.last()));
        assert forall|q: int| 0 <= q < sort_entries(s).len() implies s.contains(
            #[trigger] sort_entries(s)[q],
        ) by {
            if sort_entries(s)[q] == s.last() {
                assert(s[s.len() - 1] == s.last());
            } else {
                assert(sorted_dl.contains(sort_entries(s)[q]));
                let w: int = choose|w: int|
                    0 <= w < sorted_dl.len() && sorted_dl[w] == sort_entries(s)[q];
                assert(dl.contains(sorted_dl[w]));
                let w2: int = choose|w2: int| 0 <= w2 < dl.len() && dl[w2] == sorted_dl[w];
                assert(s[w2] == sort_entries(s)[q]);
            }
        }
        if entry_keys_unique(s) {
            assert forall|i: int, j: int| 0 <= i < j < dl.len() implies (#[trigger] dl[i]).0 != (
            #[trigger] dl[j]).0 by {
                assert(dl[i] == s[i] && dl[j] == s[j]);
            }
            assert forall|k: int| 0 <= k < sorted_dl.len() implies (#[trigger] sorted_dl[k]).0
                != s.last().0 by {
                assert(dl.contains(sorted_dl[k]));
                let w: int = choose|w: int| 0 <= w < dl.len() && dl[w] == sorted_dl[k];
                assert(s[w] == sorted_dl[k]);
                assert(s[w].0 != s[s.len() - 1].0);
            }
        }
        assert(s.to_multiset() =~= dl.to_multiset().insert(s.last()));
    }
}

/// Two key-sorted entry sequences with the same entries are equal, when one
/// of them has pairwise distinct keys.
pub proof fn lemma_sorted_ms_unique(x: Seq<(Seq<char>, SpecShape)>, y: Seq<(Seq<char>, SpecShape)>)
    requires
        entries_sorted(x),
        entries_sorted(y),
        entry_keys_unique(x),
        x.to_multiset() == y.to_multiset(),
    ensures
        x == y,
    decreases x.len(),
{
    broadcast use {vstd::multiset::group_multiset_axioms, vstd::seq_lib::group_to_multiset_ensures};

    if x.len() == 0 {
        assert(y.to_multiset().len() == 0);
        assert(x =~= y);
    } else {
        assert(x.to_multiset().contains(x[0]));
        assert(y.to_multiset().contains(y[0]));
        assert(x.contains(y[0]));
        assert(y.contains(x[0]));
        let k: int = choose|k: int| 0 <= k < x.len() && x[k] == y[0];
        let t: int = choose|t: int| 0 <= t < y.len() && y[t] == x[0];
        if k > 0 {
            assert(chars_le(x[0].0, x[k].0));
        } else {
            lemma_chars_le_refl(x[0].0);
        }
        if t > 0 {
            assert(chars_le(y[0].0, y[t].0));
        } else {
            lemma_chars_le_refl(y[0].0);
        }
        lemma_chars_le_antisym(x[0].0, y[0].0);
        assert(x[0].0 == y[0].0);
        if k != 0 {
            assert(x[0].0 != x[k].0);
            assert(false);
        }
        assert(y[0] == x[0]);
        x.to_multiset_ensures();
        y.to_multiset_ensures();
        assert(x.remove(0) =~= x.drop_first());
        assert(y.remove(0) =~= y.drop_first());
        assert(x.remove(0).to_multiset() =~= x.to_multiset().remove(x[0]));
        assert(y.remove(0).to_multiset() =~= y.to_multiset().remove(y[0]));
        assert(x.drop_first().to_multiset() =~= x.to_multiset().remove(x[0]));
        assert(y.drop_first().to_multiset() =~= y.to_multiset().remove(y[0]));
        assert forall|i: int, j: int| 0 <= i < j < x.drop_first().len() implies chars_le(
            (#[trigger] x.drop_first()[i]).0,
            (#[trigger] x.drop_first()[j]).0,
        ) by {
            assert(x.drop_first()[i] == x[i + 1] && x.drop_first()[j] == x[j + 1]);
        }
        assert forall|i: int, j: int| 0 <= i < j < y.drop_first().len() implies chars_le(
            (#[trigger] y.drop_first()[i]).0,
            (#[trigger] y.drop_first()[j]).0,
        ) by {
            assert(y.drop_first()[i] == y[i + 1] && y.drop_first()[j] == y[j + 1]);
        }
        assert forall|i: int, j: int| 0 <= i < j < x.drop_first().len() implies (
        #[trigger] x.drop_first()[i]).0 != (#[trigger] x.drop_first()[j]).0 by {
            assert(x.drop_first()[i] == x[i + 1] && x.drop_first()[j] == x[j + 1]);
        }
        lemma_sorted_ms_unique(x.drop_first(), y.drop_first());
        assert(x =~= seq![x[0]] + x.drop_first());
        assert(y =~= seq![y[0]] + y.drop_first());
        assert(seq![x[0]] + x.drop_first() == seq![y[0]] + y.drop_first());
    }
}

/// A sequence indexed through a bijection keeps its multiset.
pub proof fn lemma_permuted_multiset(
    s: Seq<(Seq<char>, SpecShape)>,
    t: Seq<(Seq<char>, SpecShape)>,
    p: Seq<int>,
)
    requires
        t.len() == s.len(),
        p.len() == s.len(),
        forall|i: int| 0 <= i < p.len() ==> 0 <= #[trigger] p[i] < s.len(),
        forall|i: int, j: int| 0 <= i < j < p.len() ==> p[i] != p[j],
        forall|i: int| 0 <= i < t.len() ==> #[trigger] t[i] == s[p[i]],
    ensures
        t.to_multiset() == s.to_multiset(),
    decreases s.len(),
{
    broadcast use vstd::seq_lib::group_to_multiset_ensures;

    if s.len() > 0 {
        let n = s.len() as int;
        let k = p[n - 1];
        let s2 = s.remove(k);
        let t2 = t.drop_last();
        let p2 = Seq::new((n - 1) as nat, |i: int| if p[i] < k { p[i] } else { p[i] - 1 });
        assert(s2 =~= s.take(k) + s.skip(k + 1));
        assert forall|i: int| 0 <= i < t2.len() implies #[trigger] t2[i] == s2[p2[i]] by {
            assert(t2[i] == t[i]);
            assert(t[i] == s[p[i]]);
            assert(p[i] != p[n - 1]);
            if p[i] < k {
                assert(s2[p[i]] == s[p[i]]);
            } else {
                assert(s2[p[i] - 1] == s[p[i]]);
            }
        }
        assert forall|i: int, j: int| 0 <= i < j < p2.len() implies p2[i] != p2[j] by {
            assert(p[i] != p[j]);
            assert(p[i] != k && p[j] != k);
        }
        assert forall|i: int| 0 <= i < p2.len() implies 0 <= #[trigger] p2[i] < s2.len() by {
            assert(p[i] != k);
        }
        lemma_permuted_multiset(s2, t2, p2);
        assert(t =~= t2.push(t.last()));
        assert(t.last() == s[k]);
        lemma_to_multiset_insert_entries(s2, s[k], k);
        assert(s2.insert(k, s[k]) =~= s);
        assert(t.to_multiset() =~= s.to_multiset());
    }
}

proof fn lemma_to_multiset_insert_entries(
    s: Seq<(Seq<char>, SpecShape)>,
    x: (Seq<char>, SpecShape),
    j: int,
)
    requires
        0 <= j <= s.len(),
    ensures
        s.insert(j, x).to_multiset() == s.to_multiset().insert(x),
{
    broadcast use vstd::seq_lib::group_to_multiset_ensures;

    assert(s.insert(j, x) =~= s.take(j) + (seq![x] + s.skip(j)));
    lemma_multiset_commutative(s.take(j), seq![x] + s.skip(j));
    lemma_multiset_commutative(seq![x], s.skip(j));
    assert(s =~= s.take(j) + s.skip(j));
    lemma_multiset_commutative(s.take(j), s.skip(j));
    assert(seq![x] =~= Seq::<(Seq<char>, SpecShape)>::empty().push(x));
    assert(s.insert(j, x).to_multiset() =~= s.to_multiset().insert(x));
}

/// The first position in an entry list that holds the given key, or -1.
pub open spec fn find_key(x: Seq<(Seq<char>, SpecValue)>, k: Seq<char>) -> int
    decreases x.len(),
{
    if x.len() == 0 {
        -1
    } else if x[0].0 == k {
        0
    } else {
        let r = find_key(x.drop_first(), k);
        if r < 0 {
            -1
        } else {
            1 + r
        }
    }
}

pub proof fn lemma_find_key(x: Seq<(Seq<char>, SpecValue)>, k: Seq<char>)
    ensures
        -1 <= find_key(x, k) < x.len(),
        find_key(x, k) >= 0 ==> x[find_key(x, k)].0 == k,
        forall|i: int| 0 <= i < x.len() && (#[trigger] x[i]).0 == k ==> find_key(x, k) >= 0,
    decreases x.len(),
{
    if x.len() > 0 && x[0].0 != k {
        lemma_find_key(x.drop_first(), k);
        assert forall|i: int|
            0 <= i < x.len() && (#[trigger] x[i]).0 == k implies find_key(x, k) >= 0 by {
            if i > 0 {
                assert(x.drop_first()[i - 1] == x[i]);
            }
        }
        if find_key(x, k) >= 0 {
            assert(x.drop_first()[find_key(x, k) - 1] == x[find_key(x, k)]);
        }
    }
}

/// Two values that differ only in the insertion order of their maps'
/// entries: equal scalars, pointwise related lists, and maps that pair every
/// entry of one with the same-keyed entry of the other, relating the values.
pub open spec fn reordered(a: SpecValue, b: SpecValue) -> bool
    decreases a,
{
    match (a, b) {
        (SpecValue::Null, SpecValue::Null) => true,
        (SpecValue::Bool(x), SpecValue::Bool(y)) => x == y,
        (SpecValue::Integer(x), SpecValue::Integer(y)) => x == y,
        (SpecValue::Float(x), SpecValue::Float(y)) => x == y,
        (SpecValue::Text(x), SpecValue::Text(y)) => x == y,
        (SpecValue::Bytes(x), SpecValue::Bytes(y)) => x == y,
        (SpecValue::Link(x), SpecValue::Link(y)) => x == y,
        (SpecValue::List(x), SpecValue::List(y)) => x.len() == y.len() && (forall|i: int|
            0 <= i < x.len() ==> reordered(#[trigger] x[i], y[i])),
        (SpecValue::Dict(x), SpecValue::Dict(y)) => {
            &&& x.len() == y.len()
            &&& (forall|i: int, j: int|
                0 <= i < j < y.len() ==> (#[trigger] y[i]).0 != (#[trigger] y[j]).0)
            &&& (forall|i: int|
                0 <= i < y.len() ==> {
                    let fi = find_key(x, (#[trigger] y[i]).0);
                    if 0 <= fi < x.len() {
                        reordered(x[fi].1, y[i].1)
                    } else {
                        false
                    }
                })
        },
        _ => false,
    }
}

/// Every well-formed value is a reordering of itself.
pub proof fn lemma_reordered_refl(a: SpecValue)
    requires
        crate::value::spec_value_wf(a),
    ensures
        reordered(a, a),
    decreases a,
{
    match a {
        SpecValue::List(x) => {
            assert forall|i: int| 0 <= i < x.len() implies reordered(#[trigger] x[i], x[i]) by {
                assert(crate::value::spec_value_wf(x[i]));
                lemma_reordered_refl(x[i]);
            }
        },
        SpecValue::Dict(x) => {
            assert forall|i: int|
                0 <= i < x.len() implies {
                let fi = find_key(x, (#[trigger] x[i]).0);
                if 0 <= fi < x.len() {
                    reordered(x[fi].1, x[i].1)
                } else {
                    false
                }
            } by {
                lemma_find_key(x, x[i].0);
                let fi = find_key(x, x[i].0);
                assert(fi >= 0);
                assert(x[fi].0 == x[i].0);
                if fi != i {
                    if fi < i {
                        assert(x[fi].0 != x[i].0);
                    } else {
                        assert(x[i].0 != x[fi].0);
                    }
                }
                assert(fi == i);
                assert(crate::value::spec_value_wf(x[i].1));
                lemma_reordered_refl(x[i].1);
            }
        },
        _ => {},
    }
}

/// Shape inference is deterministic and structural: two values that differ
/// only in the insertion order of their maps' entries have equal shapes,
/// provided the first is well formed (its maps' keys are distinct).
pub proof fn lemma_shape_structural(a: SpecValue, b: SpecValue)
    requires
        reordered(a, b),
        crate::value::spec_value_wf(a),
    ensures
        shape_of(a) == shape_of(b),
    decreases a,
{
    match (a, b) {
        (SpecValue::List(x), SpecValue::List(y)) => {
            if x.len() > 0 {
                assert(reordered(x[0], y[0]));
                assert(crate::value::spec_value_wf(x[0]));
                lemma_shape_structural(x[0], y[0]);
            }
        },
        (SpecValue::Dict(x), SpecValue::Dict(y)) => {
            let p = Seq::new(y.len(), |i: int| find_key(x, y[i].0));
            lemma_shape_of_entries(x);
            lemma_shape_of_entries(y);
            let ex = shape_of_entries(x);
            let ey = shape_of_entries(y);
            assert forall|i: int| 0 <= i < p.len() implies 0 <= #[trigger] p[i] < ex.len() by {
                assert(reordered(a, b));
            }
            assert forall|i: int, j: int| 0 <= i < j < p.len() implies p[i] != p[j] by {
                lemma_find_key(x, y[i].0);
                lemma_find_key(x, y[j].0);
                if p[i] == p[j] {
                    assert(x[p[i]].0 == y[i].0);
                    assert(x[p[j]].0 == y[j].0);
                    assert(y[i].0 == y[j].0);
                    assert(y[i].0 != y[j].0);
                }
            }
            assert forall|i: int| 0 <= i < ey.len() implies #[trigger] ey[i] == ex[p[i]] by {
                lemma_find_key(x, y[i].0);
                assert(reordered(x[p[i]].1, y[i].1));
                assert(crate::value::spec_value_wf(x[p[i]].1));
                lemma_shape_structural(x[p[i]].1, y[i].1);
                assert(x[p[i]].0 == y[i].0);
                assert(ex[p[i]] == (x[p[i]].0, shape_of(x[p[i]].1)));
                assert(ey[i] == (y[i].0, shape_of(y[i].1)));
            }
            lemma_permuted_multiset(ex, ey, p);
            lemma_sort_entries_props(ex);
            lemma_sort_entries_props(ey);
            assert forall|i: int, j: int| 0 <= i < j < ex.len() implies (#[trigger] ex[i]).0 != (
            #[trigger] ex[j]).0 by {
                assert(ex[i] == (x[i].0, shape_of(x[i].1)));
                assert(ex[j] == (x[j].0, shape_of(x[j].1)));
            }
            lemma_sorted_ms_unique(sort_entries(ex), sort_entries(ey));
        },
        _ => {},
    }
}

} // verus!
