use vstd::prelude::*;

verus! {

/// A dynamically typed, self-describing record value: the unit of data decoded
/// from one archive block. Maps are kept as entry lists; floats are carried as
/// their raw 64-bit pattern so that no float arithmetic happens here.
#[derive(Debug)]
pub enum Value {
    Null,
    Bool(bool),
    Integer(i64),
    Float(u64),
    Text(String),
    Bytes(Vec<u8>),
    List(Vec<Value>),
    Dict(Vec<(String, Value)>),
    Link(Vec<u8>),
}

/// The mathematical model of a `Value`: strings become character sequences,
/// vectors become sequences.
pub enum SpecValue {
    Null,
    Bool(bool),
    Integer(int),
    Float(u64),
    Text(Seq<char>),
    Bytes(Seq<u8>),
    List(Seq<SpecValue>),
    Dict(Seq<(Seq<char>, SpecValue)>),
    Link(Seq<u8>),
}

pub open spec fn value_view(v: Value) -> SpecValue
    decreases v,
{
    match v {
        Value::Null => SpecValue::Null,
        Value::Bool(b) => SpecValue::Bool(b),
        Value::Integer(i) => SpecValue::Integer(i as int),
        Value::Float(bits) => SpecValue::Float(bits),
        Value::Text(s) => SpecValue::Text(s@),
        Value::Bytes(b) => SpecValue::Bytes(b@),
        Value::List(l) => SpecValue::List(value_list_view(l@)),
        Value::Dict(m) => SpecValue::Dict(value_entries_view(m@)),
        Value::Link(c) => SpecValue::Link(c@),
    }
}

pub open spec fn value_list_view(s: Seq<Value>) -> Seq<SpecValue>
    decreases s,
{
    if s.len() == 0 {
        Seq::empty()
    } else {
        seq![value_view(s[0])] + value_list_view(s.drop_first())
    }
}

pub open spec fn value_entries_view(s: Seq<(String, Value)>) -> Seq<(Seq<char>, SpecValue)>
    decreases s,
{
    if s.len() == 0 {
        Seq::empty()
    } else {
        seq![(s[0].0@, value_view(s[0].1))] + value_entries_view(s.drop_first())
    }
}

impl View for Value {
    type V = SpecValue;

    open spec fn view(&self) -> SpecValue {
        value_view(*self)
    }
}

pub broadcast proof fn lemma_value_list_view(s: Seq<Value>)
    ensures
        (#[trigger] value_list_view(s)).len() == s.len(),
        forall|i: int|
            0 <= i < s.len() ==> #[trigger] value_list_view(s)[i] == value_view(s[i]),
    decreases s.len(),
{
    if s.len() > 0 {
        lemma_value_list_view(s.drop_first());
        assert forall|i: int| 0 <= i < s.len() implies #[trigger] value_list_view(s)[i]
            == value_view(s[i]) by {
            if i > 0 {
                assert(value_list_view(s.drop_first())[i - 1] == value_view(s.drop_first()[i - 1]));
                assert(s.drop_first()[i - 1] == s[i]);
            }
        }
    }
}

pub broadcast proof fn lemma_value_entries_view(s: Seq<(String, Value)>)
    ensures
        (#[trigger] value_entries_view(s)).len() == s.len(),
        forall|i: int|
            0 <= i < s.len() ==> #[trigger] value_entries_view(s)[i] == (s[i].0@, value_view(
                s[i].1,
            )),
    decreases s.len(),
{
    if s.len() > 0 {
        lemma_value_entries_view(s.drop_first());
        assert forall|i: int|
            0 <= i < s.len() implies #[trigger] value_entries_view(s)[i] == (s[i].0@, value_view(
            s[i].1,
        )) by {
            if i > 0 {
                assert(value_entries_view(s.drop_first())[i - 1] == (s.drop_first()[i - 1].0@,
                    value_view(s.drop_first()[i - 1].1)));
                assert(s.drop_first()[i - 1] == s[i]);
            }
        }
    }
}

/// Well-formedness of a value: within every map, keys are pairwise distinct.
pub open spec fn spec_value_wf(v: SpecValue) -> bool
    decreases v,
{
    match v {
        SpecValue::List(l) => forall|i: int| 0 <= i < l.len() ==> spec_value_wf(#[trigger] l[i]),
        SpecValue::Dict(m) => {
            &&& forall|i: int| 0 <= i < m.len() ==> spec_value_wf((#[trigger] m[i]).1)
            &&& forall|i: int, j: int| 0 <= i < j < m.len() ==> m[i].0 != m[j].0
        },
        _ => true,
    }
}

/// Deep copy of a value, proved to preserve its model.
#[verifier::loop_isolation(false)]
pub fn clone_value(v: &Value) -> (r: Value)
    ensures
        r@ == v@,
    decreases v,
{
    match v {
        Value::Null => Value::Null,
        Value::Bool(b) => Value::Bool(*b),
        Value::Integer(i) => Value::Integer(*i),
        Value::Float(bits) => Value::Float(*bits),
        Value::Text(s) => Value::Text(clone_string(s)),
        Value::Bytes(b) => Value::Bytes(clone_bytes(b)),
        Value::Link(c) => Value::Link(clone_bytes(c)),
        Value::List(l) => {
            let mut out: Vec<Value> = Vec::new();
            let mut i: usize = 0;
            while i < l.len()
                invariant
                    i <= l@.len(),
                    out@.len() == i,
                    forall|k: int| 0 <= k < i ==> out@[k]@ == l@[k]@,
                decreases l@.len() - i,
            {
                out.push(clone_value(&l[i]));
                i = i + 1;
            }
            proof {
                lemma_value_list_view(l@);
                lemma_value_list_view(out@);
                assert forall|k: int| 0 <= k < out@.len() implies value_list_view(out@)[k]
                    == value_list_view(l@)[k] by {
                    assert(out@[k]@ == l@[k]@);
                }
                assert(value_list_view(out@) =~= value_list_view(l@));
            }
            Value::List(out)
        },
        Value::Dict(m) => {
            let mut out: Vec<(String, Value)> = Vec::new();
            let mut i: usize = 0;
            while i < m.len()
                invariant
                    i <= m@.len(),
                    out@.len() == i,
                    forall|k: int|
                        0 <= k < i ==> (#[trigger] out@[k]).0@ == m@[k].0@ && out@[k].1@
                            == m@[k].1@,
                decreases m@.len() - i,
            {
                let ks = clone_string(&m[i].0);
                let vs = clone_value(&m[i].1);
                out.push((ks, vs));
                i = i + 1;
            }
            proof {
                lemma_value_entries_view(m@);
                lemma_value_entries_view(out@);
                assert forall|k: int| 0 <= k < out@.len() implies value_entries_view(out@)[k]
                    == value_entries_view(m@)[k] by {
                    assert(out@[k].0@ == m@[k].0@ && out@[k].1@ == m@[k].1@);
                }
                assert(value_entries_view(out@) =~= value_entries_view(m@));
            }
            Value::Dict(out)
        },
    }
}

/// Copy of a byte vector, proved to preserve its contents.
pub fn clone_bytes(b: &Vec<u8>) -> (r: Vec<u8>)
    ensures
        r@ == b@,
{
    let mut out: Vec<u8> = Vec::new();
    let mut i: usize = 0;
    while i < b.len()
        invariant
            i <= b@.len(),
            out@ == b@.take(i as int),
        decreases b@.len() - i,
    {
        out.push(b[i]);
        proof {
            assert(b@.take(i + 1 as int) =~= b@.take(i as int).push(b@[i as int]));
        }
        i = i + 1;
    }
    proof {
        assert(b@.take(b@.len() as int) =~= b@);
    }
    out
}

/// Copy of a string, proved to preserve its characters.
pub fn clone_string(s: &String) -> (r: String)
    ensures
        r@ == s@,
{
    s.as_str().to_owned()
}

/// View of a list of texts.
pub open spec fn strings_view(s: Seq<String>) -> Seq<Seq<char>>
    decreases s,
{
    if s.len() == 0 {
        Seq::empty()
    } else {
        seq![s[0]@] + strings_view(s.drop_first())
    }
}

pub broadcast proof fn lemma_strings_view(s: Seq<String>)
    ensures
        (#[trigger] strings_view(s)).len() == s.len(),
        forall|i: int| 0 <= i < s.len() ==> #[trigger] strings_view(s)[i] == s[i]@,
    decreases s.len(),
{
    if s.len() > 0 {
        lemma_strings_view(s.drop_first());
        assert forall|i: int| 0 <= i < s.len() implies #[trigger] strings_view(s)[i] == s[i]@ by {
            if i > 0 {
                assert(strings_view(s.drop_first())[i - 1] == s.drop_first()[i - 1]@);
                assert(s.drop_first()[i - 1] == s[i]);
            }
        }
    }
}

/// Copy of a list of texts, proved to preserve it.
pub fn clone_strings(s: &Vec<String>) -> (r: Vec<String>)
    ensures
        strings_view(r@) == strings_view(s@),
        r@.len() == s@.len(),
{
    let mut out: Vec<String> = Vec::new();
    let mut i: usize = 0;
    while i < s.len()
        invariant
            i <= s@.len(),
            out@.len() == i,
            forall|k: int| 0 <= k < i ==> (#[trigger] out@[k])@ == s@[k]@,
        decreases s@.len() - i,
    {
        out.push(clone_string(&s[i]));
        i = i + 1;
    }
    proof {
        lemma_strings_view(s@);
        lemma_strings_view(out@);
        assert(strings_view(out@) =~= strings_view(s@));
    }
    out
}


} // verus!
