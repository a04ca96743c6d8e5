use vstd::prelude::*;

use crate::error::Error;
use crate::shape::str_eq;
use crate::value::{
    clone_bytes, clone_value, lemma_strings_view, lemma_value_entries_view, lemma_value_list_view,
    strings_view, SpecValue, Value, value_entries_view, value_list_view,
};

verus! {

/// The first entry of a map under a key, if any.
pub open spec fn lookup_entry(m: Seq<(Seq<char>, SpecValue)>, key: Seq<char>) -> Option<SpecValue>
    decreases m.len(),
{
    if m.len() == 0 {
        Option::None
    } else if m[0].0 == key {
        Option::Some(m[0].1)
    } else {
        lookup_entry(m.drop_first(), key)
    }
}

/// Walk a value along a path of map keys. Every segment must name a field of
/// a map; otherwise the walk is undefined.
pub open spec fn walk_path(v: SpecValue, path: Seq<Seq<char>>) -> Option<SpecValue>
    decreases path.len(),
{
    if path.len() == 0 {
        Option::Some(v)
    } else {
        match v {
            SpecValue::Dict(m) => match lookup_entry(m, path[0]) {
                Option::Some(sub) => walk_path(sub, path.drop_first()),
                Option::None => Option::None,
            },
            _ => Option::None,
        }
    }
}

/// Re-flatten one resolved sub-value into its column stream: a list yields
/// one pair per element, level 0 for the first (a new record starts) and the
/// maximum repetition level for the rest (the record continues); an empty
/// list collapses to a single null pair; anything else yields one pair.
pub open spec fn flatten_value(sub: SpecValue, max_rep: int) -> Seq<(SpecValue, int)> {
    match sub {
        SpecValue::List(l) => {
            if l.len() == 0 {
                seq![(SpecValue::Null, 0int)]
            } else {
                Seq::new(
                    l.len(),
                    |i: int|
                        (
                            l[i],
                            if i == 0 {
                                0int
                            } else {
                                max_rep
                            },
                        ),
                )
            }
        },
        _ => seq![(sub, 0int)],
    }
}

/// The resolver's whole answer for the payload root, when the walk succeeds.
pub open spec fn resolve_data(v: SpecValue, path: Seq<Seq<char>>, max_rep: int) -> Option<
    Seq<(SpecValue, int)>,
> {
    match walk_path(v, path) {
        Option::Some(sub) => Option::Some(flatten_value(sub, max_rep)),
        Option::None => Option::None,
    }
}

/// One record's full resolver answer for a column path, by the path's root.
pub open spec fn resolve_record(
    id: Seq<u8>,
    data: SpecValue,
    raw: Seq<u8>,
    path: Seq<Seq<char>>,
    max_rep: int,
) -> Option<Seq<(SpecValue, int)>> {
    if path.len() == 0 {
        Option::None
    } else if path[0] == "cid"@ {
        Option::Some(seq![(SpecValue::Link(id), 0int)])
    } else if path[0] == "data"@ {
        resolve_data(data, path.drop_first(), max_rep)
    } else if path[0] == "rawbytes"@ {
        Option::Some(seq![(SpecValue::Bytes(raw), 0int)])
    } else {
        Option::None
    }
}

pub open spec fn pairs_view(s: Seq<(Value, usize)>) -> Seq<(SpecValue, int)>
    decreases s,
{
    if s.len() == 0 {
        Seq::empty()
    } else {
        seq![(s[0].0@, s[0].1 as int)] + pairs_view(s.drop_first())
    }
}

pub broadcast proof fn lemma_pairs_view(s: Seq<(Value, usize)>)
    ensures
        (#[trigger] pairs_view(s)).len() == s.len(),
        forall|i: int|
            0 <= i < s.len() ==> #[trigger] pairs_view(s)[i] == (s[i].0@, s[i].1 as int),
    decreases s.len(),
{
    if s.len() > 0 {
        lemma_pairs_view(s.drop_first());
        assert forall|i: int| 0 <= i < s.len() implies #[trigger] pairs_view(s)[i] == (
        s[i].0@,
        s[i].1 as int,
        ) by {
            if i > 0 {
                assert(pairs_view(s.drop_first())[i - 1] == (
                    s.drop_first()[i - 1].0@,
                    s.drop_first()[i - 1].1 as int,
                ));
                assert(s.drop_first()[i - 1] == s[i]);
            }
        }
    }
}

/// Look a key up in a map value's entries.
#[verifier::loop_isolation(false)]
fn dict_get<'a>(m: &'a Vec<(String, Value)>, key: &str) -> (r: Option<&'a Value>)
    ensures
        match r {
            Option::Some(v) => lookup_entry(value_entries_view(m@), key@) == Option::Some(v@),
            Option::None => lookup_entry(value_entries_view(m@), key@) is None,
        },
{
    proof {
        lemma_value_entries_view(m@);
        assert(value_entries_view(m@).skip(0) =~= value_entries_view(m@));
    }
    let ghost vev: Seq<(Seq<char>, SpecValue)> = value_entries_view(m@);
    let mut j: usize = 0;
    while j < m.len()
        invariant
            j <= m@.len(),
            lookup_entry(vev.skip(j as int), key@) == lookup_entry(vev, key@),
        decreases m@.len() - j,
    {
        proof {
            assert(vev.skip(j as int)[0] == vev[j as int]);
            assert(vev.skip(j as int).drop_first() =~= vev.skip(j + 1));
        }
        if str_eq(m[j].0.as_str(), key) {
            return Option::Some(&m[j].1);
        }
        j = j + 1;
    }
    proof {
        assert(vev.skip(m@.len() as int).len() == 0);
    }
    Option::None
}

/// Resolve one column of one record: walk the record along the column's
/// path under its root and hand back the flat (value, repetition level)
/// stream for that record.
#[verifier::loop_isolation(false)]
pub fn resolve(
    id: &Vec<u8>,
    data: &Value,
    raw: &Vec<u8>,
    path: &Vec<String>,
    max_rep: usize,
) -> (r: Result<Vec<(Value, usize)>, Error>)
    ensures
        path@.len() == 0 ==> (r matches Err(e) && e is UnexpectedRootPath),
        path@.len() > 0 && strings_view(path@)[0] == "cid"@ ==> (r matches Ok(out)
            && pairs_view(out@) == seq![(SpecValue::Link(id@), 0int)]),
        path@.len() > 0 && strings_view(path@)[0] == "rawbytes"@ ==> (r matches Ok(out)
            && pairs_view(out@) == seq![(SpecValue::Bytes(raw@), 0int)]),
        path@.len() > 0 && strings_view(path@)[0] == "data"@ ==> (match resolve_data(
            data@,
            strings_view(path@).drop_first(),
            max_rep as int,
        ) {
            Option::Some(ps) => r matches Ok(out) && pairs_view(out@) == ps,
            Option::None => r matches Err(e) && e is MissingPathSegment,
        }),
        path@.len() > 0 && strings_view(path@)[0] != "cid"@ && strings_view(path@)[0] != "data"@
            && strings_view(path@)[0] != "rawbytes"@ ==> (r matches Err(e)
            && e is UnexpectedRootPath),
        match resolve_record(id@, data@, raw@, strings_view(path@), max_rep as int) {
            Option::Some(ps) => r matches Ok(out) && pairs_view(out@) == ps,
            Option::None => r is Err,
        },
{
    proof {
        lemma_strings_view(path@);
        reveal_strlit("cid");
        reveal_strlit("data");
        reveal_strlit("rawbytes");
        assert("cid"@.len() == 3);
        assert("data"@.len() == 4);
        assert("rawbytes"@.len() == 8);
        assert("cid"@ != "rawbytes"@);
        assert("cid"@ != "data"@);
        assert("data"@ != "rawbytes"@);
    }
    if path.len() == 0 {
        return Err(Error::UnexpectedRootPath);
    }
    let root = path[0].as_str();
    if str_eq(root, "cid") {
        let mut out: Vec<(Value, usize)> = Vec::new();
        out.push((Value::Link(clone_bytes(id)), 0));
        proof {
            lemma_pairs_view(out@);
            assert(pairs_view(out@) =~= seq![(SpecValue::Link(id@), 0int)]);
        }
        return Ok(out);
    }
    if str_eq(root, "rawbytes") {
        let mut out: Vec<(Value, usize)> = Vec::new();
        out.push((Value::Bytes(clone_bytes(raw)), 0));
        proof {
            lemma_pairs_view(out@);
            assert(pairs_view(out@) =~= seq![(SpecValue::Bytes(raw@), 0int)]);
        }
        return Ok(out);
    }
    if !str_eq(root, "data") {
        return Err(Error::UnexpectedRootPath);
    }
    let ghost segs: Seq<Seq<char>> = strings_view(path@).drop_first();
    let mut cur: &Value = data;
    let mut k: usize = 1;
    proof {
        assert(segs.skip(0) =~= segs);
    }
    while k < path.len()
        invariant
            1 <= k <= path@.len(),
            walk_path(data@, segs) == walk_path(cur@, segs.skip(k - 1)),
        decreases path@.len() - k,
    {
        proof {
            assert(segs.skip(k - 1)[0] == segs[k - 1]);
            assert(segs[k - 1] == strings_view(path@)[k as int]);
            assert(segs.skip(k - 1).len() > 0);
            assert(segs.skip(k - 1).drop_first() =~= segs.skip(k as int));
        }
        match cur {
            Value::Dict(m) => {
                match dict_get(m, path[k].as_str()) {
                    Option::Some(sub) => {
                        cur = sub;
                    },
                    Option::None => {
                        return Err(Error::MissingPathSegment);
                    },
                }
            },
            _ => {
                return Err(Error::MissingPathSegment);
            },
        }
        k = k + 1;
    }
    proof {
        assert(segs.skip(path@.len() - 1).len() == 0);
        assert(walk_path(data@, segs) == Option::Some(cur@));
    }
    match cur {
        Value::List(l) => {
            proof {
                lemma_value_list_view(l@);
            }
            if l.len() == 0 {
                let mut out: Vec<(Value, usize)> = Vec::new();
                out.push((Value::Null, 0));
                proof {
                    lemma_pairs_view(out@);
                    assert(pairs_view(out@) =~= flatten_value(cur@, max_rep as int));
                }
                Ok(out)
            } else {
                let mut out: Vec<(Value, usize)> = Vec::new();
                let mut i: usize = 0;
                while i < l.len()
                    invariant
                        i <= l@.len(),
                        out@.len() == i,
                        forall|t: int|
                            0 <= t < i ==> (#[trigger] out@[t]).0@ == value_list_view(l@)[t]
                                && out@[t].1 == (if t == 0 {
                                0int
                            } else {
                                max_rep as int
                            }),
                    decreases l@.len() - i,
                {
                    let lev: usize = if i == 0 {
                        0
                    } else {
                        max_rep
                    };
                    out.push((clone_value(&l[i]), lev));
                    i = i + 1;
                }
                proof {
                    lemma_pairs_view(out@);
                    assert(pairs_view(out@) =~= flatten_value(cur@, max_rep as int));
                }
                Ok(out)
            }
        },
        _ => {
            let mut out: Vec<(Value, usize)> = Vec::new();
            out.push((clone_value(cur), 0));
            proof {
                lemma_pairs_view(out@);
                assert(pairs_view(out@) =~= flatten_value(cur@, max_rep as int));
            }
            Ok(out)
        },
    }
}

} // verus!
