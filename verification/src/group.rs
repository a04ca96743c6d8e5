use vstd::prelude::*;
use vstd::seq_lib::lemma_multiset_commutative;

use crate::shape::{record_shape, record_shape_of, shape_eq, Shape, SpecShape};
use crate::value::{SpecValue, Value};

verus! {

/// One decoded archive record: its content identifier, its decoded payload,
/// and the raw bytes it was decoded from.
#[derive(Debug)]
pub struct Record {
    pub id: Vec<u8>,
    pub data: Value,
    pub raw: Vec<u8>,
}

pub struct SpecRecord {
    pub id: Seq<u8>,
    pub data: SpecValue,
    pub raw: Seq<u8>,
}

impl View for Record {
    type V = SpecRecord;

    open spec fn view(&self) -> SpecRecord {
        SpecRecord { id: self.id@, data: self.data@, raw: self.raw@ }
    }
}

/// All records sharing one whole-record shape, in input order.
#[derive(Debug)]
pub struct Bucket {
    pub shape: Shape,
    pub records: Vec<Record>,
}

pub open spec fn records_view(s: Seq<Record>) -> Seq<SpecRecord>
    decreases s,
{
    if s.len() == 0 {
        Seq::empty()
    } else {
        seq![s[0]@] + records_view(s.drop_first())
    }
}

pub broadcast proof fn lemma_records_view(s: Seq<Record>)
    ensures
        (#[trigger] records_view(s)).len() == s.len(),
        forall|i: int| 0 <= i < s.len() ==> #[trigger] records_view(s)[i] == s[i]@,
    decreases s.len(),
{
    if s.len() > 0 {
        lemma_records_view(s.drop_first());
        assert forall|i: int| 0 <= i < s.len() implies #[trigger] records_view(s)[i] == s[i]@ by {
            if i > 0 {
                assert(records_view(s.drop_first())[i - 1] == s.drop_first()[i - 1]@);
                assert(s.drop_first()[i - 1] == s[i]);
            }
        }
    }
}

/// Membership test for one bucket: a record belongs to the bucket whose
/// shape is its own whole-record shape.
pub open spec fn shape_pred(sh: SpecShape) -> spec_fn(SpecRecord) -> bool {
    |r: SpecRecord| record_shape_of(r.data) == sh
}

pub proof fn lemma_filter_members<A>(s: Seq<A>, pred: spec_fn(A) -> bool)
    ensures
        forall|x: A| #[trigger] s.filter(pred).contains(x) ==> s.contains(x) && pred(x),
    decreases s.len(),
{
    reveal(Seq::filter);
    if s.len() > 0 {
        lemma_filter_members(s.drop_last(), pred);
        assert forall|x: A| #[trigger] s.filter(pred).contains(x) implies s.contains(x) && pred(
            x,
        ) by {
            let sub = s.drop_last().filter(pred);
            if sub.contains(x) {
                let q: int = choose|q: int|
                    0 <= q < s.drop_last().len() && s.drop_last()[q] == x;
                assert(s[q] == x);
            } else {
                assert(x == s.last());
                assert(s[s.len() - 1] == x);
            }
        }
    }
}

pub proof fn lemma_filter_push<A>(s: Seq<A>, x: A, pred: spec_fn(A) -> bool)
    ensures
        pred(x) ==> s.push(x).filter(pred) == s.filter(pred).push(x),
        !pred(x) ==> s.push(x).filter(pred) == s.filter(pred),
{
    reveal(Seq::filter);
    assert(s.push(x).drop_last() =~= s);
    assert(s.push(x).last() == x);
}

fn find_bucket(buckets: &Vec<Bucket>, sh: &Shape) -> (r: Option<usize>)
    ensures
        r matches Option::Some(j) ==> j < buckets@.len() && buckets@[j as int].shape@ == sh@,
        r is None ==> forall|j: int|
            0 <= j < buckets@.len() ==> (#[trigger] buckets@[j]).shape@ != sh@,
{
    let mut j: usize = 0;
    while j < buckets.len()
        invariant
            j <= buckets@.len(),
            forall|k: int| 0 <= k < j ==> (#[trigger] buckets@[k]).shape@ != sh@,
        decreases buckets@.len() - j,
    {
        if shape_eq(&buckets[j].shape, sh) {
            return Option::Some(j);
        }
        j = j + 1;
    }
    Option::None
}

/// Group every record by its whole-record shape. Each bucket holds, in input
/// order, exactly the records whose shape is the bucket's; no two buckets
/// share a shape; every record's shape is some bucket's shape.
#[verifier::loop_isolation(false)]
pub fn group_records(records: Vec<Record>) -> (buckets: Vec<Bucket>)
    ensures
        forall|i: int, j: int|
            0 <= i < j < buckets@.len() ==> (#[trigger] buckets@[i]).shape@ != (
            #[trigger] buckets@[j]).shape@,
        forall|j: int|
            0 <= j < buckets@.len() ==> records_view((#[trigger] buckets@[j]).records@)
                == records_view(records@).filter(shape_pred(buckets@[j].shape@)),
        forall|k: int|
            0 <= k < records@.len() ==> exists|j: int|
                0 <= j < buckets@.len() && (#[trigger] buckets@[j]).shape@ == record_shape_of(
                    (#[trigger] records_view(records@)[k]).data,
                ),
{
    let ghost orig: Seq<Record> = records@;
    let mut rest = records;
    let mut buckets: Vec<Bucket> = Vec::new();
    proof {
        lemma_records_view(orig);
        assert(orig.take(0) =~= Seq::<Record>::empty());
        assert(records_view(orig.take(0)) =~= Seq::<SpecRecord>::empty());
    }
    while rest.len() > 0
        invariant
            rest@.len() <= orig.len(),
            rest@ == orig.skip(orig.len() - rest@.len()),
            forall|i: int, j: int|
                0 <= i < j < buckets@.len() ==> (#[trigger] buckets@[i]).shape@ != (
                #[trigger] buckets@[j]).shape@,
            forall|j: int|
                0 <= j < buckets@.len() ==> records_view((#[trigger] buckets@[j]).records@)
                    == records_view(orig.take(orig.len() - rest@.len())).filter(
                    shape_pred(buckets@[j].shape@),
                ),
            forall|k: int|
                0 <= k < orig.len() - rest@.len() ==> exists|j: int|
                    0 <= j < buckets@.len() && (#[trigger] buckets@[j]).shape@ == record_shape_of(
                        (#[trigger] records_view(orig)[k]).data,
                    ),
        decreases rest@.len(),
    {
        let ghost p: int = orig.len() - rest@.len();
        let rec = rest.remove(0);
        proof {
            assert(rec == orig[p]);
            assert(rest@ =~= orig.skip(p + 1));
            assert(orig.take(p + 1) =~= orig.take(p).push(orig[p]));
            lemma_records_view(orig.take(p));
            lemma_records_view(orig.take(p + 1));
            assert(records_view(orig.take(p + 1)) =~= records_view(orig.take(p)).push(orig[p]@));
        }
        let sh = record_shape(&rec.data);
        let ghost old_buckets: Seq<Bucket> = buckets@;
        let ghost prev: Seq<SpecRecord> = records_view(orig.take(p));
        match find_bucket(&buckets, &sh) {
            Option::Some(j) => {
                let mut b = buckets.remove(j);
                let ghost old_recs: Seq<Record> = b.records@;
                b.records.push(rec);
                proof {
                    lemma_records_view(old_recs);
                    lemma_records_view(b.records@);
                    assert(records_view(b.records@) =~= records_view(old_recs).push(orig[p]@));
                }
                buckets.insert(j, b);
                proof {
                    assert forall|t: int| 0 <= t < buckets@.len() implies #[trigger] buckets@[t]
                        == (if t == j as int {
                        buckets@[j as int]
                    } else {
                        old_buckets[t]
                    }) by {
                        assert(buckets@ == old_buckets.remove(j as int).insert(j as int, buckets@[j as int]));
                    }
                    assert forall|t: int| 0 <= t < buckets@.len() implies records_view(
                        (#[trigger] buckets@[t]).records@,
                    ) == prev.push(orig[p]@).filter(shape_pred(buckets@[t].shape@)) by {
                        lemma_filter_push(prev, orig[p]@, shape_pred(buckets@[t].shape@));
                        if t == j as int {
                            assert(shape_pred(buckets@[t].shape@)(orig[p]@));
                        } else {
                            assert(buckets@[t].shape@ != sh@);
                            assert(!shape_pred(buckets@[t].shape@)(orig[p]@));
                        }
                    }
                    assert forall|k: int| 0 <= k < p + 1 implies exists|j2: int|
                        0 <= j2 < buckets@.len() && (#[trigger] buckets@[j2]).shape@
                            == record_shape_of((#[trigger] records_view(orig)[k]).data) by {
                        if k < p {
                            let j0: int = choose|j0: int|
                                0 <= j0 < old_buckets.len() && (#[trigger] old_buckets[j0]).shape@
                                    == record_shape_of(records_view(orig)[k].data);
                            assert(buckets@[j0].shape@ == record_shape_of(
                                records_view(orig)[k].data,
                            ));
                        } else {
                            assert(records_view(orig)[p] == orig[p]@);
                            assert(buckets@[j as int].shape@ == record_shape_of(
                                records_view(orig)[p].data,
                            ));
                        }
                    }
                }
            },
            Option::None => {
                let mut recs: Vec<Record> = Vec::new();
                recs.push(rec);
                buckets.push(Bucket { shape: sh, records: recs });
                proof {
                    assert forall|t: int| 0 <= t < buckets@.len() implies records_view(
                        (#[trigger] buckets@[t]).records@,
                    ) == prev.push(orig[p]@).filter(shape_pred(buckets@[t].shape@)) by {
                        lemma_filter_push(prev, orig[p]@, shape_pred(buckets@[t].shape@));
                        if t == buckets@.len() - 1 {
                            lemma_records_view(buckets@[t].records@);
                            let pred = shape_pred(buckets@[t].shape@);
                            lemma_filter_members(prev, pred);
                            if prev.filter(pred).len() > 0 {
                                let x = prev.filter(pred)[0];
                                assert(prev.filter(pred).contains(x));
                                assert(prev.contains(x) && pred(x));
                                let k: int = choose|k: int|
                                    0 <= k < prev.len() && prev[k] == x;
                                assert(prev[k] == records_view(orig.take(p))[k]);
                                assert(records_view(orig.take(p))[k] == orig.take(p)[k]@);
                                assert(orig.take(p)[k] == orig[k]);
                                assert(records_view(orig)[k] == orig[k]@);
                                assert(exists|j: int|
                                    0 <= j < old_buckets.len() && (#[trigger] old_buckets[j]).shape@
                                        == record_shape_of(records_view(orig)[k].data));
                                assert(false);
                            }
                            assert(prev.filter(pred) =~= Seq::<SpecRecord>::empty());
                            assert(records_view(buckets@[t].records@) =~= Seq::<
                                SpecRecord,
                            >::empty().push(orig[p]@));
                        } else {
                            assert(buckets@[t] == old_buckets[t]);
                            assert(buckets@[t].shape@ != sh@);
                        }
                    }
                    assert forall|k: int| 0 <= k < p + 1 implies exists|j2: int|
                        0 <= j2 < buckets@.len() && (#[trigger] buckets@[j2]).shape@
                            == record_shape_of((#[trigger] records_view(orig)[k]).data) by {
                        if k < p {
                            let j0: int = choose|j0: int|
                                0 <= j0 < old_buckets.len() && (#[trigger] old_buckets[j0]).shape@
                                    == record_shape_of(records_view(orig)[k].data);
                            assert(buckets@[j0] == old_buckets[j0]);
                            assert(buckets@[j0].shape@ == record_shape_of(
                                records_view(orig)[k].data,
                            ));
                        } else {
                            assert(records_view(orig)[p] == orig[p]@);
                            assert(buckets@[buckets@.len() - 1].shape@ == record_shape_of(
                                records_view(orig)[p].data,
                            ));
                        }
                    }
                }
            },
        }
    }
    proof {
        assert(orig.skip(0) =~= orig);
        assert(orig.take(orig.len() as int) =~= orig);
    }
    buckets
}


pub proof fn lemma_to_multiset_insert<A>(s: Seq<A>, x: A, j: int)
    requires
        0 <= j <= s.len(),
    ensures
        s.insert(j, x).to_multiset() == s.to_multiset().insert(x),
{
    broadcast use vstd::seq_lib::group_to_multiset_ensures;

    assert(s.insert(j, x) =~= s.take(j) + (seq![x] + s.skip(j)));
    lemma_multiset_commutative(s.take(j), seq![x] + s.skip(j));
    lemma_multiset_commutative(seq![x], s.skip(j));
    assert(s =~= s.take(j) + s.skip(j));
    lemma_multiset_commutative(s.take(j), s.skip(j));
    assert(seq![x] =~= Seq::<A>::empty().push(x));
    assert(Seq::<A>::empty().push(x).to_multiset() =~= Seq::<A>::empty().to_multiset().insert(x));
    assert(s.insert(j, x).to_multiset() =~= s.to_multiset().insert(x));
}

/// Order buckets by population, largest first. The result is a permutation
/// of the input; ties keep no particular order.
#[verifier::loop_isolation(false)]
pub fn order_buckets(buckets: Vec<Bucket>) -> (r: Vec<Bucket>)
    ensures
        r@.to_multiset() == buckets@.to_multiset(),
        r@.len() == buckets@.len(),
        forall|i: int, j: int|
            0 <= i < j < r@.len() ==> (#[trigger] r@[i]).records@.len() >= (
            #[trigger] r@[j]).records@.len(),
{
    broadcast use vstd::seq_lib::group_to_multiset_ensures;

    let ghost orig: Seq<Bucket> = buckets@;
    let mut rest = buckets;
    let mut out: Vec<Bucket> = Vec::new();
    proof {
        assert(orig.take(0) =~= Seq::<Bucket>::empty());
        assert(out@.to_multiset() =~= orig.take(0).to_multiset());
    }
    while rest.len() > 0
        invariant
            rest@.len() <= orig.len(),
            rest@ == orig.skip(orig.len() - rest@.len()),
            out@.len() == orig.len() - rest@.len(),
            out@.to_multiset() == orig.take(orig.len() - rest@.len()).to_multiset(),
            forall|i: int, j: int|
                0 <= i < j < out@.len() ==> (#[trigger] out@[i]).records@.len() >= (
                #[trigger] out@[j]).records@.len(),
        decreases rest@.len(),
    {
        let ghost p: int = orig.len() - rest@.len();
        let b = rest.remove(0);
        proof {
            assert(b == orig[p]);
            assert(rest@ =~= orig.skip(p + 1));
            assert(orig.take(p + 1) =~= orig.take(p).push(orig[p]));
        }
        let mut j: usize = 0;
        while j < out.len()
            invariant
                j <= out@.len(),
                forall|k: int| 0 <= k < j ==> (#[trigger] out@[k]).records@.len()
                    >= b.records@.len(),
            decreases out@.len() - j,
        {
            if out[j].records.len() < b.records.len() {
                break;
            }
            j = j + 1;
        }
        let ghost before: Seq<Bucket> = out@;
        proof {
            lemma_to_multiset_insert(before, b, j as int);
        }
        out.insert(j, b);
        proof {
            assert forall|i2: int, j2: int|
                0 <= i2 < j2 < out@.len() implies (#[trigger] out@[i2]).records@.len() >= (
            #[trigger] out@[j2]).records@.len() by {
                if i2 < j as int && j2 > j as int {
                    assert(out@[i2] == before[i2]);
                    assert(out@[j2] == before[j2 - 1]);
                } else if i2 == j as int && j2 > j as int {
                    assert(out@[j2] == before[j2 - 1]);
                    assert(before[j2 - 1].records@.len() <= b.records@.len()) by {
                        assert(j as int <= j2 - 1 < before.len());
                        assert(before[j as int].records@.len() < b.records@.len()
                            || j as int == before.len());
                        assert(before[j as int].records@.len() >= before[j2 - 1].records@.len());
                    }
                } else if j2 == j as int {
                    assert(out@[i2] == before[i2]);
                } else if j2 < j as int {
                    assert(out@[i2] == before[i2]);
                    assert(out@[j2] == before[j2]);
                } else if i2 > j as int {
                    assert(out@[i2] == before[i2 - 1]);
                    assert(out@[j2] == before[j2 - 1]);
                }
            }
        }
    }
    proof {
        assert(orig.skip(0) =~= orig);
        assert(orig.take(orig.len() as int) =~= orig);
    }
    out
}

/// Whether a record stands in at least one of the given buckets.
pub open spec fn in_some_part(parts: Seq<Seq<SpecRecord>>, r: SpecRecord) -> bool {
    exists|j: int| 0 <= j < parts.len() && #[trigger] parts[j].contains(r)
}

/// Grouping is a partition: under the guarantees `group_records` gives, a
/// record of the input belongs to at least one bucket, any two buckets it
/// belongs to are the same one, and every bucket member comes from the
/// input.
pub proof fn lemma_grouping_partition(input: Seq<SpecRecord>, shapes: Seq<SpecShape>, parts: Seq<Seq<SpecRecord>>)
    requires
        parts.len() == shapes.len(),
        forall|i: int, j: int| 0 <= i < j < shapes.len() ==> shapes[i] != shapes[j],
        forall|j: int| 0 <= j < parts.len() ==> #[trigger] parts[j] == input.filter(
            shape_pred(shapes[j]),
        ),
        forall|k: int|
            0 <= k < input.len() ==> exists|j: int|
                0 <= j < shapes.len() && #[trigger] shapes[j] == record_shape_of(
                    (#[trigger] input[k]).data,
                ),
    ensures
        forall|k: int| 0 <= k < input.len() ==> in_some_part(parts, #[trigger] input[k]),
        forall|j1: int, j2: int, r: SpecRecord|
            0 <= j1 < parts.len() && 0 <= j2 < parts.len() && #[trigger] parts[j1].contains(r)
                && #[trigger] parts[j2].contains(r) ==> j1 == j2,
        forall|j: int, r: SpecRecord|
            0 <= j < parts.len() && #[trigger] parts[j].contains(r) ==> input.contains(r)
                && record_shape_of(r.data) == shapes[j],
{
    assert forall|j: int, r: SpecRecord|
        0 <= j < parts.len() && #[trigger] parts[j].contains(r) implies input.contains(r)
        && record_shape_of(r.data) == shapes[j] by {
        lemma_filter_members(input, shape_pred(shapes[j]));
        assert(shape_pred(shapes[j])(r));
    }
    assert forall|k: int| 0 <= k < input.len() implies in_some_part(
        parts,
        #[trigger] input[k],
    ) by {
        let j: int = choose|j: int|
            0 <= j < shapes.len() && #[trigger] shapes[j] == record_shape_of(input[k].data);
        input.lemma_filter_contains(shape_pred(shapes[j]), k);
        assert(parts[j].contains(input[k]));
        assert(in_some_part(parts, input[k]));
    }
    assert forall|j1: int, j2: int, r: SpecRecord|
        0 <= j1 < parts.len() && 0 <= j2 < parts.len() && #[trigger] parts[j1].contains(r)
            && #[trigger] parts[j2].contains(r) implies j1 == j2 by {
        lemma_filter_members(input, shape_pred(shapes[j1]));
        lemma_filter_members(input, shape_pred(shapes[j2]));
        assert(shapes[j1] == record_shape_of(r.data));
        assert(shapes[j2] == record_shape_of(r.data));
        if j1 != j2 {
            if j1 < j2 {
                assert(shapes[j1] != shapes[j2]);
            } else {
                assert(shapes[j2] != shapes[j1]);
            }
        }
    }
}


} // verus!
