pub mod columnar;
pub mod emit;
pub mod error;
pub mod group;
pub mod resolve;
pub mod select;
pub mod shape;
pub mod value;

use vstd::prelude::*;

use crate::columnar::{
    column_metas, lemma_metas_view, metas_view, root_metas, translate, translate_shape, ColumnDecl,
    ColumnMeta, SpecColumnMeta,
};
use crate::emit::{all_coerce, emit_column, emitted_ok, EmittedColumn};
use crate::error::Error;
use crate::group::{lemma_records_view, records_view, Bucket, SpecRecord};
use crate::resolve::{lemma_pairs_view, pairs_view, resolve, resolve_record};
use crate::value::{SpecValue, Value};

verus! {

/// One leaf column's plan: its description and the emitted arrays for every
/// record of the bucket.
#[derive(Debug)]
pub struct ColumnPlan {
    pub meta: ColumnMeta,
    pub data: EmittedColumn,
}

/// One bucket's whole output: the columnar schema declaration and one plan
/// per leaf column, in schema order.
#[derive(Debug)]
pub struct BucketPlan {
    pub schema: ColumnDecl,
    pub columns: Vec<ColumnPlan>,
}

/// The concatenated resolver streams of one column over a run of records.
pub open spec fn column_stream(
    records: Seq<SpecRecord>,
    path: Seq<Seq<char>>,
    max_rep: int,
) -> Option<Seq<(SpecValue, int)>>
    decreases records.len(),
{
    if records.len() == 0 {
        Option::Some(Seq::empty())
    } else {
        match (
            resolve_record(records[0].id, records[0].data, records[0].raw, path, max_rep),
            column_stream(records.drop_first(), path, max_rep),
        ) {
            (Option::Some(a), Option::Some(b)) => Option::Some(a + b),
            _ => Option::None,
        }
    }
}

pub proof fn lemma_column_stream_push(
    records: Seq<SpecRecord>,
    r: SpecRecord,
    path: Seq<Seq<char>>,
    max_rep: int,
)
    ensures
        column_stream(records.push(r), path, max_rep) == (match (
            column_stream(records, path, max_rep),
            resolve_record(r.id, r.data, r.raw, path, max_rep),
        ) {
            (Option::Some(a), Option::Some(b)) => Option::Some(a + b),
            _ => Option::None,
        }),
    decreases records.len(),
{
    if records.len() == 0 {
        assert(records.push(r)[0] == r);
        assert(records.push(r).drop_first() =~= Seq::<SpecRecord>::empty());
        assert(column_stream(Seq::<SpecRecord>::empty(), path, max_rep) == Option::Some(Seq::<
            (SpecValue, int),
        >::empty()));
        if let Option::Some(c) = resolve_record(r.id, r.data, r.raw, path, max_rep) {
            assert(c + Seq::<(SpecValue, int)>::empty() =~= c);
            assert(Seq::<(SpecValue, int)>::empty() + c =~= c);
        }
    } else {
        assert(records.push(r)[0] == records[0]);
        assert(records.push(r).drop_first() =~= records.drop_first().push(r));
        lemma_column_stream_push(records.drop_first(), r, path, max_rep);
        let h = resolve_record(records[0].id, records[0].data, records[0].raw, path, max_rep);
        let t = column_stream(records.drop_first(), path, max_rep);
        let e = resolve_record(r.id, r.data, r.raw, path, max_rep);
        if h is Some && t is Some && e is Some {
            let a = h->Some_0;
            let bb = t->Some_0;
            let c = e->Some_0;
            assert(a + (bb + c) =~= (a + bb) + c);
        }
    }
}

pub proof fn lemma_column_stream_none(
    records: Seq<SpecRecord>,
    k: int,
    path: Seq<Seq<char>>,
    max_rep: int,
)
    requires
        0 <= k < records.len(),
        resolve_record(records[k].id, records[k].data, records[k].raw, path, max_rep) is None,
    ensures
        column_stream(records, path, max_rep) is None,
    decreases records.len(),
{
    if k > 0 {
        assert(records.drop_first()[k - 1] == records[k]);
        lemma_column_stream_none(records.drop_first(), k - 1, path, max_rep);
    }
}

/// Whether one column cannot be produced for a run of records: a record the
/// resolver refuses, a value whose tag disagrees with the declared type, or
/// a physical type with no coercion.
pub open spec fn column_fails(records: Seq<SpecRecord>, m: SpecColumnMeta) -> bool {
    ||| m.physical is Int96
    ||| m.physical is FixedLenByteArray
    ||| column_stream(records, m.path, m.max_rep) is None
    ||| (column_stream(records, m.path, m.max_rep) matches Option::Some(pv) && !all_coerce(
        m.physical,
        pv,
    ))
}

/// Build one bucket's whole output: translate its shape, enumerate the leaf
/// columns, and resolve and emit every column over every record of the
/// bucket. Any failure aborts the whole bucket.
#[verifier::loop_isolation(false)]
pub fn plan_bucket(b: &Bucket) -> (r: Result<BucketPlan, Error>)
    ensures
        r matches Ok(plan) ==> {
            &&& Option::Some(plan.schema@) == translate_shape(b.shape@, ""@, false)
            &&& plan.columns@.len() == root_metas(plan.schema@).len()
            &&& (forall|j: int|
                0 <= j < plan.columns@.len() ==> (#[trigger] plan.columns@[j]).meta@ == root_metas(
                    plan.schema@,
                )[j])
            &&& (forall|j: int|
                0 <= j < plan.columns@.len() ==> (match column_stream(
                    records_view(b.records@),
                    (#[trigger] plan.columns@[j]).meta@.path,
                    plan.columns@[j].meta@.max_rep,
                ) {
                    Option::Some(pv) => all_coerce(plan.columns@[j].meta@.physical, pv)
                        && emitted_ok(
                        plan.columns@[j].meta@.physical,
                        plan.columns@[j].data,
                        pv,
                        plan.columns@[j].meta@.max_def,
                    ),
                    Option::None => false,
                }))
        },
        r is Err ==> translate_shape(b.shape@, ""@, false) is None || (exists|j: int|
            0 <= j < root_metas(translate_shape(b.shape@, ""@, false)->Some_0).len()
                && column_fails(
                records_view(b.records@),
                #[trigger] root_metas(translate_shape(b.shape@, ""@, false)->Some_0)[j],
            )),
{
    let schema = match translate(&b.shape, "", false) {
        Ok(d) => d,
        Err(e) => {
            return Err(e);
        },
    };
    let metas = column_metas(&schema);
    proof {
        lemma_metas_view(metas@);
        lemma_records_view(b.records@);
    }
    let ghost all_metas: Seq<SpecColumnMeta> = metas_view(metas@);
    let ghost recs: Seq<SpecRecord> = records_view(b.records@);
    let mut rest = metas;
    let mut columns: Vec<ColumnPlan> = Vec::new();
    proof {
        assert(metas_view(rest@) =~= all_metas.skip(0));
    }
    while rest.len() > 0
        invariant
            rest@.len() <= all_metas.len(),
            metas_view(rest@) == all_metas.skip(all_metas.len() - rest@.len()),
            columns@.len() == all_metas.len() - rest@.len(),
            forall|j: int|
                0 <= j < columns@.len() ==> (#[trigger] columns@[j]).meta@ == all_metas[j],
            forall|j: int|
                0 <= j < columns@.len() ==> (match column_stream(
                    recs,
                    (#[trigger] columns@[j]).meta@.path,
                    columns@[j].meta@.max_rep,
                ) {
                    Option::Some(pv) => all_coerce(columns@[j].meta@.physical, pv) && emitted_ok(
                        columns@[j].meta@.physical,
                        columns@[j].data,
                        pv,
                        columns@[j].meta@.max_def,
                    ),
                    Option::None => false,
                }),
        decreases rest@.len(),
    {
        let ghost q: int = all_metas.len() - rest@.len();
        let ghost old_rest: Seq<ColumnMeta> = rest@;
        let m = rest.remove(0);
        proof {
            lemma_metas_view(old_rest);
            lemma_metas_view(rest@);
            assert(metas_view(old_rest)[0] == old_rest[0]@);
            assert(m@ == all_metas.skip(q)[0]);
            assert(m@ == all_metas[q]);
            assert forall|t: int| 0 <= t < rest@.len() implies #[trigger] metas_view(rest@)[t]
                == all_metas.skip(q + 1)[t] by {
                assert(metas_view(rest@)[t] == rest@[t]@);
                assert(rest@[t] == old_rest[t + 1]);
                assert(metas_view(old_rest)[t + 1] == old_rest[t + 1]@);
                assert(metas_view(old_rest)[t + 1] == all_metas.skip(q)[t + 1]);
            }
            assert(metas_view(rest@) =~= all_metas.skip(q + 1));
        }
        let mut pairs: Vec<(Value, usize)> = Vec::new();
        let mut k: usize = 0;
        proof {
            assert(recs.take(0) =~= Seq::<SpecRecord>::empty());
            assert(pairs_view(pairs@) =~= Seq::<(SpecValue, int)>::empty());
        }
        while k < b.records.len()
            invariant
                k <= b.records@.len(),
                column_stream(recs.take(k as int), m@.path, m@.max_rep) == Option::Some(
                    pairs_view(pairs@),
                ),
            decreases b.records@.len() - k,
        {
            proof {
                assert(recs[k as int] == b.records@[k as int]@);
                assert(recs.take(k + 1) =~= recs.take(k as int).push(recs[k as int]));
                lemma_column_stream_push(recs.take(k as int), recs[k as int], m@.path, m@.max_rep);
            }
            let rk = &b.records[k];
            match resolve(&rk.id, &rk.data, &rk.raw, &m.path, m.max_rep) {
                Ok(ps) => {
                    let ghost before: Seq<(Value, usize)> = pairs@;
                    let ghost psg: Seq<(Value, usize)> = ps@;
                    let mut psv = ps;
                    pairs.append(&mut psv);
                    proof {
                        lemma_pairs_view(before);
                        lemma_pairs_view(psg);
                        lemma_pairs_view(pairs@);
                        assert(pairs@ == before + psg);
                        assert forall|t: int| 0 <= t < pairs@.len() implies #[trigger] pairs_view(
                            pairs@,
                        )[t] == (pairs_view(before) + pairs_view(psg))[t] by {
                            if t < before.len() {
                                assert(pairs@[t] == before[t]);
                            } else {
                                assert(pairs@[t] == psg[t - before.len()]);
                            }
                        }
                        assert(pairs_view(pairs@) =~= pairs_view(before) + pairs_view(psg));
                    }
                },
                Err(e) => {
                    proof {
                        assert(resolve_record(
                            recs[k as int].id,
                            recs[k as int].data,
                            recs[k as int].raw,
                            m@.path,
                            m@.max_rep,
                        ) is None);
                        lemma_column_stream_none(recs, k as int, m@.path, m@.max_rep);
                        assert(column_fails(recs, all_metas[q]));
                        assert(schema@ == translate_shape(b.shape@, ""@, false)->Some_0);
                        assert(root_metas(translate_shape(b.shape@, ""@, false)->Some_0)[q]
                            == all_metas[q]);
                        assert(0 <= q < root_metas(
                            translate_shape(b.shape@, ""@, false)->Some_0,
                        ).len() && column_fails(
                            records_view(b.records@),
                            root_metas(translate_shape(b.shape@, ""@, false)->Some_0)[q],
                        ));
                    }
                    return Err(e);
                },
            }
            k = k + 1;
        }
        proof {
            assert(recs.take(recs.len() as int) =~= recs);
        }
        match emit_column(m.physical, &pairs, m.max_def) {
            Ok(ec) => {
                proof {
                    assert(!(m@.physical is Int96 || m@.physical is FixedLenByteArray));
                    assert(all_coerce(m@.physical, pairs_view(pairs@)));
                }
                columns.push(ColumnPlan { meta: m, data: ec });
            },
            Err(e) => {
                proof {
                    assert(column_fails(recs, all_metas[q]));
                    assert(schema@ == translate_shape(b.shape@, ""@, false)->Some_0);
                    assert(root_metas(translate_shape(b.shape@, ""@, false)->Some_0)[q]
                        == all_metas[q]);
                    assert(0 <= q < root_metas(
                        translate_shape(b.shape@, ""@, false)->Some_0,
                    ).len() && column_fails(
                        records_view(b.records@),
                        root_metas(translate_shape(b.shape@, ""@, false)->Some_0)[q],
                    ));
                }
                return Err(e);
            },
        }
    }
    proof {
        assert(all_metas.skip(0) =~= all_metas);
    }
    Ok(BucketPlan { schema, columns })
}

} // verus!
