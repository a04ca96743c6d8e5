use vstd::prelude::*;

use crate::error::Error;
use crate::shape::{lemma_shape_entries_view, shape_entries_view, shape_view, Shape, SpecShape};
use crate::value::{clone_string, clone_strings, lemma_strings_view, strings_view};

verus! {

/// The physical column types a columnar file writer understands.
#[derive(Clone, Copy, PartialEq, Eq, Structural, Debug)]
pub enum PhysicalType {
    Boolean,
    Int32,
    Int64,
    Int96,
    Float,
    Double,
    ByteArray,
    FixedLenByteArray,
}

/// Whether a field holds exactly one value per record or a repeated run.
/// No optional tier exists: absent values are not representable.
#[derive(Clone, Copy, PartialEq, Eq, Structural, Debug)]
pub enum RepetitionKind {
    Required,
    Repeated,
}

/// The logical annotation a declaration carries beside its physical type.
#[derive(Clone, Copy, PartialEq, Eq, Structural, Debug)]
pub enum LogicalHint {
    Plain,
    UnsignedInt64,
    Utf8,
}

/// One node of the declared columnar schema tree.
#[derive(Debug)]
pub struct ColumnDecl {
    pub name: String,
    pub repetition: RepetitionKind,
    pub kind: DeclKind,
}

#[derive(Debug)]
pub enum DeclKind {
    Leaf(PhysicalType, LogicalHint),
    Group(Vec<ColumnDecl>),
}

/// The mathematical model of a `ColumnDecl`.
pub struct SpecDecl {
    pub name: Seq<char>,
    pub repetition: RepetitionKind,
    pub kind: SpecDeclKind,
}

pub enum SpecDeclKind {
    Leaf(PhysicalType, LogicalHint),
    Group(Seq<SpecDecl>),
}

pub open spec fn decl_view(d: ColumnDecl) -> SpecDecl
    decreases d,
{
    SpecDecl {
        name: d.name@,
        repetition: d.repetition,
        kind: match d.kind {
            DeclKind::Leaf(pt, lh) => SpecDeclKind::Leaf(pt, lh),
            DeclKind::Group(cs) => SpecDeclKind::Group(decls_view(cs@)),
        },
    }
}

pub open spec fn decls_view(s: Seq<ColumnDecl>) -> Seq<SpecDecl>
    decreases s,
{
    if s.len() == 0 {
        Seq::empty()
    } else {
        seq![decl_view(s[0])] + decls_view(s.drop_first())
    }
}

impl View for ColumnDecl {
    type V = SpecDecl;

    open spec fn view(&self) -> SpecDecl {
        decl_view(*self)
    }
}

pub broadcast proof fn lemma_decls_view(s: Seq<ColumnDecl>)
    ensures
        (#[trigger] decls_view(s)).len() == s.len(),
        forall|i: int| 0 <= i < s.len() ==> #[trigger] decls_view(s)[i] == decl_view(s[i]),
    decreases s.len(),
{
    if s.len() > 0 {
        lemma_decls_view(s.drop_first());
        assert forall|i: int| 0 <= i < s.len() implies #[trigger] decls_view(s)[i] == decl_view(
            s[i],
        ) by {
            if i > 0 {
                assert(decls_view(s.drop_first())[i - 1] == decl_view(s.drop_first()[i - 1]));
                assert(s.drop_first()[i - 1] == s[i]);
            }
        }
    }
}

pub open spec fn spec_repetition(repeated: bool) -> RepetitionKind {
    if repeated {
        RepetitionKind::Repeated
    } else {
        RepetitionKind::Required
    }
}

pub open spec fn spec_leaf(
    name: Seq<char>,
    repeated: bool,
    pt: PhysicalType,
    lh: LogicalHint,
) -> SpecDecl {
    SpecDecl { name: name, repetition: spec_repetition(repeated), kind: SpecDeclKind::Leaf(pt, lh) }
}

/// The columnar declaration of one shape: scalar shapes become leaves by the
/// fixed type table, a list becomes a repeated declaration of its element
/// shape, a map becomes a group. A list directly inside a list has no
/// declaration: that case yields nothing and the translator reports it.
pub open spec fn translate_shape(s: SpecShape, name: Seq<char>, repeated: bool) -> Option<SpecDecl>
    decreases s,
{
    match s {
        SpecShape::Null => Option::Some(
            spec_leaf(name, repeated, PhysicalType::Boolean, LogicalHint::Plain),
        ),
        SpecShape::Bool => Option::Some(
            spec_leaf(name, repeated, PhysicalType::Boolean, LogicalHint::Plain),
        ),
        SpecShape::Integer => Option::Some(
            spec_leaf(name, repeated, PhysicalType::Int64, LogicalHint::UnsignedInt64),
        ),
        SpecShape::Float => Option::Some(
            spec_leaf(name, repeated, PhysicalType::Double, LogicalHint::Plain),
        ),
        SpecShape::Text => Option::Some(
            spec_leaf(name, repeated, PhysicalType::ByteArray, LogicalHint::Utf8),
        ),
        SpecShape::Bytes => Option::Some(
            spec_leaf(name, repeated, PhysicalType::ByteArray, LogicalHint::Plain),
        ),
        SpecShape::Link => Option::Some(
            spec_leaf(name, repeated, PhysicalType::ByteArray, LogicalHint::Plain),
        ),
        SpecShape::List(inner) => {
            if repeated {
                Option::None
            } else {
                translate_shape(*inner, name, true)
            }
        },
        SpecShape::Dict(m) => {
            match translate_entries(m) {
                Option::Some(cs) => Option::Some(
                    SpecDecl {
                        name: name,
                        repetition: spec_repetition(repeated),
                        kind: SpecDeclKind::Group(cs),
                    },
                ),
                Option::None => Option::None,
            }
        },
    }
}

pub open spec fn translate_entries(m: Seq<(Seq<char>, SpecShape)>) -> Option<Seq<SpecDecl>>
    decreases m,
{
    if m.len() == 0 {
        Option::Some(Seq::empty())
    } else {
        match (translate_shape(m[0].1, m[0].0, false), translate_entries(m.drop_first())) {
            (Option::Some(d), Option::Some(rest)) => Option::Some(seq![d] + rest),
            _ => Option::None,
        }
    }
}

pub proof fn lemma_translate_entries(m: Seq<(Seq<char>, SpecShape)>)
    ensures
        translate_entries(m) is Some <==> (forall|i: int|
            0 <= i < m.len() ==> translate_shape((#[trigger] m[i]).1, m[i].0, false) is Some),
        translate_entries(m) is Some ==> (translate_entries(m)->Some_0.len() == m.len()
            && (forall|i: int|
            0 <= i < m.len() ==> #[trigger] translate_entries(m)->Some_0[i] == translate_shape(
                m[i].1,
                m[i].0,
                false,
            )->Some_0)),
    decreases m.len(),
{
    if m.len() > 0 {
        lemma_translate_entries(m.drop_first());
        assert forall|i: int|
            0 <= i < m.len() && translate_entries(m.drop_first()) is Some && translate_shape(
                m[0].1,
                m[0].0,
                false,
            ) is Some implies translate_shape((#[trigger] m[i]).1, m[i].0, false) is Some by {
            if i > 0 {
                assert(m.drop_first()[i - 1] == m[i]);
            }
        }
        if translate_entries(m) is Some {
            assert forall|i: int|
                0 <= i < m.len() implies #[trigger] translate_entries(m)->Some_0[i]
                == translate_shape(m[i].1, m[i].0, false)->Some_0 by {
                if i > 0 {
                    assert(m.drop_first()[i - 1] == m[i]);
                    assert(translate_entries(m.drop_first())->Some_0[i - 1] == translate_shape(
                        m.drop_first()[i - 1].1,
                        m.drop_first()[i - 1].0,
                        false,
                    )->Some_0);
                }
            }
        }
        if (forall|i: int|
            0 <= i < m.len() ==> translate_shape((#[trigger] m[i]).1, m[i].0, false) is Some) {
            assert(translate_shape(m[0].1, m[0].0, false) is Some);
            assert forall|i: int|
                0 <= i < m.drop_first().len() implies translate_shape(
                (#[trigger] m.drop_first()[i]).1,
                m.drop_first()[i].0,
                false,
            ) is Some by {
                assert(m.drop_first()[i] == m[i + 1]);
            }
        }
    }
}

/// Translate one shape into its columnar declaration.
#[verifier::loop_isolation(false)]
pub fn translate(shape: &Shape, name: &str, repeated: bool) -> (r: Result<ColumnDecl, Error>)
    ensures
        r is Ok <==> translate_shape(shape@, name@, repeated) is Some,
        r matches Ok(d) ==> translate_shape(shape@, name@, repeated) == Option::Some(d@),
        r matches Err(e) ==> e is NestedListUnsupported,
    decreases shape,
{
    let rep = if repeated {
        RepetitionKind::Repeated
    } else {
        RepetitionKind::Required
    };
    match shape {
        Shape::Null => Ok(
            ColumnDecl {
                name: name.to_owned(),
                repetition: rep,
                kind: DeclKind::Leaf(PhysicalType::Boolean, LogicalHint::Plain),
            },
        ),
        Shape::Bool => Ok(
            ColumnDecl {
                name: name.to_owned(),
                repetition: rep,
                kind: DeclKind::Leaf(PhysicalType::Boolean, LogicalHint::Plain),
            },
        ),
        Shape::Integer => Ok(
            ColumnDecl {
                name: name.to_owned(),
                repetition: rep,
                kind: DeclKind::Leaf(PhysicalType::Int64, LogicalHint::UnsignedInt64),
            },
        ),
        Shape::Float => Ok(
            ColumnDecl {
                name: name.to_owned(),
                repetition: rep,
                kind: DeclKind::Leaf(PhysicalType::Double, LogicalHint::Plain),
            },
        ),
        Shape::Text => Ok(
            ColumnDecl {
                name: name.to_owned(),
                repetition: rep,
                kind: DeclKind::Leaf(PhysicalType::ByteArray, LogicalHint::Utf8),
            },
        ),
        Shape::Bytes => Ok(
            ColumnDecl {
                name: name.to_owned(),
                repetition: rep,
                kind: DeclKind::Leaf(PhysicalType::ByteArray, LogicalHint::Plain),
            },
        ),
        Shape::Link => Ok(
            ColumnDecl {
                name: name.to_owned(),
                repetition: rep,
                kind: DeclKind::Leaf(PhysicalType::ByteArray, LogicalHint::Plain),
            },
        ),
        Shape::List(inner) => {
            if repeated {
                Err(Error::NestedListUnsupported)
            } else {
                translate(&*inner, name, true)
            }
        },
        Shape::Dict(m) => {
            proof {
                lemma_shape_entries_view(m@);
                lemma_translate_entries(shape_entries_view(m@));
            }
            let mut children: Vec<ColumnDecl> = Vec::new();
            let mut i: usize = 0;
            while i < m.len()
                invariant
                    i <= m@.len(),
                    children@.len() == i,
                    forall|k: int|
                        0 <= k < i ==> translate_shape(
                            shape_entries_view(m@)[k].1,
                            shape_entries_view(m@)[k].0,
                            false,
                        ) == Option::Some(#[trigger] children@[k]@),
                decreases m@.len() - i,
            {
                match translate(&m[i].1, m[i].0.as_str(), false) {
                    Ok(d) => {
                        children.push(d);
                    },
                    Err(e) => {
                        proof {
                            let sev = shape_entries_view(m@);
                            assert(sev[i as int] == (m@[i as int].0@, shape_view(
                                m@[i as int].1,
                            )));
                            assert(translate_shape(sev[i as int].1, sev[i as int].0, false)
                                is None);
                            assert(!(translate_entries(sev) is Some));
                        }
                        return Err(e);
                    },
                }
                i = i + 1;
            }
            proof {
                lemma_decls_view(children@);
                let sev = shape_entries_view(m@);
                assert forall|k: int|
                    0 <= k < sev.len() implies translate_shape(
                    (#[trigger] sev[k]).1,
                    sev[k].0,
                    false,
                ) is Some by {
                    assert(translate_shape(sev[k].1, sev[k].0, false) == Option::Some(
                        children@[k]@,
                    ));
                }
                assert(translate_entries(sev) is Some);
                assert forall|k: int| 0 <= k < children@.len() implies decls_view(children@)[k]
                    == translate_entries(sev)->Some_0[k] by {
                    assert(translate_shape(sev[k].1, sev[k].0, false) == Option::Some(
                        children@[k]@,
                    ));
                    assert(translate_entries(sev)->Some_0[k] == translate_shape(
                        sev[k].1,
                        sev[k].0,
                        false,
                    )->Some_0);
                }
                assert(decls_view(children@) =~= translate_entries(sev)->Some_0);
            }
            Ok(ColumnDecl { name: name.to_owned(), repetition: rep, kind: DeclKind::Group(children) })
        },
    }
}

/// One leaf column of a declared schema: its path below the root, its
/// physical type, and its maximum repetition and definition levels (one per
/// repeated field along the path; no optional tier exists).
#[derive(Debug)]
pub struct ColumnMeta {
    pub path: Vec<String>,
    pub physical: PhysicalType,
    pub max_rep: usize,
    pub max_def: usize,
}

pub struct SpecColumnMeta {
    pub path: Seq<Seq<char>>,
    pub physical: PhysicalType,
    pub max_rep: int,
    pub max_def: int,
}

impl View for ColumnMeta {
    type V = SpecColumnMeta;

    open spec fn view(&self) -> SpecColumnMeta {
        SpecColumnMeta {
            path: strings_view(self.path@),
            physical: self.physical,
            max_rep: self.max_rep as int,
            max_def: self.max_def as int,
        }
    }
}

pub open spec fn metas_view(s: Seq<ColumnMeta>) -> Seq<SpecColumnMeta>
    decreases s,
{
    if s.len() == 0 {
        Seq::empty()
    } else {
        seq![s[0]@] + metas_view(s.drop_first())
    }
}

pub broadcast proof fn lemma_metas_view(s: Seq<ColumnMeta>)
    ensures
        (#[trigger] metas_view(s)).len() == s.len(),
        forall|i: int| 0 <= i < s.len() ==> #[trigger] metas_view(s)[i] == s[i]@,
    decreases s.len(),
{
    if s.len() > 0 {
        lemma_metas_view(s.drop_first());
        assert forall|i: int| 0 <= i < s.len() implies #[trigger] metas_view(s)[i] == s[i]@ by {
            if i > 0 {
                assert(metas_view(s.drop_first())[i - 1] == s.drop_first()[i - 1]@);
                assert(s.drop_first()[i - 1] == s[i]);
            }
        }
    }
}

/// The leaf columns under one declaration, in declaration order, with the
/// levels accumulated along the path.
pub open spec fn metas_of_decl(
    d: SpecDecl,
    prefix: Seq<Seq<char>>,
    rep: int,
    def: int,
) -> Seq<SpecColumnMeta>
    decreases d,
{
    let step: int = if d.repetition is Repeated {
        1
    } else {
        0
    };
    match d.kind {
        SpecDeclKind::Leaf(pt, _) => seq![
            SpecColumnMeta {
                path: prefix.push(d.name),
                physical: pt,
                max_rep: rep + step,
                max_def: def + step,
            },
        ],
        SpecDeclKind::Group(cs) => metas_of_decls(cs, prefix.push(d.name), rep + step, def + step),
    }
}

pub open spec fn metas_of_decls(
    s: Seq<SpecDecl>,
    prefix: Seq<Seq<char>>,
    rep: int,
    def: int,
) -> Seq<SpecColumnMeta>
    decreases s,
{
    if s.len() == 0 {
        Seq::empty()
    } else {
        metas_of_decl(s[0], prefix, rep, def) + metas_of_decls(s.drop_first(), prefix, rep, def)
    }
}

/// The leaf columns of a whole schema: the root node contributes no path
/// segment and no level of its own.
pub open spec fn root_metas(d: SpecDecl) -> Seq<SpecColumnMeta> {
    match d.kind {
        SpecDeclKind::Group(cs) => metas_of_decls(cs, Seq::empty(), 0, 0),
        SpecDeclKind::Leaf(_, _) => metas_of_decl(d, Seq::empty(), 0, 0),
    }
}

pub proof fn lemma_metas_of_decls_push(
    s: Seq<SpecDecl>,
    e: SpecDecl,
    prefix: Seq<Seq<char>>,
    rep: int,
    def: int,
)
    ensures
        metas_of_decls(s.push(e), prefix, rep, def) == metas_of_decls(s, prefix, rep, def)
            + metas_of_decl(e, prefix, rep, def),
    decreases s.len(),
{
    if s.len() == 0 {
        assert(s.push(e)[0] == e);
        assert(s.push(e).drop_first() =~= Seq::<SpecDecl>::empty());
        assert(metas_of_decls(Seq::<SpecDecl>::empty(), prefix, rep, def)
            == Seq::<SpecColumnMeta>::empty());
        assert(metas_of_decls(s.push(e), prefix, rep, def) == metas_of_decl(e, prefix, rep, def)
            + Seq::<SpecColumnMeta>::empty());
        assert(metas_of_decls(s.push(e), prefix, rep, def) =~= metas_of_decls(s, prefix, rep, def)
            + metas_of_decl(e, prefix, rep, def));
    } else {
        assert(s.push(e)[0] == s[0]);
        assert(s.push(e).drop_first() =~= s.drop_first().push(e));
        lemma_metas_of_decls_push(s.drop_first(), e, prefix, rep, def);
        assert(metas_of_decls(s.push(e), prefix, rep, def) == metas_of_decl(s[0], prefix, rep, def)
            + (metas_of_decls(s.drop_first(), prefix, rep, def) + metas_of_decl(
            e,
            prefix,
            rep,
            def,
        )));
        assert(metas_of_decl(s[0], prefix, rep, def) + (metas_of_decls(s.drop_first(), prefix, rep, def)
            + metas_of_decl(e, prefix, rep, def)) =~= (metas_of_decl(s[0], prefix, rep, def)
            + metas_of_decls(s.drop_first(), prefix, rep, def)) + metas_of_decl(e, prefix, rep, def));
    }
}

#[verifier::loop_isolation(false)]
fn collect_metas(
    d: &ColumnDecl,
    prefix: &Vec<String>,
    rep: usize,
    def: usize,
    out: &mut Vec<ColumnMeta>,
)
    requires
        rep <= prefix@.len(),
        def <= prefix@.len(),
    ensures
        metas_view(final(out)@) == metas_view(old(out)@) + metas_of_decl(
            d@,
            strings_view(prefix@),
            rep as int,
            def as int,
        ),
    decreases d,
{
    let step: usize = match d.repetition {
        RepetitionKind::Repeated => 1,
        RepetitionKind::Required => 0,
    };
    let mut p2 = clone_strings(prefix);
    let ghost cl: Seq<String> = p2@;
    p2.push(clone_string(&d.name));
    let n = p2.len();
    proof {
        lemma_strings_view(prefix@);
        lemma_strings_view(cl);
        assert(rep + step <= n);
        assert(def + step <= n);
    }
    let rep2 = rep + step;
    let def2 = def + step;
    proof {
        lemma_strings_view(prefix@);
        lemma_strings_view(cl);
        lemma_strings_view(p2@);
        assert forall|k: int| 0 <= k < p2@.len() implies #[trigger] strings_view(p2@)[k]
            == strings_view(prefix@).push(d.name@)[k] by {
            if k < p2@.len() - 1 {
                assert(strings_view(p2@)[k] == p2@[k]@);
                assert(p2@[k] == cl[k]);
                assert(strings_view(cl)[k] == cl[k]@);
                assert(strings_view(prefix@)[k] == prefix@[k]@);
            }
        }
        assert(strings_view(p2@) =~= strings_view(prefix@).push(d.name@));
    }
    match &d.kind {
        DeclKind::Leaf(pt, _lh) => {
            let ghost before: Seq<ColumnMeta> = out@;
            out.push(ColumnMeta { path: p2, physical: *pt, max_rep: rep2, max_def: def2 });
            proof {
                lemma_metas_view(before);
                lemma_metas_view(out@);
                assert(metas_view(out@) =~= metas_view(before) + metas_of_decl(
                    d@,
                    strings_view(prefix@),
                    rep as int,
                    def as int,
                ));
            }
        },
        DeclKind::Group(cs) => {
            proof {
                lemma_decls_view(cs@);
                assert(decls_view(cs@).take(0) =~= Seq::<SpecDecl>::empty());
                assert(metas_of_decls(
                    decls_view(cs@).take(0),
                    strings_view(p2@),
                    rep2 as int,
                    def2 as int,
                ) =~= Seq::<SpecColumnMeta>::empty());
                assert(metas_view(out@) =~= metas_view(out@) + Seq::<SpecColumnMeta>::empty());
            }
            let mut i: usize = 0;
            while i < cs.len()
                invariant
                    i <= cs@.len(),
                    metas_view(out@) == metas_view(old(out)@) + metas_of_decls(
                        decls_view(cs@).take(i as int),
                        strings_view(p2@),
                        rep2 as int,
                        def2 as int,
                    ),
                decreases cs@.len() - i,
            {
                collect_metas(&cs[i], &p2, rep2, def2, out);
                proof {
                    lemma_metas_of_decls_push(
                        decls_view(cs@).take(i as int),
                        decls_view(cs@)[i as int],
                        strings_view(p2@),
                        rep2 as int,
                        def2 as int,
                    );
                    assert(decls_view(cs@).take(i + 1) =~= decls_view(cs@).take(i as int).push(
                        decls_view(cs@)[i as int],
                    ));
                }
                i = i + 1;
            }
            proof {
                assert(decls_view(cs@).take(cs@.len() as int) =~= decls_view(cs@));
            }
        },
    }
}

/// The leaf columns of a schema, in the order a columnar writer hands out
/// its column writers.
#[verifier::loop_isolation(false)]
pub fn column_metas(root: &ColumnDecl) -> (r: Vec<ColumnMeta>)
    ensures
        metas_view(r@) == root_metas(root@),
{
    let empty: Vec<String> = Vec::new();
    let mut out: Vec<ColumnMeta> = Vec::new();
    match &root.kind {
        DeclKind::Leaf(_pt, _lh) => {
            collect_metas(root, &empty, 0, 0, &mut out);
            proof {
                assert(metas_view(out@) =~= root_metas(root@));
            }
        },
        DeclKind::Group(cs) => {
            proof {
                lemma_decls_view(cs@);
                assert(decls_view(cs@).take(0) =~= Seq::<SpecDecl>::empty());
                assert(metas_of_decls(decls_view(cs@).take(0), Seq::empty(), 0, 0)
                    =~= Seq::<SpecColumnMeta>::empty());
                assert(metas_view(out@) =~= Seq::<SpecColumnMeta>::empty());
            }
            let mut i: usize = 0;
            while i < cs.len()
                invariant
                    i <= cs@.len(),
                    metas_view(out@) == metas_of_decls(
                        decls_view(cs@).take(i as int),
                        Seq::empty(),
                        0,
                        0,
                    ),
                decreases cs@.len() - i,
            {
                collect_metas(&cs[i], &empty, 0, 0, &mut out);
                proof {
                    lemma_metas_of_decls_push(
                        decls_view(cs@).take(i as int),
                        decls_view(cs@)[i as int],
                        Seq::empty(),
                        0,
                        0,
                    );
                    assert(decls_view(cs@).take(i + 1) =~= decls_view(cs@).take(i as int).push(
                        decls_view(cs@)[i as int],
                    ));
                }
                i = i + 1;
            }
            proof {
                assert(decls_view(cs@).take(cs@.len() as int) =~= decls_view(cs@));
            }
        },
    }
    out
}

} // verus!
