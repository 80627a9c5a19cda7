use vstd::prelude::*;
use crate::errors::ErrV;
use crate::raw::{entries_view, get_val, lemma_entries_view_index, raw_view, RawMapping, RawVal, RawValue};
use crate::schema::{build_fields, fields_view, lemma_fields_view_index, schema_view, SchemaNode, SchemaV};
use crate::trust::pascal_of;
use crate::validate::find_key;

verus! {

/// The fully populated value tree of one locale: the schema's shape,
/// every leaf holding that locale's text or the default's.
#[derive(Debug)]
pub enum ValueTree {
    Leaf(String),
    Record(Vec<(String, ValueTree)>),
}

/// Mathematical image of a `ValueTree`.
pub enum TreeV {
    Leaf(Seq<char>),
    Record(Seq<(Seq<char>, TreeV)>),
}

pub open spec fn tree_view(t: ValueTree) -> TreeV
    decreases t,
{
    match t {
        ValueTree::Leaf(s) => TreeV::Leaf(s@),
        ValueTree::Record(fs) => TreeV::Record(trees_view(fs@)),
    }
}

pub open spec fn trees_view(ts: Seq<(String, ValueTree)>) -> Seq<(Seq<char>, TreeV)>
    decreases ts,
{
    if ts.len() == 0 {
        Seq::empty()
    } else {
        trees_view(ts.drop_last()).push((ts.last().0@, tree_view(ts.last().1)))
    }
}

pub proof fn lemma_trees_view_index(ts: Seq<(String, ValueTree)>)
    ensures
        trees_view(ts).len() == ts.len(),
        forall|i: int| #![trigger trees_view(ts)[i]]
            0 <= i < ts.len() ==> trees_view(ts)[i] == (ts[i].0@, tree_view(ts[i].1)),
    decreases ts,
{
    if ts.len() > 0 {
        lemma_trees_view_index(ts.drop_last());
    }
}

/// The schema's fields line up one for one with the default document's
/// entries: same keys in the same order, a scalar under every leaf, a
/// nested mapping under every record. `build_fields` guarantees this of
/// the mapping it was derived from.
pub open spec fn covers(fields: Seq<(Seq<char>, SchemaV)>, des: Seq<(Seq<char>, RawVal)>) -> bool
    decreases fields,
{
    &&& fields.len() == des.len()
    &&& forall|i: int| #![trigger fields[i]]
        0 <= i < fields.len() ==> fields[i].0 == des[i].0
    &&& forall|i: int| #![trigger fields[i]]
        0 <= i < fields.len() ==> covers_node(fields[i].1, des[i].1)
}

pub open spec fn covers_node(n: SchemaV, d: RawVal) -> bool
    decreases n,
{
    match n {
        SchemaV::Leaf => d is Scalar,
        SchemaV::Record { fields, .. } => match d {
            RawVal::Nested(des) => covers(fields, des),
            _ => false,
        },
    }
}

/// A schema derived by `build_fields` lines up with the mapping it was
/// derived from.
pub proof fn lemma_build_covers(
    s: Seq<(Seq<char>, RawVal)>,
    root: bool,
    seen: Seq<Seq<char>>,
    fs: Seq<(Seq<char>, SchemaV)>,
)
    requires
        build_fields(s, root, seen) == Ok::<Seq<(Seq<char>, SchemaV)>, ErrV>(fs),
    ensures
        covers(fs, s),
    decreases s,
{
    if s.len() == 0 {
        assert(fs.len() == 0);
    } else {
        let k = s[0].0;
        match s[0].1 {
            RawVal::Scalar(_) => {
                match build_fields(s.drop_first(), root, seen) {
                    Ok(fs2) => {
                        lemma_build_covers(s.drop_first(), root, seen, fs2);
                        assert(fs == seq![(k, SchemaV::Leaf)] + fs2);
                        assert forall|i: int| 0 <= i < fs.len() implies #[trigger] fs[i].0
                            == s[i].0 && covers_node(fs[i].1, s[i].1) by {
                            if i > 0 {
                                assert(fs[i] == fs2[i - 1]);
                                assert(s.drop_first()[i - 1] == s[i]);
                            }
                        }
                    },
                    Err(_) => {
                        assert(false);
                    },
                }
            },
            RawVal::Nested(ces) => {
                let tn = pascal_of(k);
                match build_fields(ces, false, Seq::empty()) {
                    Ok(cfs) => {
                        lemma_build_covers(ces, false, Seq::empty(), cfs);
                        match build_fields(s.drop_first(), root, seen.push(tn)) {
                            Ok(fs2) => {
                                lemma_build_covers(s.drop_first(), root, seen.push(tn), fs2);
                                let head = (k, SchemaV::Record { ty_name: tn, fields: cfs });
                                assert(fs == seq![head] + fs2);
                                assert(covers_node(head.1, s[0].1));
                                assert forall|i: int| 0 <= i < fs.len() implies #[trigger] fs[i].0
                                    == s[i].0 && covers_node(fs[i].1, s[i].1) by {
                                    if i > 0 {
                                        assert(fs[i] == fs2[i - 1]);
                                        assert(s.drop_first()[i - 1] == s[i]);
                                    }
                                }
                            },
                            Err(_) => {
                                assert(false);
                            },
                        }
                    },
                    Err(_) => {
                        assert(false);
                    },
                }
            },
            RawVal::Other => {
                assert(false);
            },
        }
    }
}

/// The merged value at one schema node: the locale's scalar where it
/// supplies one, the default's otherwise; a record recurses field by
/// field, and a locale that omits the whole section falls back to the
/// default for every descendant.
pub open spec fn merge_node(n: SchemaV, d: RawVal, l: Option<RawVal>) -> TreeV
    decreases n,
{
    match n {
        SchemaV::Leaf => TreeV::Leaf(
            match l {
                Some(RawVal::Scalar(s)) => s,
                _ => match d {
                    RawVal::Scalar(s) => s,
                    _ => Seq::empty(),
                },
            },
        ),
        SchemaV::Record { fields, .. } => TreeV::Record(
            merge_fields(
                fields,
                match d {
                    RawVal::Nested(des) => des,
                    _ => Seq::empty(),
                },
                match l {
                    Some(RawVal::Nested(les)) => Some(les),
                    _ => None,
                },
            ),
        ),
    }
}

pub open spec fn merge_fields(
    fields: Seq<(Seq<char>, SchemaV)>,
    des: Seq<(Seq<char>, RawVal)>,
    les: Option<Seq<(Seq<char>, RawVal)>>,
) -> Seq<(Seq<char>, TreeV)>
    decreases fields,
{
    if fields.len() == 0 {
        Seq::empty()
    } else {
        let k = fields[0].0;
        let dv = if des.len() > 0 {
            des[0].1
        } else {
            RawVal::Other
        };
        let lv = match les {
            Some(ls) => get_val(ls, k),
            None => None,
        };
        seq![(k, merge_node(fields[0].1, dv, lv))] + merge_fields(
            fields.drop_first(),
            if des.len() > 0 {
                des.drop_first()
            } else {
                des
            },
            les,
        )
    }
}

fn merge_fields_exec(
    fields: &Vec<(String, SchemaNode)>,
    des: &Vec<(String, RawValue)>,
    les: Option<&Vec<(String, RawValue)>>,
) -> (r: Vec<(String, ValueTree)>)
    requires
        covers(fields_view(fields@), entries_view(des@)),
    ensures
        trees_view(r@) == merge_fields(
            fields_view(fields@),
            entries_view(des@),
            match les {
                Some(ls) => Some(entries_view(ls@)),
                None => None,
            },
        ),
    decreases fields,
{
    let ghost fv = fields_view(fields@);
    let ghost dv = entries_view(des@);
    let ghost lesv: Option<Seq<(Seq<char>, RawVal)>> = match les {
        Some(ls) => Some(entries_view(ls@)),
        None => None,
    };
    let mut out: Vec<(String, ValueTree)> = Vec::new();
    let mut i: usize = 0;
    proof {
        lemma_fields_view_index(fields@);
        lemma_entries_view_index(des@);
        assert(trees_view(out@) =~= Seq::<(Seq<char>, TreeV)>::empty());
        assert(fv.skip(0) =~= fv);
        assert(dv.skip(0) =~= dv);
    }
    loop
        invariant
            i <= fields@.len(),
            fv == fields_view(fields@),
            dv == entries_view(des@),
            lesv == (match les {
                Some(ls) => Some(entries_view(ls@)),
                None => None,
            }),
            covers(fv, dv),
            fv.len() == fields@.len(),
            dv.len() == des@.len(),
            merge_fields(fv, dv, lesv) == trees_view(out@) + merge_fields(
                fv.skip(i as int),
                dv.skip(i as int),
                lesv,
            ),
        ensures
            i == fields@.len(),
            merge_fields(fv, dv, lesv) == trees_view(out@) + merge_fields(
                fv.skip(i as int),
                dv.skip(i as int),
                lesv,
            ),
        decreases fields@.len() - i,
    {
        if i >= fields.len() {
            break;
        }
        let ghost restf = fv.skip(i as int);
        let ghost restd = dv.skip(i as int);
        proof {
            lemma_fields_view_index(fields@);
            lemma_entries_view_index(des@);
            assert(restf[0] == fv[i as int]);
            assert(restd[0] == dv[i as int]);
            assert(restf.drop_first() =~= fv.skip(i as int + 1));
            assert(restd.drop_first() =~= dv.skip(i as int + 1));
            assert(covers_node(fv[i as int].1, dv[i as int].1));
        }
        let k = &fields[i].0;
        let dval = &des[i].1;
        let ghost lval_spec = match lesv {
            Some(ls) => get_val(ls, k@),
            None => None,
        };
        let lix: Option<usize> = match les {
            Some(lm) => find_key(lm, k),
            None => None,
        };
        match &fields[i].1 {
            SchemaNode::Leaf => {
                let mut taken: Option<String> = None;
                if let Some(lm) = les {
                    if let Some(j) = lix {
                        if let RawValue::Scalar(s) = &lm[j].1 {
                            taken = Some(s.clone());
                        }
                    }
                }
                let text = match taken {
                    Some(s) => s,
                    None => match dval {
                        RawValue::Scalar(s) => s.clone(),
                        _ => String::new(),
                    },
                };
                proof {
                    assert(merge_node(restf[0].1, restd[0].1, lval_spec) == TreeV::Leaf(text@));
                }
                let ghost out_pre = out@;
                out.push((k.clone(), ValueTree::Leaf(text)));
                proof {
                    lemma_trees_view_index(out@);
                    lemma_trees_view_index(out_pre);
                    assert(trees_view(out@) =~= trees_view(out_pre).push((
                        k@,
                        tree_view(out@.last().1),
                    )));
                    assert(trees_view(out_pre) + merge_fields(restf, restd, lesv) =~= trees_view(
                        out@,
                    ) + merge_fields(fv.skip(i as int + 1), dv.skip(i as int + 1), lesv));
                }
            },
            SchemaNode::Record { fields: cf, .. } => {
                proof {
                    broadcast use vstd::std_specs::vec::group_vec_axioms;
                    broadcast use vstd::seq::axiom_seq_index_decreases;
                    assert(decreases_to!(fields@ => fields@[i as int]));
                    assert(decreases_to!(fields@[i as int] => fields@[i as int].1));
                }
                let child_les: Option<&Vec<(String, RawValue)>> = match les {
                    Some(lm) => match lix {
                        Some(j) => match &lm[j].1 {
                            RawValue::Nested(cm) => Some(&cm.entries),
                            _ => None,
                        },
                        None => None,
                    },
                    None => None,
                };
                let kids = match dval {
                    RawValue::Nested(dm) => merge_fields_exec(cf, &dm.entries, child_les),
                    _ => {
                        proof {
                            assert(false);
                        }
                        Vec::new()
                    },
                };
                proof {
                    assert(merge_node(restf[0].1, restd[0].1, lval_spec) == TreeV::Record(
                        trees_view(kids@),
                    ));
                }
                let ghost out_pre = out@;
                out.push((k.clone(), ValueTree::Record(kids)));
                proof {
                    lemma_trees_view_index(out@);
                    lemma_trees_view_index(out_pre);
                    assert(trees_view(out@) =~= trees_view(out_pre).push((
                        k@,
                        tree_view(out@.last().1),
                    )));
                    assert(trees_view(out_pre) + merge_fields(restf, restd, lesv) =~= trees_view(
                        out@,
                    ) + merge_fields(fv.skip(i as int + 1), dv.skip(i as int + 1), lesv));
                }
            },
        }
        i += 1;
    }
    proof {
        assert(fv.skip(i as int) =~= Seq::<(Seq<char>, SchemaV)>::empty());
        assert(merge_fields(fv.skip(i as int), dv.skip(i as int), lesv) =~= Seq::<
            (Seq<char>, TreeV),
        >::empty());
        assert(trees_view(out@) + Seq::<(Seq<char>, TreeV)>::empty() =~= trees_view(out@));
    }
    out
}

/// Builds the fully populated value tree of one locale: the locale's
/// value wherever it supplies one of the schema's shape, the default's
/// value everywhere else, whole omitted sections falling back to the
/// default throughout.
pub fn merge(schema: &SchemaNode, dflt: &RawMapping, locale: &RawMapping) -> (t: ValueTree)
    requires
        covers_node(schema_view(*schema), RawVal::Nested(entries_view(dflt.entries@))),
    ensures
        tree_view(t) == merge_node(
            schema_view(*schema),
            RawVal::Nested(entries_view(dflt.entries@)),
            Some(RawVal::Nested(entries_view(locale.entries@))),
        ),
{
    match schema {
        SchemaNode::Leaf => {
            proof {
                assert(false);
            }
            ValueTree::Leaf(String::new())
        },
        SchemaNode::Record { fields, .. } => {
            let kids = merge_fields_exec(fields, &dflt.entries, Some(&locale.entries));
            ValueTree::Record(kids)
        },
    }
}


/// The first schema field with the given key.
pub open spec fn field_at(fields: Seq<(Seq<char>, SchemaV)>, k: Seq<char>) -> Option<SchemaV>
    decreases fields,
{
    if fields.len() == 0 {
        None
    } else if fields[0].0 == k {
        Some(fields[0].1)
    } else {
        field_at(fields.drop_first(), k)
    }
}

/// The first tree field with the given key.
pub open spec fn tfield_at(ts: Seq<(Seq<char>, TreeV)>, k: Seq<char>) -> Option<TreeV>
    decreases ts,
{
    if ts.len() == 0 {
        None
    } else if ts[0].0 == k {
        Some(ts[0].1)
    } else {
        tfield_at(ts.drop_first(), k)
    }
}

/// The schema node at a path of keys from the root.
pub open spec fn node_at(n: SchemaV, p: Seq<Seq<char>>) -> Option<SchemaV>
    decreases p.len(),
{
    if p.len() == 0 {
        Some(n)
    } else {
        match n {
            SchemaV::Leaf => None,
            SchemaV::Record { fields, .. } => match field_at(fields, p[0]) {
                Some(c) => node_at(c, p.drop_first()),
                None => None,
            },
        }
    }
}

/// The merged tree's value at a path of keys from the root.
pub open spec fn tree_at(t: TreeV, p: Seq<Seq<char>>) -> Option<TreeV>
    decreases p.len(),
{
    if p.len() == 0 {
        Some(t)
    } else {
        match t {
            TreeV::Leaf(_) => None,
            TreeV::Record(ts) => match tfield_at(ts, p[0]) {
                Some(c) => tree_at(c, p.drop_first()),
                None => None,
            },
        }
    }
}

/// A document's value at a path: `None` once a key is absent or
/// something other than a mapping stands in the way.
pub open spec fn loc_at(l: Option<RawVal>, p: Seq<Seq<char>>) -> Option<RawVal>
    decreases p.len(),
{
    match l {
        None => None,
        Some(v) => if p.len() == 0 {
            Some(v)
        } else {
            match v {
                RawVal::Nested(es) => loc_at(get_val(es, p[0]), p.drop_first()),
                _ => None,
            }
        },
    }
}

/// The default entry that `merge_fields` pairs with the first field of
/// the given key.
pub open spec fn dval_at(
    fields: Seq<(Seq<char>, SchemaV)>,
    des: Seq<(Seq<char>, RawVal)>,
    k: Seq<char>,
) -> RawVal
    decreases fields,
{
    if fields.len() == 0 {
        RawVal::Other
    } else if fields[0].0 == k {
        if des.len() > 0 {
            des[0].1
        } else {
            RawVal::Other
        }
    } else {
        dval_at(
            fields.drop_first(),
            if des.len() > 0 {
                des.drop_first()
            } else {
                des
            },
            k,
        )
    }
}

/// What `merge_fields` put under each key.
proof fn lemma_merge_fields_at(
    fields: Seq<(Seq<char>, SchemaV)>,
    des: Seq<(Seq<char>, RawVal)>,
    les: Option<Seq<(Seq<char>, RawVal)>>,
    k: Seq<char>,
)
    ensures
        tfield_at(merge_fields(fields, des, les), k) == (match field_at(fields, k) {
            None => None::<TreeV>,
            Some(c) => Some(
                merge_node(
                    c,
                    dval_at(fields, des, k),
                    match les {
                        Some(ls) => get_val(ls, k),
                        None => None,
                    },
                ),
            ),
        }),
    decreases fields,
{
    if fields.len() == 0 {
    } else {
        let m = merge_fields(fields, des, les);
        let des2 = if des.len() > 0 {
            des.drop_first()
        } else {
            des
        };
        assert(m[0].0 == fields[0].0);
        if fields[0].0 == k {
        } else {
            lemma_merge_fields_at(fields.drop_first(), des2, les, k);
            assert(m.drop_first() =~= merge_fields(fields.drop_first(), des2, les));
        }
    }
}

/// Shape fidelity: at every path, the merged tree has the same variant
/// as the schema node there, and nothing stands outside the schema.
pub proof fn lemma_merge_shape(n: SchemaV, d: RawVal, l: Option<RawVal>, p: Seq<Seq<char>>)
    ensures
        node_at(n, p) is None ==> tree_at(merge_node(n, d, l), p) is None,
        (node_at(n, p) matches Some(SchemaV::Leaf)) ==> (tree_at(merge_node(n, d, l), p) matches Some(
            TreeV::Leaf(_),
        )),
        (node_at(n, p) matches Some(SchemaV::Record { .. })) ==> (tree_at(
            merge_node(n, d, l),
            p,
        ) matches Some(TreeV::Record(_))),
    decreases p.len(),
{
    if p.len() == 0 {
    } else {
        match n {
            SchemaV::Leaf => {
            },
            SchemaV::Record { fields, .. } => {
                let des = match d {
                    RawVal::Nested(es) => es,
                    _ => Seq::empty(),
                };
                let les = match l {
                    Some(RawVal::Nested(es)) => Some(es),
                    _ => None::<Seq<(Seq<char>, RawVal)>>,
                };
                lemma_merge_fields_at(fields, des, les, p[0]);
                match field_at(fields, p[0]) {
                    None => {
                    },
                    Some(c) => {
                        let lv = match les {
                            Some(ls) => get_val(ls, p[0]),
                            None => None::<RawVal>,
                        };
                        lemma_merge_shape(c, dval_at(fields, des, p[0]), lv, p.drop_first());
                    },
                }
            },
        }
    }
}

/// Override precedence: where the locale supplies a scalar at a leaf
/// path, the merged value is the locale's own, never the default's.
pub proof fn lemma_merge_override(
    n: SchemaV,
    d: RawVal,
    l: Option<RawVal>,
    p: Seq<Seq<char>>,
    s: Seq<char>,
)
    requires
        node_at(n, p) == Some(SchemaV::Leaf),
        loc_at(l, p) == Some(RawVal::Scalar(s)),
    ensures
        tree_at(merge_node(n, d, l), p) == Some(TreeV::Leaf(s)),
    decreases p.len(),
{
    if p.len() == 0 {
    } else {
        match n {
            SchemaV::Leaf => {
            },
            SchemaV::Record { fields, .. } => {
                let des = match d {
                    RawVal::Nested(es) => es,
                    _ => Seq::empty(),
                };
                match l {
                    Some(RawVal::Nested(ls)) => {
                        lemma_merge_fields_at(fields, des, Some(ls), p[0]);
                        match field_at(fields, p[0]) {
                            Some(c) => {
                                lemma_merge_override(
                                    c,
                                    dval_at(fields, des, p[0]),
                                    get_val(ls, p[0]),
                                    p.drop_first(),
                                    s,
                                );
                            },
                            None => {
                            },
                        }
                    },
                    _ => {
                    },
                }
            },
        }
    }
}

/// Under `covers` with unique keys, the entry `merge_fields` pairs with
/// a field is the default document's value under that key.
proof fn lemma_covers_get(
    fields: Seq<(Seq<char>, SchemaV)>,
    des: Seq<(Seq<char>, RawVal)>,
    k: Seq<char>,
    c: SchemaV,
)
    requires
        covers(fields, des),
        crate::raw::distinct_keys(des),
        crate::raw::wf_entries(des),
        field_at(fields, k) == Some(c),
    ensures
        get_val(des, k) == Some(dval_at(fields, des, k)),
        covers_node(c, dval_at(fields, des, k)),
        crate::raw::wf_val(dval_at(fields, des, k)),
    decreases fields,
{
    if fields.len() == 0 {
    } else if fields[0].0 == k {
        assert(des[0].0 == k);
        assert(covers_node(fields[0].1, des[0].1));
    } else {
        assert(des[0].0 == fields[0].0);
        assert(forall|i: int| #![trigger fields.drop_first()[i]]
            0 <= i < fields.len() - 1 ==> fields.drop_first()[i] == fields[i + 1]);
        assert(forall|i: int| #![trigger des.drop_first()[i]]
            0 <= i < des.len() - 1 ==> des.drop_first()[i] == des[i + 1]);
        assert(covers(fields.drop_first(), des.drop_first()));
        assert(crate::raw::distinct_keys(des.drop_first()));
        assert(crate::raw::wf_entries(des.drop_first()));
        lemma_covers_get(fields.drop_first(), des.drop_first(), k, c);
    }
}

/// Fallback correctness: where the locale omits the key (or a whole
/// containing section), the merged subtree is built from the default's
/// value at that path alone.
pub proof fn lemma_merge_fallback(n: SchemaV, d: RawVal, l: Option<RawVal>, p: Seq<Seq<char>>)
    requires
        covers_node(n, d),
        crate::raw::wf_val(d),
        node_at(n, p) is Some,
        loc_at(l, p) is None,
    ensures
        match node_at(n, p) {
            Some(nc) => match loc_at(Some(d), p) {
                Some(dc) => tree_at(merge_node(n, d, l), p) == Some(merge_node(nc, dc, None)),
                None => false,
            },
            None => true,
        },
    decreases p.len(),
{
    if p.len() == 0 {
    } else {
        match n {
            SchemaV::Leaf => {
            },
            SchemaV::Record { fields, .. } => {
                match d {
                    RawVal::Nested(des) => {
                        let k = p[0];
                        let les = match l {
                            Some(RawVal::Nested(es)) => Some(es),
                            _ => None::<Seq<(Seq<char>, RawVal)>>,
                        };
                        let lv = match les {
                            Some(ls) => get_val(ls, k),
                            None => None::<RawVal>,
                        };
                        lemma_merge_fields_at(fields, des, les, k);
                        match field_at(fields, k) {
                            Some(c) => {
                                lemma_covers_get(fields, des, k, c);
                                lemma_merge_fallback(
                                    c,
                                    dval_at(fields, des, k),
                                    lv,
                                    p.drop_first(),
                                );
                            },
                            None => {
                            },
                        }
                    },
                    _ => {
                    },
                }
            },
        }
    }
}


/// Fallback at a leaf: where the locale omits the key, the merged text
/// is the default's text at that path.
pub proof fn lemma_merge_fallback_leaf(
    n: SchemaV,
    d: RawVal,
    l: Option<RawVal>,
    p: Seq<Seq<char>>,
    s: Seq<char>,
)
    requires
        covers_node(n, d),
        crate::raw::wf_val(d),
        node_at(n, p) == Some(SchemaV::Leaf),
        loc_at(l, p) is None,
        loc_at(Some(d), p) == Some(RawVal::Scalar(s)),
    ensures
        tree_at(merge_node(n, d, l), p) == Some(TreeV::Leaf(s)),
{
    lemma_merge_fallback(n, d, l, p);
}

} // verus!
