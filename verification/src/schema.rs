use vstd::prelude::*;
use crate::errors::{errp, err_view, prepend_key, ErrV, GenError};
use crate::order::{sort_entries, sort_entry_vec};
use crate::raw::{entries_view, lemma_entries_view_index, raw_view, RawMapping, RawVal, RawValue};
use crate::trust::{pascal_of, to_pascal_case};

verus! {

/// A node of the canonical schema: a text leaf, or a record with a
/// derived type name and an ordered field list.
#[derive(Debug)]
pub enum SchemaNode {
    Leaf,
    Record { ty_name: String, fields: Vec<(String, SchemaNode)> },
}

/// Mathematical image of a `SchemaNode`.
pub enum SchemaV {
    Leaf,
    Record { ty_name: Seq<char>, fields: Seq<(Seq<char>, SchemaV)> },
}

pub open spec fn schema_view(n: SchemaNode) -> SchemaV
    decreases n,
{
    match n {
        SchemaNode::Leaf => SchemaV::Leaf,
        SchemaNode::Record { ty_name, fields } => SchemaV::Record {
            ty_name: ty_name@,
            fields: fields_view(fields@),
        },
    }
}

pub open spec fn fields_view(fs: Seq<(String, SchemaNode)>) -> Seq<(Seq<char>, SchemaV)>
    decreases fs,
{
    if fs.len() == 0 {
        Seq::empty()
    } else {
        fields_view(fs.drop_last()).push((fs.last().0@, schema_view(fs.last().1)))
    }
}

/// `fields_view` is the pointwise view of the fields.
pub proof fn lemma_fields_view_index(fs: Seq<(String, SchemaNode)>)
    ensures
        fields_view(fs).len() == fs.len(),
        forall|i: int| #![trigger fields_view(fs)[i]]
            0 <= i < fs.len() ==> fields_view(fs)[i] == (fs[i].0@, schema_view(fs[i].1)),
    decreases fs,
{
    if fs.len() > 0 {
        lemma_fields_view_index(fs.drop_last());
    }
}

/// The implicit identifier field of the root record.
pub open spec fn reserved_key() -> Seq<char> {
    "lang_id"@
}

/// The root record's type name in the emitted artifact.
pub open spec fn root_ty_name() -> Seq<char> {
    "I18n"@
}

/// A document value with every mapping level in canonical (sorted) key
/// order, values sorted recursively first.
pub open spec fn sort_val(v: RawVal) -> RawVal
    decreases v,
{
    match v {
        RawVal::Scalar(s) => RawVal::Scalar(s),
        RawVal::Nested(es) => RawVal::Nested(sort_entries(sorted_each(es))),
        RawVal::Other => RawVal::Other,
    }
}

pub open spec fn sorted_each(es: Seq<(Seq<char>, RawVal)>) -> Seq<(Seq<char>, RawVal)>
    decreases es,
{
    if es.len() == 0 {
        Seq::empty()
    } else {
        sorted_each(es.drop_last()).push((es.last().0, sort_val(es.last().1)))
    }
}

/// Copies a document value, bringing every mapping level into
/// canonical order.
pub fn sorted_copy_value(v: &RawValue) -> (r: RawValue)
    ensures
        raw_view(r) == sort_val(raw_view(*v)),
    decreases v,
{
    match v {
        RawValue::Scalar(s) => RawValue::Scalar(s.clone()),
        RawValue::Nested(m) => RawValue::Nested(RawMapping { entries: sorted_copy_entries(&m.entries) }),
        RawValue::Other => RawValue::Other,
    }
}

/// Copies one mapping level, sorted by key, values sorted recursively.
pub fn sorted_copy_entries(es: &Vec<(String, RawValue)>) -> (r: Vec<(String, RawValue)>)
    ensures
        entries_view(r@) == sort_entries(sorted_each(entries_view(es@))),
    decreases es,
{
    let ghost full = entries_view(es@);
    let mut out: Vec<(String, RawValue)> = Vec::new();
    let mut i: usize = 0;
    proof {
        lemma_entries_view_index(es@);
        assert(entries_view(out@) =~= Seq::<(Seq<char>, RawVal)>::empty());
        assert(sorted_each(full.take(0)) =~= Seq::<(Seq<char>, RawVal)>::empty());
    }
    loop
        invariant
            i <= es@.len(),
            full == entries_view(es@),
            full.len() == es@.len(),
            entries_view(out@) == sorted_each(full.take(i as int)),
        ensures
            i == es@.len(),
            entries_view(out@) == sorted_each(full.take(i as int)),
        decreases es@.len() - i,
    {
        if i >= es.len() {
            break;
        }
        proof {
            lemma_entries_view_index(es@);
            assert(full[i as int] == (es@[i as int].0@, raw_view(es@[i as int].1)));
            broadcast use vstd::std_specs::vec::group_vec_axioms;
            broadcast use vstd::seq::axiom_seq_index_decreases;
            assert(decreases_to!(es@ => es@[i as int]));
            assert(decreases_to!(es@[i as int] => es@[i as int].1));
        }
        let sv = sorted_copy_value(&es[i].1);
        let k = es[i].0.clone();
        let ghost out_pre = out@;
        out.push((k, sv));
        proof {
            lemma_entries_view_index(out@);
            lemma_entries_view_index(out_pre);
            assert(entries_view(out@) =~= entries_view(out_pre).push((
                es@[i as int].0@,
                raw_view(sv),
            )));
            assert(full.take(i as int + 1).drop_last() =~= full.take(i as int));
            assert(full.take(i as int + 1).last() == full[i as int]);
        }
        i += 1;
    }
    proof {
        assert(full.take(i as int) =~= full);
    }
    sort_entry_vec(out)
}

/// The schema fields derived from one (already canonically ordered)
/// mapping level, walked front to back; `seen` holds the type names of
/// the records already accepted among the preceding siblings.
pub open spec fn build_fields(
    s: Seq<(Seq<char>, RawVal)>,
    root: bool,
    seen: Seq<Seq<char>>,
) -> Result<Seq<(Seq<char>, SchemaV)>, ErrV>
    decreases s,
{
    if s.len() == 0 {
        Ok(Seq::empty())
    } else {
        let k = s[0].0;
        if root && k == reserved_key() {
            Err(ErrV::ReservedKeyConflict(seq![k]))
        } else {
            match s[0].1 {
                RawVal::Scalar(_) => match build_fields(s.drop_first(), root, seen) {
                    Ok(fs) => Ok(seq![(k, SchemaV::Leaf)] + fs),
                    Err(e) => Err(e),
                },
                RawVal::Nested(ces) => {
                    let tn = pascal_of(k);
                    if seen.contains(tn) {
                        Err(ErrV::TypeNameCollision(seq![k]))
                    } else {
                        match build_fields(ces, false, Seq::empty()) {
                            Ok(cfs) => match build_fields(s.drop_first(), root, seen.push(tn)) {
                                Ok(fs) => Ok(
                                    seq![(k, SchemaV::Record { ty_name: tn, fields: cfs })] + fs,
                                ),
                                Err(e) => Err(e),
                            },
                            Err(e) => Err(errp(k, e)),
                        }
                    }
                },
                RawVal::Other => Err(ErrV::InvalidValueKind(seq![k])),
            }
        }
    }
}

/// The whole-schema derivation: the root record over the default
/// document's (canonically ordered) entries.
pub open spec fn root_schema(s: Seq<(Seq<char>, RawVal)>) -> Result<SchemaV, ErrV> {
    match build_fields(s, true, Seq::empty()) {
        Ok(fs) => Ok(SchemaV::Record { ty_name: root_ty_name(), fields: fs }),
        Err(e) => Err(e),
    }
}

spec fn seq_result(
    pre: Seq<(Seq<char>, SchemaV)>,
    r: Result<Seq<(Seq<char>, SchemaV)>, ErrV>,
) -> Result<Seq<(Seq<char>, SchemaV)>, ErrV> {
    match r {
        Ok(fs) => Ok(pre + fs),
        Err(e) => Err(e),
    }
}

fn contains_string(v: &Vec<String>, s: &String) -> (r: bool)
    ensures
        r == v.deep_view().contains(s@),
{
    let mut i: usize = 0;
    loop
        invariant
            i <= v@.len(),
            forall|j: int| 0 <= j < i ==> v.deep_view()[j] != s@,
        ensures
            i <= v@.len() ==> (i < v@.len() ==> v.deep_view()[i as int] == s@),
            i >= v@.len() ==> !v.deep_view().contains(s@),
        decreases v@.len() - i,
    {
        if i >= v.len() {
            proof {
                assert(forall|j: int| 0 <= j < v.deep_view().len() ==> v.deep_view()[j] != s@);
            }
            break;
        }
        if v[i].eq(s) {
            proof {
                assert(v.deep_view()[i as int] == v@[i as int]@);
            }
            break;
        }
        proof {
            assert(v.deep_view()[i as int] == v@[i as int]@);
        }
        i += 1;
    }
    if i < v.len() {
        proof {
            assert(v.deep_view().contains(s@));
        }
        true
    } else {
        false
    }
}

/// Derives the field list of one record from one mapping level.
fn build_fields_exec(es: &Vec<(String, RawValue)>, root: bool) -> (r: Result<
    Vec<(String, SchemaNode)>,
    GenError,
>)
    ensures
        match r {
            Ok(fs) => build_fields(entries_view(es@), root, Seq::empty()) == Ok::<
                Seq<(Seq<char>, SchemaV)>,
                ErrV,
            >(fields_view(fs@)),
            Err(e) => build_fields(entries_view(es@), root, Seq::empty()) == Err::<
                Seq<(Seq<char>, SchemaV)>,
                ErrV,
            >(err_view(e)),
        },
    decreases es,
{
    let ghost full = entries_view(es@);
    let mut out: Vec<(String, SchemaNode)> = Vec::new();
    let mut seen: Vec<String> = Vec::new();
    let mut i: usize = 0;
    proof {
        lemma_entries_view_index(es@);
        assert(fields_view(out@) =~= Seq::<(Seq<char>, SchemaV)>::empty());
        assert(full.skip(0) =~= full);
        assert(seen.deep_view() =~= Seq::<Seq<char>>::empty());
    }
    loop
        invariant
            i <= es@.len(),
            full == entries_view(es@),
            full.len() == es@.len(),
            build_fields(full, root, Seq::empty()) == seq_result(
                fields_view(out@),
                build_fields(full.skip(i as int), root, seen.deep_view()),
            ),
        ensures
            i == es@.len(),
            build_fields(full, root, Seq::empty()) == seq_result(
                fields_view(out@),
                build_fields(full.skip(i as int), root, seen.deep_view()),
            ),
        decreases es@.len() - i,
    {
        if i >= es.len() {
            break;
        }
        let ghost rest = full.skip(i as int);
        proof {
            lemma_entries_view_index(es@);
            assert(rest[0] == full[i as int]);
            assert(full[i as int] == (es@[i as int].0@, raw_view(es@[i as int].1)));
            assert(rest.drop_first() =~= full.skip(i as int + 1));
        }
        let entry = &es[i];
        let k = &entry.0;
        if root && k.eq(&reserved_key_exec()) {
            let path = vec![k.clone()];
            proof {
                assert(path.deep_view() =~= seq![k@]);
            }
            return Err(GenError::ReservedKeyConflict { path });
        }
        match &entry.1 {
            RawValue::Scalar(_) => {
                let ghost out_pre = out@;
                out.push((k.clone(), SchemaNode::Leaf));
                proof {
                    lemma_fields_view_index(out@);
                    lemma_fields_view_index(out_pre);
                    assert(fields_view(out@) =~= fields_view(out_pre).push((k@, SchemaV::Leaf)));
                    let seenv = seen.deep_view();
                    let rest2 = full.skip(i as int + 1);
                    match build_fields(rest2, root, seenv) {
                        Ok(fs) => {
                            assert(fields_view(out@) + fs =~= fields_view(out_pre) + (seq![
                                (k@, SchemaV::Leaf),
                            ] + fs));
                        },
                        Err(_) => {},
                    }
                }
            },
            RawValue::Nested(m) => {
                let tn = to_pascal_case(k.as_str());
                if contains_string(&seen, &tn) {
                    let path = vec![k.clone()];
                    proof {
                        assert(path.deep_view() =~= seq![k@]);
                    }
                    return Err(GenError::TypeNameCollision { path });
                }
                proof {
                    broadcast use vstd::std_specs::vec::group_vec_axioms;
                    broadcast use vstd::seq::axiom_seq_index_decreases;
                    assert(es@[i as int].1 == RawValue::Nested(*m));
                    assert(decreases_to!(es@ => es@[i as int]));
                    assert(decreases_to!(es@[i as int] => es@[i as int].1));
                }
                let child = build_fields_exec(&m.entries, false);
                match child {
                    Ok(cfs) => {
                        let ghost out_pre = out@;
                        let ghost seen_pre = seen.deep_view();
                        out.push((
                            k.clone(),
                            SchemaNode::Record { ty_name: tn.clone(), fields: cfs },
                        ));
                        seen.push(tn);
                        proof {
                            lemma_fields_view_index(out@);
                            lemma_fields_view_index(out_pre);
                            let x = (k@, schema_view(out@.last().1));
                            assert(fields_view(out@) =~= fields_view(out_pre).push(x));
                            assert(seen.deep_view() =~= seen_pre.push(pascal_of(k@)));
                            let rest2 = full.skip(i as int + 1);
                            match build_fields(rest2, root, seen.deep_view()) {
                                Ok(fs) => {
                                    assert(fields_view(out@) + fs =~= fields_view(out_pre) + (seq![
                                        x,
                                    ] + fs));
                                },
                                Err(_) => {},
                            }
                        }
                    },
                    Err(e) => {
                        return Err(prepend_key(k.clone(), e));
                    },
                }
            },
            RawValue::Other => {
                let path = vec![k.clone()];
                proof {
                    assert(path.deep_view() =~= seq![k@]);
                }
                return Err(GenError::InvalidValueKind { path });
            },
        }
        i += 1;
        proof {
            assert(full.skip(i - 1).drop_first() =~= full.skip(i as int));
        }
    }
    proof {
        assert(full.skip(i as int) =~= Seq::<(Seq<char>, RawVal)>::empty());
        assert(fields_view(out@) + Seq::<(Seq<char>, SchemaV)>::empty() =~= fields_view(out@));
    }
    Ok(out)
}

fn reserved_key_exec() -> (r: String)
    ensures
        r@ == reserved_key(),
{
    String::from_str("lang_id")
}

/// Derives the canonical schema from the default locale's document,
/// which must already be in canonical order (see `deep_sort_mapping`).
pub fn build_schema(m: &RawMapping) -> (r: Result<SchemaNode, GenError>)
    ensures
        match r {
            Ok(n) => root_schema(entries_view(m.entries@)) == Ok::<SchemaV, ErrV>(schema_view(n)),
            Err(e) => root_schema(entries_view(m.entries@)) == Err::<SchemaV, ErrV>(err_view(e)),
        },
{
    match build_fields_exec(&m.entries, true) {
        Ok(fs) => Ok(SchemaNode::Record { ty_name: root_ty_name_exec(), fields: fs }),
        Err(e) => Err(e),
    }
}

fn root_ty_name_exec() -> (r: String)
    ensures
        r@ == root_ty_name(),
{
    String::from_str("I18n")
}

} // verus!
