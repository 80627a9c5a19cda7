use vstd::prelude::*;
use crate::errors::{errp, err_view, prepend_key, ErrV, GenError, ValueKind};
use crate::raw::{entries_view, get_val, lemma_entries_view_index, raw_view, RawMapping, RawVal, RawValue};
use crate::schema::{fields_view, lemma_fields_view_index, schema_view, SchemaNode, SchemaV};

verus! {

/// The first shape violation of a locale value against a schema node,
/// walked in schema field order, depth first; `None` where the value is
/// shape-valid. Keys absent from the schema are ignored; keys absent
/// from the locale are permitted (the merge fills them from the
/// default).
pub open spec fn validate_node(n: SchemaV, v: RawVal) -> Option<ErrV>
    decreases n,
{
    match n {
        SchemaV::Leaf => match v {
            RawVal::Scalar(_) => None,
            RawVal::Nested(_) => Some(
                ErrV::ShapeMismatch(Seq::empty(), ValueKind::ScalarKind, ValueKind::MappingKind),
            ),
            RawVal::Other => Some(ErrV::InvalidValueKind(Seq::empty())),
        },
        SchemaV::Record { fields, .. } => match v {
            RawVal::Nested(les) => validate_fields(fields, les),
            RawVal::Scalar(_) => Some(
                ErrV::ShapeMismatch(Seq::empty(), ValueKind::MappingKind, ValueKind::ScalarKind),
            ),
            RawVal::Other => Some(ErrV::InvalidValueKind(Seq::empty())),
        },
    }
}

pub open spec fn validate_fields(
    fields: Seq<(Seq<char>, SchemaV)>,
    les: Seq<(Seq<char>, RawVal)>,
) -> Option<ErrV>
    decreases fields,
{
    if fields.len() == 0 {
        None
    } else {
        let k = fields[0].0;
        let head = match get_val(les, k) {
            Some(lv) => match validate_node(fields[0].1, lv) {
                Some(e) => Some(errp(k, e)),
                None => None,
            },
            None => None,
        };
        match head {
            Some(e) => Some(e),
            None => validate_fields(fields.drop_first(), les),
        }
    }
}

/// `get_val` finds the first entry with the key.
pub proof fn lemma_get_val_at(s: Seq<(Seq<char>, RawVal)>, k: Seq<char>, j: int)
    requires
        0 <= j < s.len(),
        s[j].0 == k,
        forall|q: int| #![trigger s[q]] 0 <= q < j ==> s[q].0 != k,
    ensures
        get_val(s, k) == Some(s[j].1),
    decreases j,
{
    if j > 0 {
        assert(forall|q: int| #![trigger s.drop_first()[q]]
            0 <= q < j - 1 ==> s.drop_first()[q] == s[q + 1]);
        lemma_get_val_at(s.drop_first(), k, j - 1);
    }
}

/// `get_val` finds nothing when no entry has the key.
pub proof fn lemma_get_val_none(s: Seq<(Seq<char>, RawVal)>, k: Seq<char>)
    requires
        forall|q: int| #![trigger s[q]] 0 <= q < s.len() ==> s[q].0 != k,
    ensures
        get_val(s, k) is None,
    decreases s,
{
    if s.len() > 0 {
        assert(forall|q: int| #![trigger s.drop_first()[q]]
            0 <= q < s.len() - 1 ==> s.drop_first()[q] == s[q + 1]);
        lemma_get_val_none(s.drop_first(), k);
    }
}

/// Finds the first entry with the given key, as `get_val` does.
pub fn find_key(es: &Vec<(String, RawValue)>, k: &String) -> (r: Option<usize>)
    ensures
        match r {
            Some(j) => j < es@.len() && es@[j as int].0@ == k@ && get_val(
                entries_view(es@),
                k@,
            ) == Some(raw_view(es@[j as int].1)),
            None => get_val(entries_view(es@), k@) is None,
        },
{
    let mut j: usize = 0;
    loop
        invariant
            j <= es@.len(),
            forall|q: int| #![trigger es@[q]] 0 <= q < j ==> es@[q].0@ != k@,
        ensures
            j <= es@.len(),
            forall|q: int| #![trigger es@[q]] 0 <= q < j ==> es@[q].0@ != k@,
            j < es@.len() ==> es@[j as int].0@ == k@,
        decreases es@.len() - j,
    {
        if j >= es.len() {
            break;
        }
        if es[j].0.eq(k) {
            break;
        }
        j += 1;
    }
    proof {
        lemma_entries_view_index(es@);
    }
    if j < es.len() {
        proof {
            lemma_get_val_at(entries_view(es@), k@, j as int);
        }
        Some(j)
    } else {
        proof {
            lemma_get_val_none(entries_view(es@), k@);
        }
        None
    }
}

fn validate_fields_exec(fields: &Vec<(String, SchemaNode)>, les: &Vec<(String, RawValue)>) -> (r:
    Result<(), GenError>)
    ensures
        match r {
            Ok(_) => validate_fields(fields_view(fields@), entries_view(les@)) is None,
            Err(e) => validate_fields(fields_view(fields@), entries_view(les@)) == Some(
                err_view(e),
            ),
        },
    decreases fields,
{
    let ghost fv = fields_view(fields@);
    let ghost lv = entries_view(les@);
    let mut i: usize = 0;
    proof {
        lemma_fields_view_index(fields@);
        assert(fv.skip(0) =~= fv);
    }
    loop
        invariant
            i <= fields@.len(),
            fv == fields_view(fields@),
            lv == entries_view(les@),
            fv.len() == fields@.len(),
            validate_fields(fv, lv) == validate_fields(fv.skip(i as int), lv),
        ensures
            i == fields@.len(),
            validate_fields(fv, lv) == validate_fields(fv.skip(i as int), lv),
        decreases fields@.len() - i,
    {
        if i >= fields.len() {
            break;
        }
        let ghost rest = fv.skip(i as int);
        proof {
            lemma_fields_view_index(fields@);
            assert(rest[0] == fv[i as int]);
            assert(rest.drop_first() =~= fv.skip(i as int + 1));
        }
        let k = &fields[i].0;
        match find_key(les, k) {
            None => {},
            Some(j) => {
                let lval = &les[j].1;
                proof {
                    assert(get_val(lv, k@) == Some(raw_view(*lval)));
                }
                match (&fields[i].1, lval) {
                    (SchemaNode::Leaf, RawValue::Scalar(_)) => {},
                    (SchemaNode::Leaf, RawValue::Nested(_)) => {
                        let path = vec![k.clone()];
                        proof {
                            assert(path.deep_view() =~= seq![k@]);
                            assert(seq![k@] + Seq::<Seq<char>>::empty() =~= seq![k@]);
                            assert(rest.len() > 0);
                            assert(rest[0].0 == k@);
                            assert(rest[0].1 == SchemaV::Leaf);
                            assert(get_val(lv, k@) == Some(raw_view(*lval)));
                            assert(raw_view(*lval) is Nested);
                            assert(validate_node(rest[0].1, raw_view(*lval)) == Some(
                                ErrV::ShapeMismatch(
                                    Seq::empty(),
                                    ValueKind::ScalarKind,
                                    ValueKind::MappingKind,
                                ),
                            ));
                            assert(validate_fields(rest, lv) == Some(errp(k@,
                                ErrV::ShapeMismatch(
                                    Seq::empty(),
                                    ValueKind::ScalarKind,
                                    ValueKind::MappingKind,
                                ),
                            )));
                        }
                        return Err(GenError::ShapeMismatch {
                            path,
                            expected: ValueKind::ScalarKind,
                            found: ValueKind::MappingKind,
                        });
                    },
                    (SchemaNode::Leaf, RawValue::Other) => {
                        let path = vec![k.clone()];
                        proof {
                            assert(path.deep_view() =~= seq![k@]);
                            assert(seq![k@] + Seq::<Seq<char>>::empty() =~= seq![k@]);
                        }
                        return Err(GenError::InvalidValueKind { path });
                    },
                    (SchemaNode::Record { fields: cf, .. }, RawValue::Nested(lm)) => {
                        proof {
                            broadcast use vstd::std_specs::vec::group_vec_axioms;
                            broadcast use vstd::seq::axiom_seq_index_decreases;
                            assert(decreases_to!(fields@ => fields@[i as int]));
                            assert(decreases_to!(fields@[i as int] => fields@[i as int].1));
                        }
                        match validate_fields_exec(cf, &lm.entries) {
                            Ok(_) => {},
                            Err(e) => {
                                return Err(prepend_key(k.clone(), e));
                            },
                        }
                    },
                    (SchemaNode::Record { .. }, RawValue::Scalar(_)) => {
                        let path = vec![k.clone()];
                        proof {
                            assert(path.deep_view() =~= seq![k@]);
                            assert(seq![k@] + Seq::<Seq<char>>::empty() =~= seq![k@]);
                        }
                        return Err(GenError::ShapeMismatch {
                            path,
                            expected: ValueKind::MappingKind,
                            found: ValueKind::ScalarKind,
                        });
                    },
                    (SchemaNode::Record { .. }, RawValue::Other) => {
                        let path = vec![k.clone()];
                        proof {
                            assert(path.deep_view() =~= seq![k@]);
                            assert(seq![k@] + Seq::<Seq<char>>::empty() =~= seq![k@]);
                        }
                        return Err(GenError::InvalidValueKind { path });
                    },
                }
            },
        }
        i += 1;
        proof {
            assert(fv.skip(i - 1).drop_first() =~= fv.skip(i as int));
        }
    }
    proof {
        assert(fv.skip(i as int) =~= Seq::<(Seq<char>, SchemaV)>::empty());
    }
    Ok(())
}

/// Checks one locale document against the schema: `Ok` exactly where
/// every value the locale supplies has the schema's shape at its path.
pub fn validate(schema: &SchemaNode, locale: &RawMapping) -> (r: Result<(), GenError>)
    ensures
        match r {
            Ok(_) => validate_node(
                schema_view(*schema),
                RawVal::Nested(entries_view(locale.entries@)),
            ) is None,
            Err(e) => validate_node(
                schema_view(*schema),
                RawVal::Nested(entries_view(locale.entries@)),
            ) == Some(err_view(e)),
        },
{
    match schema {
        SchemaNode::Leaf => {
            let path: Vec<String> = Vec::new();
            proof {
                assert(path.deep_view() =~= Seq::<Seq<char>>::empty());
            }
            Err(GenError::ShapeMismatch {
                path,
                expected: ValueKind::ScalarKind,
                found: ValueKind::MappingKind,
            })
        },
        SchemaNode::Record { fields, .. } => validate_fields_exec(fields, &locale.entries),
    }
}

} // verus!
