use vstd::prelude::*;
use crate::merge::{merge_fields, merge_node};
use crate::schema::SchemaV;
use crate::order::sort_entries;
use crate::raw::{distinct_keys, get_val, wf_entries, wf_val, RawVal};
use crate::schema::{sort_val, sorted_each};
use crate::validate::{lemma_get_val_at, lemma_get_val_none, validate_fields, validate_node};

verus! {

// How a document's entry order is forgotten: `sort_val` is its
// canonical form, the same for any arrangement of the same entries at a
// mapping level (see `lemma_field_order_stable`). The lemmas here show
// that validation, merging and therefore the whole artifact depend on
// each locale document only through that canonical form.

proof fn lemma_sorted_each_index(es: Seq<(Seq<char>, RawVal)>)
    ensures
        sorted_each(es).len() == es.len(),
        forall|i: int| #![trigger sorted_each(es)[i]]
            0 <= i < es.len() ==> sorted_each(es)[i] == (es[i].0, sort_val(es[i].1)),
    decreases es,
{
    if es.len() > 0 {
        lemma_sorted_each_index(es.drop_last());
    }
}

/// `get_val` finds an entry of the sequence.
proof fn lemma_get_val_index(s: Seq<(Seq<char>, RawVal)>, k: Seq<char>)
    requires
        get_val(s, k) is Some,
    ensures
        exists|i: int|
            #![trigger s[i]]
            0 <= i < s.len() && s[i].0 == k && s[i].1 == get_val(s, k).unwrap(),
    decreases s,
{
    if s.len() > 0 && s[0].0 != k {
        lemma_get_val_index(s.drop_first(), k);
        let i = choose|i: int|
            #![trigger s.drop_first()[i]]
            0 <= i < s.drop_first().len() && s.drop_first()[i].0 == k && s.drop_first()[i].1
                == get_val(s.drop_first(), k).unwrap();
        assert(s[i + 1].1 == get_val(s, k).unwrap());
    }
}

/// Where `get_val` finds nothing, no entry has the key.
proof fn lemma_get_val_none_conv(s: Seq<(Seq<char>, RawVal)>, k: Seq<char>)
    requires
        get_val(s, k) is None,
    ensures
        forall|i: int| #![trigger s[i]] 0 <= i < s.len() ==> s[i].0 != k,
    decreases s,
{
    if s.len() > 0 {
        lemma_get_val_none_conv(s.drop_first(), k);
        assert(forall|i: int| #![trigger s[i]]
            1 <= i < s.len() ==> s[i] == s.drop_first()[i - 1]);
    }
}

/// Sorting a mapping level keeps its keys distinct.
proof fn lemma_sort_distinct(es: Seq<(Seq<char>, RawVal)>)
    requires
        distinct_keys(es),
    ensures
        distinct_keys(sort_entries(sorted_each(es))),
        forall|x: (Seq<char>, RawVal)| #[trigger] sort_entries(sorted_each(es)).contains(x)
            <==> sorted_each(es).contains(x),
{
    broadcast use vstd::seq_lib::group_to_multiset_ensures;
    broadcast use vstd::multiset::group_multiset_axioms;

    let se = sorted_each(es);
    let t = sort_entries(se);
    lemma_sorted_each_index(es);
    assert forall|i: int, j: int|
        #![trigger se[i], se[j]]
        0 <= i < j < se.len() implies se[i].0 != se[j].0 by {
        assert(se[i].0 == es[i].0);
        assert(se[j].0 == es[j].0);
    }
    crate::order::lemma_sort_entries_props(se);
    assert forall|x: (Seq<char>, RawVal)| #[trigger] t.contains(x) <==> se.contains(x) by {
        if t.contains(x) {
            assert(t.to_multiset().count(x) > 0);
            assert(se.to_multiset().count(x) > 0);
        }
        if se.contains(x) {
            assert(se.to_multiset().count(x) > 0);
            assert(t.to_multiset().count(x) > 0);
        }
    }
    crate::order::lemma_sort_entries_distinct(se);
}

/// Looking a key up in a document and in its canonical form gives the
/// same value up to canonical form.
proof fn lemma_get_val_sorted(es: Seq<(Seq<char>, RawVal)>, k: Seq<char>)
    requires
        distinct_keys(es),
    ensures
        match get_val(es, k) {
            Some(v) => get_val(sort_entries(sorted_each(es)), k) == Some(sort_val(v)),
            None => get_val(sort_entries(sorted_each(es)), k) is None,
        },
{
    let se = sorted_each(es);
    let t = sort_entries(se);
    lemma_sorted_each_index(es);
    lemma_sort_distinct(es);
    match get_val(es, k) {
        Some(v) => {
            lemma_get_val_index(es, k);
            let i = choose|i: int|
                #![trigger es[i]]
                0 <= i < es.len() && es[i].0 == k && es[i].1 == get_val(es, k).unwrap();
            assert(se[i] == (k, sort_val(v)));
            assert(se.contains((k, sort_val(v))));
            assert(t.contains((k, sort_val(v))));
            let j = choose|j: int| 0 <= j < t.len() && t[j] == (k, sort_val(v));
            assert forall|q: int| #![trigger t[q]] 0 <= q < j implies t[q].0 != k by {}
            lemma_get_val_at(t, k, j);
        },
        None => {
            lemma_get_val_none_conv(es, k);
            assert forall|q: int| #![trigger t[q]] 0 <= q < t.len() implies t[q].0 != k by {
                assert(t.contains(t[q]));
                assert(se.contains(t[q]));
                let a = choose|a: int| 0 <= a < se.len() && se[a] == t[q];
                assert(se[a].0 == es[a].0);
            }
            lemma_get_val_none(t, k);
        },
    }
}

/// Two optional locale values agree up to canonical form.
pub open spec fn canon_eq(l1: Option<RawVal>, l2: Option<RawVal>) -> bool {
    match (l1, l2) {
        (None, None) => true,
        (Some(a), Some(b)) => wf_val(a) && wf_val(b) && sort_val(a) == sort_val(b),
        _ => false,
    }
}

/// The value found under a key is well-formed.
proof fn lemma_get_val_wf(s: Seq<(Seq<char>, RawVal)>, k: Seq<char>)
    requires
        wf_entries(s),
        get_val(s, k) is Some,
    ensures
        wf_val(get_val(s, k).unwrap()),
{
    lemma_get_val_index(s, k);
}

/// Validation sees a locale value only through its canonical form.
proof fn lemma_validate_node_stable(n: SchemaV, v1: RawVal, v2: RawVal)
    requires
        wf_val(v1),
        wf_val(v2),
        sort_val(v1) == sort_val(v2),
    ensures
        validate_node(n, v1) == validate_node(n, v2),
    decreases n,
{
    match n {
        SchemaV::Leaf => {
        },
        SchemaV::Record { fields, .. } => {
            match (v1, v2) {
                (RawVal::Nested(a), RawVal::Nested(b)) => {
                    lemma_validate_fields_stable(fields, a, b);
                },
                _ => {
                },
            }
        },
    }
}

proof fn lemma_validate_fields_stable(
    fields: Seq<(Seq<char>, SchemaV)>,
    a: Seq<(Seq<char>, RawVal)>,
    b: Seq<(Seq<char>, RawVal)>,
)
    requires
        wf_entries(a),
        wf_entries(b),
        sort_entries(sorted_each(a)) == sort_entries(sorted_each(b)),
    ensures
        validate_fields(fields, a) == validate_fields(fields, b),
    decreases fields,
{
    if fields.len() > 0 {
        let k = fields[0].0;
        lemma_get_val_sorted(a, k);
        lemma_get_val_sorted(b, k);
        match (get_val(a, k), get_val(b, k)) {
            (Some(va), Some(vb)) => {
                lemma_get_val_wf(a, k);
                lemma_get_val_wf(b, k);
                lemma_validate_node_stable(fields[0].1, va, vb);
            },
            _ => {
            },
        }
        lemma_validate_fields_stable(fields.drop_first(), a, b);
    }
}

/// The merge sees a locale value only through its canonical form.
pub proof fn lemma_merge_node_stable(n: SchemaV, d: RawVal, l1: Option<RawVal>, l2: Option<RawVal>)
    requires
        canon_eq(l1, l2),
    ensures
        merge_node(n, d, l1) == merge_node(n, d, l2),
    decreases n,
{
    match n {
        SchemaV::Leaf => {
        },
        SchemaV::Record { fields, .. } => {
            let des = match d {
                RawVal::Nested(es) => es,
                _ => Seq::empty(),
            };
            match (l1, l2) {
                (Some(RawVal::Nested(a)), Some(RawVal::Nested(b))) => {
                    lemma_merge_fields_stable(fields, des, a, b);
                },
                _ => {
                },
            }
        },
    }
}

proof fn lemma_merge_fields_stable(
    fields: Seq<(Seq<char>, SchemaV)>,
    des: Seq<(Seq<char>, RawVal)>,
    a: Seq<(Seq<char>, RawVal)>,
    b: Seq<(Seq<char>, RawVal)>,
)
    requires
        wf_entries(a),
        wf_entries(b),
        sort_entries(sorted_each(a)) == sort_entries(sorted_each(b)),
    ensures
        merge_fields(fields, des, Some(a)) == merge_fields(fields, des, Some(b)),
    decreases fields,
{
    if fields.len() > 0 {
        let k = fields[0].0;
        lemma_get_val_sorted(a, k);
        lemma_get_val_sorted(b, k);
        let dv = if des.len() > 0 {
            des[0].1
        } else {
            RawVal::Other
        };
        match (get_val(a, k), get_val(b, k)) {
            (Some(va), Some(vb)) => {
                lemma_get_val_wf(a, k);
                lemma_get_val_wf(b, k);
                lemma_merge_node_stable(fields[0].1, dv, Some(va), Some(vb));
            },
            _ => {
            },
        }
        let des2 = if des.len() > 0 {
            des.drop_first()
        } else {
            des
        };
        lemma_merge_fields_stable(fields.drop_first(), des2, a, b);
    }
}

/// Field-order stability for the whole generation: documents that carry
/// the same identifiers and the same canonical forms generate the same
/// outcome, error or byte-identical artifact. Together with
/// `lemma_field_order_stable`, which says that rearranging the entries
/// of a mapping level does not change its canonical order, this is why
/// permuting key order within the documents leaves the schema's field
/// order and the emitted artifact unchanged.
pub proof fn lemma_artifact_order_stable(
    ds1: Seq<(Seq<char>, Seq<(Seq<char>, RawVal)>)>,
    ds2: Seq<(Seq<char>, Seq<(Seq<char>, RawVal)>)>,
    ix: int,
)
    requires
        0 <= ix < ds1.len(),
        ds1.len() == ds2.len(),
        forall|i: int| 0 <= i < ds1.len() ==> (#[trigger] ds1[i]).0 == ds2[i].0,
        forall|i: int| 0 <= i < ds1.len() ==> wf_entries((#[trigger] ds1[i]).1) && wf_entries(
            ds2[i].1,
        ),
        forall|i: int| 0 <= i < ds1.len() ==> sort_entries(sorted_each((#[trigger] ds1[i]).1))
            == sort_entries(sorted_each(ds2[i].1)),
    ensures
        crate::gen_docs_spec(ds1, ix) == crate::gen_docs_spec(ds2, ix),
{
    let dflt1 = sort_entries(sorted_each(ds1[ix].1));
    let dflt2 = sort_entries(sorted_each(ds2[ix].1));
    assert(dflt1 == dflt2);
    match crate::schema::root_schema(dflt1) {
        Err(_) => {
        },
        Ok(n) => {
            lemma_validate_all_stable(n, ds1, ds2);
            match crate::validate_all(n, ds1) {
                Some(_) => {
                },
                None => {
                    assert(crate::trees_of(n, dflt1, ds1) =~= crate::trees_of(
                        n,
                        dflt2,
                        ds2,
                    )) by {
                        assert forall|i: int| 0 <= i < ds1.len() implies crate::trees_of(
                            n,
                            dflt1,
                            ds1,
                        )[i] == crate::trees_of(n, dflt2, ds2)[i] by {
                            lemma_merge_node_stable(
                                n,
                                RawVal::Nested(dflt1),
                                Some(RawVal::Nested(ds1[i].1)),
                                Some(RawVal::Nested(ds2[i].1)),
                            );
                            assert(sort_val(RawVal::Nested(ds1[i].1)) == sort_val(
                                RawVal::Nested(ds2[i].1),
                            ));
                        }
                    }
                },
            }
        },
    }
}

proof fn lemma_validate_all_stable(
    n: SchemaV,
    ds1: Seq<(Seq<char>, Seq<(Seq<char>, RawVal)>)>,
    ds2: Seq<(Seq<char>, Seq<(Seq<char>, RawVal)>)>,
)
    requires
        ds1.len() == ds2.len(),
        forall|i: int| 0 <= i < ds1.len() ==> wf_entries((#[trigger] ds1[i]).1) && wf_entries(
            ds2[i].1,
        ),
        forall|i: int| 0 <= i < ds1.len() ==> sort_entries(sorted_each((#[trigger] ds1[i]).1))
            == sort_entries(sorted_each(ds2[i].1)),
    ensures
        crate::validate_all(n, ds1) == crate::validate_all(n, ds2),
    decreases ds1,
{
    if ds1.len() > 0 {
        lemma_validate_node_stable(n, RawVal::Nested(ds1[0].1), RawVal::Nested(ds2[0].1));
        assert(forall|i: int| #![trigger ds1.drop_first()[i]]
            0 <= i < ds1.len() - 1 ==> ds1.drop_first()[i] == ds1[i + 1]);
        assert(forall|i: int| #![trigger ds2.drop_first()[i]]
            0 <= i < ds2.len() - 1 ==> ds2.drop_first()[i] == ds2[i + 1]);
        lemma_validate_all_stable(n, ds1.drop_first(), ds2.drop_first());
    }
}

} // verus!
