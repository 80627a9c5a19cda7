use vstd::prelude::*;

verus! {

/// A document value as the document parser hands it over: scalar text,
/// a nested mapping, or a value of any other kind (number, boolean,
/// sequence, ...), which the generator rejects as `InvalidValueKind`.
#[derive(Debug)]
pub enum RawValue {
    Scalar(String),
    Nested(RawMapping),
    Other,
}

/// A key-ordered document mapping: the entries in the order the document
/// gives them, keys unique (see `wf_entries`).
#[derive(Debug)]
pub struct RawMapping {
    pub entries: Vec<(String, RawValue)>,
}

/// Mathematical image of a `RawValue`.
pub enum RawVal {
    Scalar(Seq<char>),
    Nested(Seq<(Seq<char>, RawVal)>),
    Other,
}

pub open spec fn raw_view(v: RawValue) -> RawVal
    decreases v,
{
    match v {
        RawValue::Scalar(s) => RawVal::Scalar(s@),
        RawValue::Nested(m) => RawVal::Nested(entries_view(m.entries@)),
        RawValue::Other => RawVal::Other,
    }
}

pub open spec fn entries_view(es: Seq<(String, RawValue)>) -> Seq<(Seq<char>, RawVal)>
    decreases es,
{
    if es.len() == 0 {
        Seq::empty()
    } else {
        entries_view(es.drop_last()).push((es.last().0@, raw_view(es.last().1)))
    }
}

/// `entries_view` is the pointwise view of the entries.
pub proof fn lemma_entries_view_index(es: Seq<(String, RawValue)>)
    ensures
        entries_view(es).len() == es.len(),
        forall|i: int| #![trigger entries_view(es)[i]]
            0 <= i < es.len() ==> entries_view(es)[i] == (es[i].0@, raw_view(es[i].1)),
    decreases es,
{
    if es.len() > 0 {
        lemma_entries_view_index(es.drop_last());
    }
}

/// Keys at one mapping level are pairwise distinct.
pub open spec fn distinct_keys(es: Seq<(Seq<char>, RawVal)>) -> bool {
    forall|i: int, j: int|
        #![trigger es[i], es[j]]
        0 <= i < j < es.len() ==> es[i].0 != es[j].0
}

/// Well-formedness of a document value: keys are unique at every level.
pub open spec fn wf_val(v: RawVal) -> bool
    decreases v,
{
    match v {
        RawVal::Scalar(_) => true,
        RawVal::Nested(es) => wf_entries(es),
        RawVal::Other => true,
    }
}

pub open spec fn wf_entries(es: Seq<(Seq<char>, RawVal)>) -> bool
    decreases es,
{
    distinct_keys(es)
        && (forall|i: int| #![trigger es[i]] 0 <= i < es.len() ==> wf_val(es[i].1))
}

/// The value at key `k`, if any. With `distinct_keys` there is at most one.
pub open spec fn get_val(es: Seq<(Seq<char>, RawVal)>, k: Seq<char>) -> Option<RawVal>
    decreases es,
{
    if es.len() == 0 {
        None
    } else if es[0].0 == k {
        Some(es[0].1)
    } else {
        get_val(es.drop_first(), k)
    }
}

} // verus!
