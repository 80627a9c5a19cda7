use vstd::prelude::*;
use crate::raw::{entries_view, raw_view, wf_entries, wf_val, RawMapping, RawVal, RawValue};

verus! {

/// The Pascal-case rendering that `convert_case` gives to a string.
pub uninterp spec fn pascal_of(s: Seq<char>) -> Seq<char>;

/// Relies on convert_case's `Casing::to_case` with `Case::Pascal`: the
/// result depends on the input characters alone.
#[verifier::external_body]
pub(crate) fn to_pascal_case(s: &str) -> (r: String)
    ensures
        r@ == pascal_of(s@),
{
    convert_case::Casing::to_case(&s, convert_case::Case::Pascal)
}

/// The canonical form that unic-langid gives a locale identifier, or
/// `None` where the tag does not parse.
pub uninterp spec fn canonical_tag(s: Seq<char>) -> Option<Seq<char>>;

/// Relies on unic-langid's `LanguageIdentifier`: `from_str` accepts or
/// rejects a tag by its characters alone, and `Display` renders the
/// parsed identifier in its canonical form.
#[verifier::external_body]
pub(crate) fn normalize_tag(s: &str) -> (r: Option<String>)
    ensures
        match r {
            Some(t) => canonical_tag(s@) == Some(t@),
            None => canonical_tag(s@) is None,
        },
{
    s.parse::<unic_langid::LanguageIdentifier>().ok().map(|id| id.to_string())
}

#[verifier::external_type_specification]
#[verifier::external_body]
pub struct ExYamlValue(serde_yaml::Value);

/// Relies on serde_yaml's `Value` and `Mapping`: a mapping is backed by
/// an insertion-ordered map, so its keys are unique at every level, and
/// deserializing rejects duplicate keys. An entry whose key is not a
/// string fails the conversion.
#[verifier::external_body]
fn raw_of_value(v: serde_yaml::Value) -> (r: Option<RawValue>)
    ensures
        match r {
            Some(val) => wf_val(raw_view(val)),
            None => true,
        },
{
    Some(match v {
        serde_yaml::Value::String(s) => RawValue::Scalar(s),
        serde_yaml::Value::Mapping(m) => RawValue::Nested(RawMapping {
            entries: m.into_iter().map(|(k, v)| match k {
                serde_yaml::Value::String(ks) => Some((ks, raw_of_value(v)?)),
                _ => None,
            }).collect::<Option<Vec<_>>>()?,
        }),
        _ => RawValue::Other,
    })
}

/// What a document's text parses to: the entries of its top-level
/// mapping, or `None` where it is rejected. Parsing is a function of
/// the text alone.
pub uninterp spec fn parsed_doc(text: Seq<char>) -> Option<Seq<(Seq<char>, RawVal)>>;

/// Relies on serde_yaml's `from_str`: a document either parses as a
/// top-level mapping or is rejected, by its text alone. `None` stands
/// for every failure: malformed syntax, a duplicate or non-string key,
/// or a document whose top level is not a mapping.
#[verifier::external_body]
pub(crate) fn parse_mapping(text: &str) -> (r: Option<RawMapping>)
    ensures
        match r {
            Some(m) => parsed_doc(text@) == Some(entries_view(m.entries@)) && wf_entries(
                entries_view(m.entries@),
            ),
            None => parsed_doc(text@) is None,
        },
{
    let v: serde_yaml::Value = serde_yaml::from_str(text).ok()?;
    match raw_of_value(v)? {
        RawValue::Nested(m) => Some(m),
        _ => None,
    }
}

} // verus!
