use i18n_gen::errors::{GenError, ValueKind};
use i18n_gen::generate;
use i18n_gen::lookup;
use i18n_gen::merge::{merge, ValueTree};
use i18n_gen::raw::{RawMapping, RawValue};
use i18n_gen::schema::{build_schema, sorted_copy_entries};
use i18n_gen::sources::{classify_sources, file_prefix};
use i18n_gen::emit::escape_str;

fn files(entries: &[(&str, &str)]) -> Vec<(String, String)> {
    entries.iter().map(|(n, c)| (n.to_string(), c.to_string())).collect()
}

fn mapping(entries: Vec<(&str, RawValue)>) -> RawMapping {
    RawMapping { entries: entries.into_iter().map(|(k, v)| (k.to_string(), v)).collect() }
}

fn scalar(s: &str) -> RawValue {
    RawValue::Scalar(s.to_string())
}

fn leaf_text(t: &ValueTree, key: &str) -> String {
    match t {
        ValueTree::Record(fs) => {
            for (k, v) in fs {
                if k == key {
                    match v {
                        ValueTree::Leaf(s) => return s.clone(),
                        ValueTree::Record(_) => panic!("record where leaf expected"),
                    }
                }
            }
            panic!("key not found: {}", key)
        }
        ValueTree::Leaf(_) => panic!("leaf at root"),
    }
}

fn subtree<'a>(t: &'a ValueTree, key: &str) -> &'a ValueTree {
    match t {
        ValueTree::Record(fs) => {
            for (k, v) in fs {
                if k == key {
                    return v;
                }
            }
            panic!("key not found: {}", key)
        }
        ValueTree::Leaf(_) => panic!("leaf at root"),
    }
}

#[test]
fn override_precedence_per_locale() {
    let dflt = mapping(vec![("greeting", scalar("hi"))]);
    let sorted = RawMapping { entries: sorted_copy_entries(&dflt.entries) };
    let schema = build_schema(&sorted).expect("schema");
    let fr = mapping(vec![("greeting", scalar("salut"))]);
    let t_fr = merge(&schema, &sorted, &fr);
    assert_eq!(leaf_text(&t_fr, "greeting"), "salut");
    let en = mapping(vec![("greeting", scalar("hi"))]);
    let t_en = merge(&schema, &sorted, &en);
    assert_eq!(leaf_text(&t_en, "greeting"), "hi");
}

#[test]
fn omitted_section_falls_back_to_default() {
    let dflt = mapping(vec![("section", RawValue::Nested(mapping(vec![("a", scalar("x"))])))]);
    let sorted = RawMapping { entries: sorted_copy_entries(&dflt.entries) };
    let schema = build_schema(&sorted).expect("schema");
    let fr = mapping(vec![]);
    let t_fr = merge(&schema, &sorted, &fr);
    assert_eq!(leaf_text(subtree(&t_fr, "section"), "a"), "x");
}

#[test]
fn omitted_leaf_falls_back_to_default() {
    let dflt = mapping(vec![("bye", scalar("bye")), ("hello", scalar("hello"))]);
    let sorted = RawMapping { entries: sorted_copy_entries(&dflt.entries) };
    let schema = build_schema(&sorted).expect("schema");
    let fr = mapping(vec![("hello", scalar("bonjour"))]);
    let t_fr = merge(&schema, &sorted, &fr);
    assert_eq!(leaf_text(&t_fr, "hello"), "bonjour");
    assert_eq!(leaf_text(&t_fr, "bye"), "bye");
}

#[test]
fn shape_mismatch_is_fatal() {
    let fs = files(&[
        ("en.default.yml", "a: \"x\"\n"),
        ("fr.yml", "a:\n  nested: \"y\"\n"),
    ]);
    let r = generate(&fs);
    assert_eq!(
        r.unwrap_err(),
        GenError::ShapeMismatch {
            path: vec!["a".to_string()],
            expected: ValueKind::ScalarKind,
            found: ValueKind::MappingKind,
        }
    );
}

#[test]
fn two_defaults_are_ambiguous() {
    let fs = files(&[
        ("en.default.yml", "a: \"x\"\n"),
        ("de.default.yml", "a: \"y\"\n"),
    ]);
    assert_eq!(generate(&fs).unwrap_err(), GenError::AmbiguousDefaultLocale);
}

#[test]
fn missing_default_is_fatal() {
    let fs = files(&[("fr.yml", "a: \"x\"\n")]);
    assert_eq!(generate(&fs).unwrap_err(), GenError::NoDefaultLocale);
}

#[test]
fn lookup_unknown_tag_is_not_found() {
    let table: Vec<(String, ValueTree)> = vec![
        ("en".to_string(), ValueTree::Record(vec![])),
        ("fr".to_string(), ValueTree::Record(vec![])),
    ];
    assert_eq!(lookup(&table, "xx"), None);
    assert_eq!(lookup(&table, "en"), Some(0));
    assert_eq!(lookup(&table, "fr"), Some(1));
    assert_eq!(lookup(&table, "!!not a tag!!"), None);
}

#[test]
fn generation_is_deterministic() {
    let fs = files(&[
        ("en.default.yml", "greeting: \"hi\"\nsection:\n  a: \"x\"\n"),
        ("fr.yml", "greeting: \"salut\"\n"),
    ]);
    let a = generate(&fs).expect("first run");
    let b = generate(&fs).expect("second run");
    assert_eq!(a, b);
}

#[test]
fn key_order_does_not_change_the_artifact() {
    let one = files(&[
        ("en.default.yml", "b: \"2\"\na: \"1\"\n"),
        ("fr.yml", "a: \"un\"\nb: \"deux\"\n"),
    ]);
    let two = files(&[
        ("en.default.yml", "a: \"1\"\nb: \"2\"\n"),
        ("fr.yml", "b: \"deux\"\na: \"un\"\n"),
    ]);
    assert_eq!(generate(&one).expect("one"), generate(&two).expect("two"));
}

#[test]
fn artifact_holds_types_constructors_and_dispatch() {
    let fs = files(&[
        ("en.default.yml", "greeting: \"hi\"\nsub_menu:\n  item: \"thing\"\n"),
        ("fr.yml", "greeting: \"salut\"\n"),
    ]);
    let text = generate(&fs).expect("artifact");
    assert!(text.contains("pub struct I18n {\n    pub lang_id: &'static str,\n"));
    assert!(text.contains("pub struct SubMenu {\n    pub item: &'static str,\n}"));
    assert!(text.contains("pub fn en() -> I18n"));
    assert!(text.contains("pub fn fr() -> I18n"));
    assert!(text.contains("\"fr\" => Some(I18n::fr()),"));
    assert!(text.contains("greeting: \"salut\", "));
    assert!(text.contains("item: \"thing\", "));
    assert!(text.contains("pub fn default_locale() -> I18n {\n        I18n::en()"));
    assert!(text.contains("sub_menu: SubMenu"));
}

#[test]
fn schema_fields_are_sorted_not_insertion_ordered() {
    let fs = files(&[("en.default.yml", "zebra: \"z\"\nalpha: \"a\"\n")]);
    let text = generate(&fs).expect("artifact");
    let a = text.find("pub alpha").expect("alpha field");
    let z = text.find("pub zebra").expect("zebra field");
    assert!(a < z);
}

#[test]
fn invalid_value_kind_is_fatal() {
    let fs = files(&[("en.default.yml", "a: 5\n")]);
    assert_eq!(
        generate(&fs).unwrap_err(),
        GenError::InvalidValueKind { path: vec!["a".to_string()] }
    );
}

#[test]
fn reserved_key_conflicts() {
    let fs = files(&[("en.default.yml", "lang_id: \"x\"\n")]);
    assert_eq!(
        generate(&fs).unwrap_err(),
        GenError::ReservedKeyConflict { path: vec!["lang_id".to_string()] }
    );
}

#[test]
fn sibling_type_name_collision_is_fatal() {
    let fs = files(&[(
        "en.default.yml",
        "subMenu:\n  a: \"x\"\nsub_menu:\n  a: \"y\"\n",
    )]);
    match generate(&fs).unwrap_err() {
        GenError::TypeNameCollision { path } => assert_eq!(path.len(), 1),
        other => panic!("expected a type-name collision, got {:?}", other),
    }
}

#[test]
fn malformed_document_is_a_parse_error() {
    let fs = files(&[
        ("en.default.yml", "a: \"x\"\n"),
        ("fr.yml", ": : :\n"),
    ]);
    assert_eq!(
        generate(&fs).unwrap_err(),
        GenError::DocumentParseError { name: "fr.yml".to_string() }
    );
}

#[test]
fn invalid_locale_tag_is_fatal() {
    let fs = files(&[
        ("en.default.yml", "a: \"x\"\n"),
        ("1234.yml", "a: \"y\"\n"),
    ]);
    assert_eq!(
        generate(&fs).unwrap_err(),
        GenError::InvalidLocaleTag { raw: "1234".to_string() }
    );
}

#[test]
fn stray_locale_keys_are_ignored() {
    let fs = files(&[
        ("en.default.yml", "a: \"x\"\n"),
        ("fr.yml", "a: \"ex\"\nretired_key: \"old\"\n"),
    ]);
    let text = generate(&fs).expect("artifact");
    assert!(text.contains("a: \"ex\", "));
    assert!(!text.contains("retired_key"));
}

#[test]
fn non_resource_entries_are_ignored() {
    let fs = files(&[
        ("en.default.yml", "a: \"x\"\n"),
        ("notes.txt", "not a locale file"),
        ("fr.yml", "a: \"y\"\n"),
    ]);
    assert!(generate(&fs).is_ok());
}

#[test]
fn identifiers_are_normalized() {
    let names = vec!["en.default.yml".to_string(), "DE-at.yml".to_string()];
    let locs = classify_sources(&names).expect("classified");
    assert_eq!(locs.len(), 2);
    assert_eq!(locs[0].identifier, "en");
    assert!(locs[0].is_default);
    assert_eq!(locs[1].identifier, "de-AT");
    assert!(!locs[1].is_default);
}

#[test]
fn regional_tag_becomes_an_identifier() {
    let fs = files(&[
        ("en.default.yml", "a: \"x\"\n"),
        ("de-AT.yml", "a: \"y\"\n"),
    ]);
    let text = generate(&fs).expect("artifact");
    assert!(text.contains("pub fn de_AT() -> I18n"));
    assert!(text.contains("\"de-AT\" => Some(I18n::de_AT()),"));
}

#[test]
fn file_prefix_takes_text_before_first_dot() {
    assert_eq!(file_prefix("en.default.yml"), "en");
    assert_eq!(file_prefix("fr.yml"), "fr");
    assert_eq!(file_prefix("noext"), "noext");
    assert_eq!(file_prefix(".hidden"), "");
}

#[test]
fn emitted_literals_are_escaped() {
    assert_eq!(escape_str("plain"), "plain");
    assert_eq!(escape_str("say \"hi\""), "say \\\"hi\\\"");
    assert_eq!(escape_str("back\\slash"), "back\\\\slash");
}

#[test]
fn default_locale_merges_to_itself() {
    let fs = files(&[("en.default.yml", "greeting: \"hi\"\n")]);
    let text = generate(&fs).expect("artifact");
    assert!(text.contains("pub fn en() -> I18n"));
    assert!(text.contains("greeting: \"hi\", "));
}

#[test]
fn partial_section_keeps_defaults_for_missing_leaves() {
    let fs = files(&[
        (
            "en.default.yml",
            "section:\n  kept: \"from-default\"\n  replaced: \"old\"\n",
        ),
        ("fr.yml", "section:\n  replaced: \"new\"\n"),
    ]);
    let text = generate(&fs).expect("artifact");
    assert!(text.contains("pub fn fr() -> I18n"));
    assert!(text.contains("kept: \"from-default\", "));
    assert!(text.contains("replaced: \"new\", "));
}

#[test]
fn nested_override_wins_over_default() {
    let dflt = mapping(vec![(
        "section",
        RawValue::Nested(mapping(vec![("a", scalar("x"))])),
    )]);
    let sorted = RawMapping { entries: sorted_copy_entries(&dflt.entries) };
    let schema = build_schema(&sorted).expect("schema");
    let fr = mapping(vec![(
        "section",
        RawValue::Nested(mapping(vec![("a", scalar("y"))])),
    )]);
    let t_fr = merge(&schema, &sorted, &fr);
    assert_eq!(leaf_text(subtree(&t_fr, "section"), "a"), "y");
}
