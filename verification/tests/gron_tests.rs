//! Gron-style output, identifier classification, and root handling.

use jindex::jindex;
use jindex::path_value_sink::{
    gron_to_string, GronWriter, GronWriterOptions, JSONPointerWriter, JSONPointerWriterOptions,
};
use jindex::value::Value;
use jindex::ident::is_identifier;
use jindex::JindexError;
use std::collections::HashSet;

fn num(text: &str) -> Value {
    Value::Number(text.to_string())
}

fn string(text: &str) -> Value {
    Value::Str(text.to_string())
}

fn object(entries: Vec<(&str, Value)>) -> Value {
    Value::Object(entries.into_iter().map(|(k, v)| (k.to_string(), v)).collect())
}

fn gron_lines(v: &Value, only_scalars: bool) -> HashSet<String> {
    gron_to_string(v, GronWriterOptions { only_scalars })
        .unwrap()
        .split('\n')
        .filter(|line| !line.is_empty())
        .map(|line| line.to_string())
        .collect()
}

#[test]
fn flat_object_statements() {
    let v = object(vec![("a", num("1")), ("b", num("2"))]);

    let expected: HashSet<String> = ["json.a = 1;", "json.b = 2;"]
        .iter()
        .map(|s| s.to_string())
        .collect();

    assert_eq!(gron_lines(&v, false), expected);
    assert_eq!(gron_lines(&v, true), expected);
}

#[test]
fn composite_values_render_as_placeholders() {
    let v = object(vec![("c", Value::Array(vec![string("x")]))]);

    let expected: HashSet<String> = ["json.c = [];", "json.c[0] = \"x\";"]
        .iter()
        .map(|s| s.to_string())
        .collect();

    assert_eq!(gron_lines(&v, false), expected);
}

#[test]
fn non_identifier_keys_are_bracketed() {
    let v = object(vec![
        ("plain", num("1")),
        ("has space", num("2")),
        ("1starts_with_digit", num("3")),
        ("", num("4")),
        ("caf\u{e9}", num("5")),
        ("with-dash", num("6")),
    ]);

    let expected: HashSet<String> = [
        "json.plain = 1;",
        "json[\"has space\"] = 2;",
        "json[\"1starts_with_digit\"] = 3;",
        "json[\"\"] = 4;",
        "json.caf\u{e9} = 5;",
        "json[\"with-dash\"] = 6;",
    ]
    .iter()
    .map(|s| s.to_string())
    .collect();

    assert_eq!(gron_lines(&v, true), expected);
}

#[test]
fn identifier_classification_follows_xid_rule() {
    assert!(is_identifier("plain"));
    assert!(is_identifier("a1"));
    assert!(is_identifier("caf\u{e9}"));
    assert!(!is_identifier("_private"));
    assert!(!is_identifier(""));
    assert!(!is_identifier("1a"));
    assert!(!is_identifier("has space"));
    assert!(!is_identifier("with-dash"));
    assert!(!is_identifier("a.b"));
}

#[test]
fn scalars_and_empty_composites_only() {
    let v = object(vec![
        ("empty_obj", object(vec![])),
        ("empty_arr", Value::Array(vec![])),
        ("full", object(vec![("inner", num("1"))])),
    ]);

    let expected: HashSet<String> = [
        "json.empty_obj = {};",
        "json.empty_arr = [];",
        "json.full.inner = 1;",
    ]
    .iter()
    .map(|s| s.to_string())
    .collect();

    assert_eq!(gron_lines(&v, true), expected);
}

#[test]
fn nested_array_paths_use_index_brackets() {
    let v = Value::Array(vec![
        Value::Array(vec![num("1"), num("2")]),
        num("3"),
    ]);

    let expected: HashSet<String> = [
        "json[0][0] = 1;",
        "json[0][1] = 2;",
        "json[1] = 3;",
    ]
    .iter()
    .map(|s| s.to_string())
    .collect();

    assert_eq!(gron_lines(&v, true), expected);
}

#[test]
fn empty_root_emits_nothing() {
    assert_eq!(gron_lines(&object(vec![]), false), HashSet::new());
    assert_eq!(gron_lines(&Value::Array(vec![]), false), HashSet::new());
    assert_eq!(gron_lines(&object(vec![]), true), HashSet::new());
}

#[test]
fn bare_array_root_is_valid() {
    let v = Value::Array(vec![num("1"), num("2"), num("3")]);

    let expected: HashSet<String> = ["json[0] = 1;", "json[1] = 2;", "json[2] = 3;"]
        .iter()
        .map(|s| s.to_string())
        .collect();

    assert_eq!(gron_lines(&v, true), expected);
}

#[test]
fn bare_scalar_root_is_rejected() {
    match gron_to_string(&num("42"), GronWriterOptions::default()) {
        Err(JindexError::InvalidRoot(text)) => assert_eq!(text, "42"),
        _ => panic!("a bare number must be rejected as a root"),
    }

    match gron_to_string(&string("x"), GronWriterOptions::default()) {
        Err(JindexError::InvalidRoot(text)) => assert_eq!(text, "\"x\""),
        _ => panic!("a bare string must be rejected as a root"),
    }

    let mut sink = JSONPointerWriter::new(JSONPointerWriterOptions::default());
    match jindex(&mut sink, &Value::Bool(true)) {
        Err(JindexError::InvalidRoot(text)) => assert_eq!(text, "true"),
        _ => panic!("a bare bool must be rejected as a root"),
    }
    assert_eq!(sink.into_string(), "");
}

#[test]
fn default_gron_options_keep_scalars_only() {
    let options = GronWriterOptions::default();
    assert!(options.only_scalars);

    let v = object(vec![("c", Value::Array(vec![num("7")]))]);
    let mut sink = GronWriter::new(GronWriterOptions::default());
    jindex(&mut sink, &v).unwrap();
    assert_eq!(sink.into_string(), "json.c[0] = 7;\n");
}
