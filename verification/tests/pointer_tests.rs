//! JSON Pointer output over whole documents.

use jindex::jindex;
use jindex::path_value_sink::{JSONPointerWriter, JSONPointerWriterOptions};
use jindex::escape::pointer_escape;
use jindex::value::Value;
use std::collections::HashSet;

fn num(text: &str) -> Value {
    Value::Number(text.to_string())
}

fn string(text: &str) -> Value {
    Value::Str(text.to_string())
}

fn object(entries: Vec<(&str, Value)>) -> Value {
    Value::Object(entries.into_iter().map(|(k, v)| (k.to_string(), v)).collect())
}

fn pointer_lines(v: &Value, only_scalars: bool, separator: &str) -> Vec<String> {
    let mut sink = JSONPointerWriter::new(JSONPointerWriterOptions { only_scalars, separator });
    jindex(&mut sink, v).unwrap();
    sink.into_string()
        .split('\n')
        .filter(|line| !line.is_empty())
        .map(|line| line.to_string())
        .collect()
}

#[test]
fn simple_document() {
    let v = object(vec![
        ("a", num("1")),
        ("b", num("2")),
        ("c", Value::Array(vec![string("x"), string("y"), string("z")])),
        (
            "d",
            object(vec![(
                "e",
                object(vec![(
                    "f",
                    Value::Array(vec![object(vec![]), num("9"), string("g")]),
                )]),
            )]),
        ),
    ]);

    let challenge: HashSet<String> = pointer_lines(&v, false, "@@@").into_iter().collect();

    let expected: HashSet<String> = [
        r#"/a@@@1"#,
        r#"/b@@@2"#,
        r#"/c@@@["x","y","z"]"#,
        r#"/d@@@{"e":{"f":[{},9,"g"]}}"#,
        r#"/c/0@@@"x""#,
        r#"/c/1@@@"y""#,
        r#"/c/2@@@"z""#,
        r#"/d/e@@@{"f":[{},9,"g"]}"#,
        r#"/d/e/f@@@[{},9,"g"]"#,
        r#"/d/e/f/0@@@{}"#,
        r#"/d/e/f/1@@@9"#,
        r#"/d/e/f/2@@@"g""#,
    ]
    .iter()
    .map(|s| s.to_string())
    .collect();

    assert_eq!(challenge, expected);
}

#[test]
fn only_terminals() {
    let v = object(vec![
        ("a", num("1")),
        ("b", num("2")),
        ("c", Value::Array(vec![string("x"), string("y"), string("z")])),
        (
            "d",
            object(vec![(
                "e",
                object(vec![(
                    "f",
                    Value::Array(vec![
                        object(vec![]),
                        num("9"),
                        string("g"),
                        Value::Array(vec![]),
                    ]),
                )]),
            )]),
        ),
    ]);

    let challenge: HashSet<String> = pointer_lines(&v, true, "@@@").into_iter().collect();

    let expected: HashSet<String> = [
        r#"/a@@@1"#,
        r#"/b@@@2"#,
        r#"/c/0@@@"x""#,
        r#"/c/1@@@"y""#,
        r#"/c/2@@@"z""#,
        r#"/d/e/f/0@@@{}"#,
        r#"/d/e/f/1@@@9"#,
        r#"/d/e/f/2@@@"g""#,
        r#"/d/e/f/3@@@[]"#,
    ]
    .iter()
    .map(|s| s.to_string())
    .collect();

    assert_eq!(challenge, expected);
}

/// This test exists to handle an edgecase in the RFC.
///
/// Specifically:
/// "Because the characters ~ (%x7E) and / (%x2F) have special
/// meanings in JSON Pointer, ~ needs to be encoded as ~0 and /
/// needs to be encoded as ~1 when these characters appear in a
/// reference token."
///
/// See:
/// https://datatracker.ietf.org/doc/html/rfc6901#section-3
#[test]
fn rfc_special_chars() {
    let v = object(vec![
        ("foo", Value::Array(vec![string("bar"), string("baz")])),
        ("", num("0")),
        ("a/b", num("1")),
        ("c%d", num("2")),
        ("e^f", num("3")),
        ("g|h", num("4")),
        ("i\\j", num("5")),
        ("k\"l", num("6")),
        (" ", num("7")),
        ("m~n", num("8")),
    ]);

    let expected: HashSet<String> = [
        r#"/foo@@@["bar","baz"]"#,
        r#"/foo/0@@@"bar""#,
        r#"/foo/1@@@"baz""#,
        r#"/@@@0"#,
        r#"/a~1b@@@1"#,
        r#"/c%d@@@2"#,
        r#"/e^f@@@3"#,
        r#"/g|h@@@4"#,
        r#"/i\j@@@5"#,
        r#"/k"l@@@6"#,
        r#"/ @@@7"#,
        r#"/m~0n@@@8"#,
    ]
    .iter()
    .map(|s| s.to_string())
    .collect();

    let challenge: HashSet<String> = pointer_lines(&v, false, "@@@").into_iter().collect();

    assert_eq!(challenge, expected);
}

#[test]
fn default_options_use_tab_and_scalars_only() {
    let options = JSONPointerWriterOptions::default();
    assert_eq!(options.separator, "\t");
    assert!(options.only_scalars);

    let v = object(vec![("c", Value::Array(vec![num("5")]))]);
    let mut sink = JSONPointerWriter::new(JSONPointerWriterOptions::default());
    jindex(&mut sink, &v).unwrap();
    assert_eq!(sink.into_string(), "/c/0\t5\n");
}

#[test]
fn deep_scalar_only_emission() {
    let v = object(vec![(
        "d",
        object(vec![(
            "e",
            object(vec![(
                "f",
                Value::Array(vec![object(vec![]), num("9"), string("g")]),
            )]),
        )]),
    )]);

    let challenge: HashSet<String> = pointer_lines(&v, true, "\t").into_iter().collect();

    let expected: HashSet<String> = [
        "/d/e/f/0\t{}",
        "/d/e/f/1\t9",
        "/d/e/f/2\t\"g\"",
    ]
    .iter()
    .map(|s| s.to_string())
    .collect();

    assert_eq!(challenge, expected);
}

#[test]
fn large_array_indices_render_in_decimal() {
    let elements: Vec<Value> = (0..12).map(|i| num(&i.to_string())).collect();
    let v = object(vec![("xs", Value::Array(elements))]);

    let lines = pointer_lines(&v, true, "=");
    assert!(lines.contains(&"/xs/10=10".to_string()));
    assert!(lines.contains(&"/xs/11=11".to_string()));
    assert_eq!(lines.len(), 12);
}

#[test]
fn escape_order_never_double_escapes() {
    assert_eq!(pointer_escape("m~n"), "m~0n");
    assert_eq!(pointer_escape("a/b"), "a~1b");
    assert_eq!(pointer_escape("~/"), "~0~1");
    assert_eq!(pointer_escape("~1"), "~01");
    assert_eq!(pointer_escape("plain"), "plain");
    assert_eq!(pointer_escape(""), "");
}
