//! Whole-traversal behavior through the one-call entry points.

use jindex::path_value_sink::{
    json_lines_to_string, json_pointer_to_string, JSONPointerWriterOptions, JsonWriterOptions,
};
use jindex::value::Value;
use jindex::JindexError;

fn num(text: &str) -> Value {
    Value::Number(text.to_string())
}

fn string(text: &str) -> Value {
    Value::Str(text.to_string())
}

fn object(entries: Vec<(&str, Value)>) -> Value {
    Value::Object(entries.into_iter().map(|(k, v)| (k.to_string(), v)).collect())
}

#[test]
fn pointer_entry_point_emits_each_node_once() {
    let v = object(vec![
        ("c", Value::Array(vec![string("x"), string("y"), string("z")])),
    ]);
    let out = json_pointer_to_string(
        &v,
        JSONPointerWriterOptions { only_scalars: false, separator: "@@@" },
    )
    .unwrap();

    let mut lines: Vec<&str> = out.split('\n').filter(|line| !line.is_empty()).collect();
    assert_eq!(lines.len(), 4);
    lines.sort_unstable();
    assert_eq!(
        lines,
        vec![
            r#"/c/0@@@"x""#,
            r#"/c/1@@@"y""#,
            r#"/c/2@@@"z""#,
            r#"/c@@@["x","y","z"]"#,
        ]
    );
}

#[test]
fn pointer_entry_point_rejects_scalar_root() {
    match json_pointer_to_string(&num("42"), JSONPointerWriterOptions::default()) {
        Err(JindexError::InvalidRoot(text)) => assert_eq!(text, "42"),
        _ => panic!("a bare number must be rejected as a root"),
    }
}

#[test]
fn json_entry_point_emits_each_node_once() {
    let v = object(vec![("a", num("1")), ("b", object(vec![]))]);
    let out = json_lines_to_string(&v, JsonWriterOptions { only_scalars: false }).unwrap();

    let mut lines: Vec<&str> = out.split('\n').filter(|line| !line.is_empty()).collect();
    assert_eq!(lines.len(), 2);
    lines.sort_unstable();
    assert_eq!(
        lines,
        vec![
            r#"{"path_components":["a"],"value":1}"#,
            r#"{"path_components":["b"],"value":{}}"#,
        ]
    );
}

#[test]
fn json_entry_point_rejects_scalar_root() {
    match json_lines_to_string(&Value::Null, JsonWriterOptions::default()) {
        Err(JindexError::InvalidRoot(text)) => assert_eq!(text, "null"),
        _ => panic!("a bare null must be rejected as a root"),
    }
}

#[test]
fn sibling_order_follows_document_order() {
    let v = object(vec![("b", num("1")), ("a", num("2")), ("c", num("3"))]);
    let out =
        json_pointer_to_string(&v, JSONPointerWriterOptions { only_scalars: true, separator: ":" })
            .unwrap();
    assert_eq!(out, "/b:1\n/a:2\n/c:3\n");
}
