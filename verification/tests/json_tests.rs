//! Structured JSON output over whole documents.

use jindex::jindex;
use jindex::path_value_sink::{JSONWriter, JsonWriterOptions};
use jindex::value::{render_value, Value};
use std::collections::HashSet;

fn num(text: &str) -> Value {
    Value::Number(text.to_string())
}

fn string(text: &str) -> Value {
    Value::Str(text.to_string())
}

fn object(entries: Vec<(&str, Value)>) -> Value {
    Value::Object(entries.into_iter().map(|(k, v)| (k.to_string(), v)).collect())
}

fn json_lines(v: &Value, only_scalars: bool) -> HashSet<String> {
    let mut sink = JSONWriter::new(JsonWriterOptions { only_scalars });
    jindex(&mut sink, v).unwrap();
    sink.into_string()
        .split('\n')
        .filter(|line| !line.is_empty())
        .map(|line| line.to_string())
        .collect()
}

#[test]
fn lib_simple_document() {
    let v = object(vec![
        ("a", num("1")),
        ("b", num("2")),
        ("c", Value::Array(vec![string("x"), string("y"), string("z")])),
        (
            "d",
            object(vec![(
                "e",
                object(vec![(
                    "f",
                    Value::Array(vec![object(vec![]), num("9"), string("g")]),
                )]),
            )]),
        ),
    ]);

    let challenge = json_lines(&v, false);

    let expected: HashSet<String> = [
        r#"{"path_components":["a"],"value":1}"#,
        r#"{"path_components":["b"],"value":2}"#,
        r#"{"path_components":["c"],"value":["x","y","z"]}"#,
        r#"{"path_components":["d"],"value":{"e":{"f":[{},9,"g"]}}}"#,
        r#"{"path_components":["c",0],"value":"x"}"#,
        r#"{"path_components":["c",1],"value":"y"}"#,
        r#"{"path_components":["c",2],"value":"z"}"#,
        r#"{"path_components":["d","e"],"value":{"f":[{},9,"g"]}}"#,
        r#"{"path_components":["d","e","f"],"value":[{},9,"g"]}"#,
        r#"{"path_components":["d","e","f",0],"value":{}}"#,
        r#"{"path_components":["d","e","f",1],"value":9}"#,
        r#"{"path_components":["d","e","f",2],"value":"g"}"#,
    ]
    .iter()
    .map(|s| s.to_string())
    .collect();

    assert_eq!(challenge, expected);
}

#[test]
fn lib_only_terminals() {
    let v = object(vec![
        ("a", num("1")),
        ("b", num("2")),
        ("c", Value::Array(vec![string("x"), string("y"), string("z")])),
        (
            "d",
            object(vec![(
                "e",
                object(vec![(
                    "f",
                    Value::Array(vec![
                        object(vec![]),
                        num("9"),
                        string("g"),
                        Value::Array(vec![]),
                    ]),
                )]),
            )]),
        ),
    ]);

    let challenge = json_lines(&v, true);

    let expected: HashSet<String> = [
        r#"{"path_components":["a"],"value":1}"#,
        r#"{"path_components":["b"],"value":2}"#,
        r#"{"path_components":["c",0],"value":"x"}"#,
        r#"{"path_components":["c",1],"value":"y"}"#,
        r#"{"path_components":["c",2],"value":"z"}"#,
        r#"{"path_components":["d","e","f",0],"value":{}}"#,
        r#"{"path_components":["d","e","f",1],"value":9}"#,
        r#"{"path_components":["d","e","f",2],"value":"g"}"#,
        r#"{"path_components":["d","e","f",3],"value":[]}"#,
    ]
    .iter()
    .map(|s| s.to_string())
    .collect();

    assert_eq!(challenge, expected);
}

#[test]
fn keys_are_json_escaped_in_path_arrays() {
    let v = object(vec![("k\"l", num("6")), ("m\\n", num("7"))]);

    let challenge = json_lines(&v, true);

    let expected: HashSet<String> = [
        r#"{"path_components":["k\"l"],"value":6}"#,
        r#"{"path_components":["m\\n"],"value":7}"#,
    ]
    .iter()
    .map(|s| s.to_string())
    .collect();

    assert_eq!(challenge, expected);
}

#[test]
fn renders_compact_value_text() {
    let v = object(vec![
        ("t", Value::Bool(true)),
        ("f", Value::Bool(false)),
        ("z", Value::Null),
        ("s", string("a\"b")),
        ("xs", Value::Array(vec![num("1"), num("2.5"), string("c")])),
    ]);
    assert_eq!(
        render_value(&v),
        r#"{"t":true,"f":false,"z":null,"s":"a\"b","xs":[1,2.5,"c"]}"#
    );
    assert_eq!(render_value(&Value::Array(vec![])), "[]");
    assert_eq!(render_value(&object(vec![])), "{}");
    assert_eq!(render_value(&Value::Null), "null");
}
