use serde_xml_rs::value::{Field, IntKind, Shape, Value};
use serde_xml_rs::{from_str, to_string};

fn field(name: &str, shape: Shape) -> Field {
    Field { name: name.to_string(), shape }
}

fn record(name: &str, fields: Vec<Field>) -> Shape {
    Shape::Record(name.to_string(), fields)
}

fn text(s: &str) -> Value {
    Value::Text(s.to_string())
}

fn document(body: &str) -> String {
    format!(r#"<?xml version="1.0" encoding="UTF-8"?>{body}"#)
}

fn newtype(inner: Shape) -> Shape {
    Shape::Newtype("Content".to_string(), Box::new(inner))
}

/// The records of the tests that read and write one given document.
fn fixtures() -> Vec<(Shape, Value, &'static str)> {
    vec![
        (
            record("document", vec![field("@content", Shape::Text)]),
            Value::Record(vec![text("abc")]),
            r#"<document content="abc" />"#,
        ),
        (
            record(
                "document",
                vec![field("@a", Shape::Text), field("@b", Shape::Text), field("@c", Shape::Text)],
            ),
            Value::Record(vec![text("a"), text("b"), text("c")]),
            r#"<document a="a" b="b" c="c" />"#,
        ),
        (
            record(
                "document",
                vec![
                    field("@a", Shape::Text),
                    field("@b", Shape::Text),
                    field("c", Shape::Text),
                    field("d", Shape::Text),
                ],
            ),
            Value::Record(vec![text("a"), text("b"), text("c"), text("d")]),
            r#"<document a="a" b="b"><c>c</c><d>d</d></document>"#,
        ),
        (
            record(
                "document",
                vec![field("part", record("Part", vec![field("@content", Shape::Text)]))],
            ),
            Value::Record(vec![Value::Record(vec![text("abc")])]),
            r#"<document><part content="abc" /></document>"#,
        ),
        (
            record("document", vec![field("@content", newtype(Shape::Text))]),
            Value::Record(vec![text("abc")]),
            r#"<document content="abc" />"#,
        ),
        (
            record("document", vec![field("@content", newtype(Shape::Unit))]),
            Value::Record(vec![Value::Unit]),
            r#"<document content="" />"#,
        ),
        (
            record(
                "document",
                vec![field("@content", Shape::Tuple(vec![Shape::Text, Shape::Integer(IntKind::I32)]))],
            ),
            Value::Record(vec![Value::Sequence(vec![text("abc"), Value::Integer(123)])]),
            r#"<document content="abc 123" />"#,
        ),
        (
            record(
                "document",
                vec![field(
                    "@content",
                    newtype(Shape::Tuple(vec![Shape::Text, Shape::Integer(IntKind::I32)])),
                )],
            ),
            Value::Record(vec![Value::Sequence(vec![text("abc"), Value::Integer(123)])]),
            r#"<document content="abc 123" />"#,
        ),
    ]
}

#[test]
fn attributes_when_deserialize() {
    for (shape, value, body) in fixtures() {
        assert_eq!(from_str(&document(body), &shape).unwrap(), value);
    }
}

#[test]
fn attributes_when_serialize() {
    for (shape, value, body) in fixtures() {
        assert_eq!(to_string(&shape, &value).unwrap(), document(body));
    }
}

fn interleaved() -> Shape {
    record(
        "document",
        vec![
            field("@a", Shape::Text),
            field("b", Shape::Text),
            field("@c", Shape::Text),
            field("d", Shape::Text),
        ],
    )
}

#[test]
fn when_deserialize_ok() {
    let xml = document(r#"<document a="a" c="c"><b>b</b><d>d</d></document>"#);
    assert_eq!(
        from_str(&xml, &interleaved()).unwrap(),
        Value::Record(vec![text("a"), text("b"), text("c"), text("d")])
    );
}

#[test]
fn when_serialize_then_error() {
    let value = Value::Record(vec![text("a"), text("b"), text("c"), text("d")]);
    assert!(to_string(&interleaved(), &value).is_err());
}

/// A value of a simple kind with the text that is written for it.
fn simple(with_other_spellings: bool) -> Vec<(Shape, Value, &'static str)> {
    let mut cases = vec![
        (Shape::Unit, Value::Unit, ""),
        (Shape::Text, text("abc"), "abc"),
        (Shape::Char, Value::Char('a'), "a"),
        (Shape::Bool, Value::Bool(true), "true"),
        (Shape::Bool, Value::Bool(false), "false"),
        (Shape::Integer(IntKind::U8), Value::Integer(1), "1"),
        (Shape::Integer(IntKind::I32), Value::Integer(1), "1"),
    ];
    if with_other_spellings {
        cases.push((Shape::Bool, Value::Bool(true), "1"));
        cases.push((Shape::Bool, Value::Bool(false), "0"));
    }
    cases
}

#[test]
fn attributes_when_serialize_then_ok() {
    for (shape, value, content) in simple(false) {
        let shape = record("document", vec![field("@content", shape)]);
        let xml = document(&format!(r#"<document content="{content}" />"#));
        assert_eq!(to_string(&shape, &Value::Record(vec![value])).unwrap(), xml);
    }
    for (shape, value, content) in simple(false) {
        let shape =
            record("document", vec![field("content", record("Content", vec![field("@a", shape)]))]);
        let xml = document(&format!(r#"<document><content a="{content}" /></document>"#));
        let value = Value::Record(vec![Value::Record(vec![value])]);
        assert_eq!(to_string(&shape, &value).unwrap(), xml);
    }
}

#[test]
fn attributes_when_deserialize_then_ok() {
    for (shape, value, content) in simple(true) {
        let shape = record("document", vec![field("@content", shape)]);
        let xml = document(&format!(r#"<document content="{content}" />"#));
        assert_eq!(from_str(&xml, &shape).unwrap(), Value::Record(vec![value]));
    }
    for (shape, value, content) in simple(true) {
        let shape =
            record("document", vec![field("content", record("Content", vec![field("@a", shape)]))]);
        let xml = document(&format!(r#"<document><content a="{content}" /></document>"#));
        let value = Value::Record(vec![Value::Record(vec![value])]);
        assert_eq!(from_str(&xml, &shape).unwrap(), value);
    }
}
