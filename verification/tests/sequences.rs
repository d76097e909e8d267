use serde_xml_rs::value::{Field, IntKind, Shape, Value};
use serde_xml_rs::{from_str, to_string, XmlError};

fn field(name: &str, shape: Shape) -> Field {
    Field { name: name.to_string(), shape }
}

fn record(name: &str, fields: Vec<Field>) -> Shape {
    Shape::Record(name.to_string(), fields)
}

fn seq(item: Shape) -> Shape {
    Shape::Sequence(Box::new(item))
}

fn text(s: &str) -> Value {
    Value::Text(s.to_string())
}

fn ints(items: &[i128]) -> Value {
    Value::Sequence(items.iter().map(|v| Value::Integer(*v)).collect())
}

fn document(body: &str) -> String {
    format!(r#"<?xml version="1.0" encoding="UTF-8"?>{body}"#)
}

fn items(key: &str) -> Shape {
    record("document", vec![field(key, seq(Shape::Integer(IntKind::I32)))])
}

fn lists() -> Vec<Vec<i128>> {
    vec![vec![1, 2, 3], vec![1], vec![]]
}

fn fixtures() -> Vec<(Shape, Value, &'static str)> {
    vec![
        (
            record(
                "document",
                vec![field("part", seq(record("Part", vec![field("content", Shape::Text)])))],
            ),
            Value::Record(vec![Value::Sequence(vec![
                Value::Record(vec![text("part 1")]),
                Value::Record(vec![text("part 2")]),
            ])]),
            "<document><part><content>part 1</content></part><part><content>part 2</content></part></document>",
        ),
        (
            record("document", vec![field("part", seq(record("Part", vec![field("@id", Shape::Text)])))]),
            Value::Record(vec![Value::Sequence(vec![
                Value::Record(vec![text("1")]),
                Value::Record(vec![text("2")]),
            ])]),
            r#"<document><part id="1" /><part id="2" /></document>"#,
        ),
        (
            items("#text"),
            Value::Record(vec![ints(&[1, 0, 2, 30, -4])]),
            "<document>1 0 2 30 -4</document>",
        ),
    ]
}

#[test]
fn sequences_when_deserialize() {
    let elements = ["<item>1</item><item>2</item><item>3</item>", "<item>1</item>", ""];
    for (list, content) in lists().into_iter().zip(elements) {
        let xml = document(&format!("<document>{content}</document>"));
        assert_eq!(from_str(&xml, &items("item")).unwrap(), Value::Record(vec![ints(&list)]));
    }
    let attributes = ["1 2 3", "1", ""];
    for (list, content) in lists().into_iter().zip(attributes) {
        let xml = document(&format!(r#"<document items="{content}" />"#));
        assert_eq!(from_str(&xml, &items("@items")).unwrap(), Value::Record(vec![ints(&list)]));
    }
    for (shape, value, body) in fixtures() {
        assert_eq!(from_str(&document(body), &shape).unwrap(), value);
    }
}

#[test]
fn sequences_when_serialize() {
    let elements = [
        "<document><item>1</item><item>2</item><item>3</item></document>",
        "<document><item>1</item></document>",
        "<document />",
    ];
    for (list, body) in lists().into_iter().zip(elements) {
        assert_eq!(
            to_string(&items("item"), &Value::Record(vec![ints(&list)])).unwrap(),
            document(body)
        );
    }
    let attributes = ["1 2 3", "1", ""];
    for (list, content) in lists().into_iter().zip(attributes) {
        let xml = document(&format!(r#"<document items="{content}" />"#));
        assert_eq!(to_string(&items("@items"), &Value::Record(vec![ints(&list)])).unwrap(), xml);
    }
    for (shape, value, body) in fixtures() {
        assert_eq!(to_string(&shape, &value).unwrap(), document(body));
    }
}

#[test]
fn sequences_when_deserialize_then_ko() {
    let xml = "<part><content>part 1</content></part><part><content>part 2</content></part>";
    let shape = seq(record("part", vec![field("content", Shape::Text)]));
    assert!(matches!(from_str(xml, &shape), Err(XmlError::Unsupported(_))));
}
