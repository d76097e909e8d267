use serde_xml_rs::value::{Field, IntKind, Payload, Shape, Value, Variant};
use serde_xml_rs::{from_str, to_string};

fn field(name: &str, shape: Shape) -> Field {
    Field { name: name.to_string(), shape }
}

fn record(name: &str, fields: Vec<Field>) -> Shape {
    Shape::Record(name.to_string(), fields)
}

fn variant(name: &str, payload: Payload) -> Variant {
    Variant { name: name.to_string(), payload }
}

fn text(s: &str) -> Value {
    Value::Text(s.to_string())
}

fn document(body: &str) -> String {
    format!(r#"<?xml version="1.0" encoding="UTF-8"?>{body}"#)
}

fn choice(name: &str) -> Shape {
    Shape::Union(
        name.to_string(),
        vec![
            variant("unit", Payload::Unit),
            variant("newtype", Payload::Newtype(Shape::Text)),
            variant("empty-struct", Payload::Record(vec![])),
            variant(
                "tuple",
                Payload::Tuple(vec![Shape::Integer(IntKind::I32), Shape::Integer(IntKind::I32)]),
            ),
            variant(
                "struct",
                Payload::Record(vec![field("a", Shape::Text), field("b", Shape::Integer(IntKind::I32))]),
            ),
            variant(
                "struct-with-attribute",
                Payload::Record(vec![field("@id", Shape::Integer(IntKind::I32))]),
            ),
        ],
    )
}

fn cases() -> Vec<(&'static str, Value)> {
    vec![
        ("<unit />", Value::Variant(0, vec![])),
        ("<newtype>abc</newtype>", Value::Variant(1, vec![text("abc")])),
        ("<empty-struct />", Value::Variant(2, vec![])),
        ("<tuple>1 0</tuple>", Value::Variant(3, vec![Value::Integer(1), Value::Integer(0)])),
        (
            "<struct><a>abc</a><b>123</b></struct>",
            Value::Variant(4, vec![text("abc"), Value::Integer(123)]),
        ),
        (r#"<struct-with-attribute id="123" />"#, Value::Variant(5, vec![Value::Integer(123)])),
    ]
}

fn letters() -> Shape {
    Shape::Union(
        "Content".to_string(),
        vec![variant("a", Payload::Unit), variant("b", Payload::Unit), variant("c", Payload::Unit)],
    )
}

#[test]
fn choices_when_deserialize() {
    for (content, value) in cases() {
        let xml = document(&format!("<document>{content}</document>"));
        assert_eq!(from_str(&xml, &choice("document")).unwrap(), value);
    }
    for (content, value) in cases() {
        let shape = record("document", vec![field("content", choice("Content"))]);
        let xml = document(&format!("<document><content>{content}</content></document>"));
        assert_eq!(from_str(&xml, &shape).unwrap(), Value::Record(vec![value]));
    }
    for (content, index) in [("a", 0), ("b", 1), ("c", 2)] {
        let shape = record("document", vec![field("@content", letters())]);
        let xml = document(&format!(r#"<document content="{content}" />"#));
        assert_eq!(
            from_str(&xml, &shape).unwrap(),
            Value::Record(vec![Value::Variant(index, vec![])])
        );
        let shape = record("document", vec![field("content", letters())]);
        let xml = document(&format!(r#"<document><content>{content}</content></document>"#));
        assert_eq!(
            from_str(&xml, &shape).unwrap(),
            Value::Record(vec![Value::Variant(index, vec![])])
        );
    }
}

#[test]
fn choices_when_serialize() {
    for (content, value) in cases() {
        let xml = document(&format!("<document>{content}</document>"));
        assert_eq!(to_string(&choice("document"), &value).unwrap(), xml);
    }
    for (content, value) in cases() {
        let shape = record("document", vec![field("content", choice("Content"))]);
        let xml = document(&format!("<document><content>{content}</content></document>"));
        assert_eq!(to_string(&shape, &Value::Record(vec![value])).unwrap(), xml);
    }
    for (content, index) in [("a", 0), ("b", 1), ("c", 2)] {
        let shape = record("document", vec![field("@content", letters())]);
        let xml = document(&format!(r#"<document content="{content}" />"#));
        let value = Value::Record(vec![Value::Variant(index, vec![])]);
        assert_eq!(to_string(&shape, &value).unwrap(), xml);
    }
}
