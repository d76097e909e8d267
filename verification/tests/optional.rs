use serde_xml_rs::value::{Field, IntKind, Shape, Value};
use serde_xml_rs::{from_str, to_string};

fn field(name: &str, shape: Shape) -> Field {
    Field { name: name.to_string(), shape }
}

fn record(name: &str, fields: Vec<Field>) -> Shape {
    Shape::Record(name.to_string(), fields)
}

fn opt(inner: Shape) -> Shape {
    Shape::Optional(Box::new(inner))
}

fn some(value: Value) -> Value {
    Value::Present(Box::new(value))
}

fn text(s: &str) -> Value {
    Value::Text(s.to_string())
}

fn document(body: &str) -> String {
    format!(r#"<?xml version="1.0" encoding="UTF-8"?>{body}"#)
}

fn with_field(shape: Shape) -> Shape {
    record("document", vec![field("content", opt(shape))])
}

fn with_attribute() -> Shape {
    record("document", vec![field("@content", opt(Shape::Text))])
}

fn unit() -> Shape {
    Shape::Unit
}

fn unit_struct() -> Shape {
    Shape::Newtype("Unit".to_string(), Box::new(Shape::Unit))
}

#[test]
fn optional_when_deserialize() {
    for (content, value) in [
        ("<content>abc</content>", some(text("abc"))),
        ("<content></content>", Value::Absent),
        ("<content />", Value::Absent),
        ("<content> </content>", Value::Absent),
        (r#"<content a="1" />"#, some(text(""))),
        ("", Value::Absent),
    ] {
        let xml = document(&format!("<document>{content}</document>"));
        assert_eq!(from_str(&xml, &with_field(Shape::Text)).unwrap(), Value::Record(vec![value]));
    }
    for (body, value) in [
        (r#"<document content="abc" />"#, some(text("abc"))),
        (r#"<document content="" />"#, some(text(""))),
        (r#"<document />"#, Value::Absent),
    ] {
        assert_eq!(from_str(&document(body), &with_attribute()).unwrap(), Value::Record(vec![value]));
    }
    for shape in [unit, unit_struct] {
        for (body, value) in
            [("<document><content/></document>", Value::Absent), ("<document />", Value::Absent)]
        {
            assert_eq!(
                from_str(&document(body), &with_field(shape())).unwrap(),
                Value::Record(vec![value])
            );
        }
    }
}

#[test]
fn optional_when_serialize() {
    for (body, value) in [
        ("<document><content>abc</content></document>", some(text("abc"))),
        ("<document />", Value::Absent),
    ] {
        assert_eq!(
            to_string(&with_field(Shape::Text), &Value::Record(vec![value])).unwrap(),
            document(body)
        );
    }
    for (body, value) in
        [(r#"<document content="abc" />"#, some(text("abc"))), (r#"<document />"#, Value::Absent)]
    {
        assert_eq!(
            to_string(&with_attribute(), &Value::Record(vec![value])).unwrap(),
            document(body)
        );
    }
    for shape in [unit, unit_struct] {
        for (body, value) in
            [("<document><content /></document>", some(Value::Unit)), ("<document />", Value::Absent)]
        {
            assert_eq!(
                to_string(&with_field(shape()), &Value::Record(vec![value])).unwrap(),
                document(body)
            );
        }
    }
}

fn nested(shape: Shape) -> Shape {
    record("document", vec![field("content", record("Content", vec![field("@a", opt(shape))]))])
}

fn present() -> Vec<(Shape, Value, &'static str)> {
    vec![
        (Shape::Unit, Value::Unit, ""),
        (Shape::Text, text("abc"), "abc"),
        (Shape::Text, text(""), ""),
        (Shape::Integer(IntKind::U8), Value::Integer(1), "1"),
    ]
}

fn absent() -> Vec<Shape> {
    vec![Shape::Unit, Shape::Text, Shape::Integer(IntKind::U8)]
}

#[test]
fn when_serialize_some_then_attribute() {
    for (shape, value, content) in present() {
        let xml = document(&format!(r#"<document><content a="{content}" /></document>"#));
        let value = Value::Record(vec![Value::Record(vec![some(value)])]);
        assert_eq!(to_string(&nested(shape), &value).unwrap(), xml);
    }
}

#[test]
fn when_serialize_none_then_empty_no_attribute() {
    for shape in absent() {
        let value = Value::Record(vec![Value::Record(vec![Value::Absent])]);
        assert_eq!(
            to_string(&nested(shape), &value).unwrap(),
            document("<document><content /></document>")
        );
    }
}

#[test]
fn when_deserialize_attribute_then_some() {
    for (shape, value, content) in present() {
        let xml = document(&format!(r#"<document><content a="{content}" /></document>"#));
        let value = Value::Record(vec![Value::Record(vec![some(value)])]);
        assert_eq!(from_str(&xml, &nested(shape)).unwrap(), value);
    }
}

#[test]
fn when_deserialize_absent_attribute_then_none() {
    for shape in absent() {
        let value = Value::Record(vec![Value::Record(vec![Value::Absent])]);
        assert_eq!(
            from_str(&document("<document><content /></document>"), &nested(shape)).unwrap(),
            value
        );
    }
}
