use serde_xml_rs::value::{IntKind, Shape, Value};
use serde_xml_rs::{from_str, to_string};

fn text(s: &str) -> Value {
    Value::Text(s.to_string())
}

fn opt(inner: Shape) -> Shape {
    Shape::Optional(Box::new(inner))
}

fn some(value: Value) -> Value {
    Value::Present(Box::new(value))
}

fn newtype(inner: Shape) -> Shape {
    Shape::Newtype("document".to_string(), Box::new(inner))
}

fn document(content: &str) -> String {
    format!(r#"<?xml version="1.0" encoding="UTF-8"?><document>{content}</document>"#)
}

fn written() -> Vec<(Shape, Value, &'static str)> {
    vec![
        (Shape::Text, text("abc"), "abc"),
        (Shape::Text, text(""), ""),
        (Shape::Text, text("<>&"), "&lt;&gt;&amp;"),
        (Shape::Text, text("♫"), "♫"),
        (Shape::Char, Value::Char('a'), "a"),
        (Shape::Bool, Value::Bool(true), "true"),
        (Shape::Bool, Value::Bool(false), "false"),
        (Shape::Integer(IntKind::U8), Value::Integer(1), "1"),
        (Shape::Integer(IntKind::I32), Value::Integer(1), "1"),
        (opt(Shape::Text), some(text("abc")), "abc"),
        (opt(Shape::Integer(IntKind::I32)), some(Value::Integer(1)), "1"),
    ]
}

#[test]
fn simple_datatypes_when_serialize_then_ok() {
    for (shape, value, content) in written() {
        assert_eq!(to_string(&newtype(shape), &value).unwrap(), document(content));
    }
}

#[test]
fn simple_datatypes_when_deserialize_then_ok() {
    let mut cases = written();
    cases.push((Shape::Text, text(""), "      "));
    cases.push((Shape::Bool, Value::Bool(true), "1"));
    cases.push((Shape::Bool, Value::Bool(false), "0"));
    cases.push((Shape::Text, text("This is a String"), "This is a String"));
    cases.push((Shape::Text, text("<boom/>"), "&lt;boom/&gt;"));
    cases.push((Shape::Text, text("♫"), "&#9835;"));
    cases.push((Shape::Text, text("♫"), "&#x266B;"));
    cases.push((Shape::Text, text("♫<cookies/>♫"), "♫<![CDATA[<cookies/>]]>♫"));
    cases.push((Shape::Integer(IntKind::I64), Value::Integer(-1234), " -1234 "));
    cases.push((Shape::Integer(IntKind::U64), Value::Integer(1234), " 1234 "));
    cases.push((opt(Shape::Text), some(text("42")), "42"));
    for (shape, value, content) in cases {
        assert_eq!(from_str(&document(content), &newtype(shape)).unwrap(), value);
    }
}

#[test]
fn simple_datatypes_when_deserialize_then_ko() {
    assert!(from_str(&document("verum"), &newtype(Shape::Bool)).is_err());
}

#[test]
fn when_serialize_then_ko() {
    for (shape, value) in [
        (Shape::Text, text("This is a String")),
        (Shape::Text, text("")),
        (Shape::Integer(IntKind::I64), Value::Integer(0)),
        (Shape::Integer(IntKind::U64), Value::Integer(0)),
        (Shape::Bool, Value::Bool(true)),
        (Shape::Bool, Value::Bool(false)),
        (Shape::Unit, Value::Unit),
    ] {
        assert!(to_string(&shape, &value).is_err());
    }
}

#[test]
fn given_empty_value_when_serialize_then_empty_tag() {
    let xml = r#"<?xml version="1.0" encoding="UTF-8"?><document />"#;
    assert_eq!(to_string(&newtype(Shape::Unit), &Value::Unit).unwrap(), xml);
    assert_eq!(to_string(&newtype(opt(Shape::Text)), &Value::Absent).unwrap(), xml);
}

#[test]
fn given_empty_tag_when_deserialize_then_empty_value() {
    let xml = r#"<?xml version="1.0" encoding="UTF-8"?><document />"#;
    assert_eq!(from_str(xml, &newtype(Shape::Unit)).unwrap(), Value::Unit);
    assert_eq!(from_str(xml, &newtype(opt(Shape::Text))).unwrap(), Value::Absent);
}
