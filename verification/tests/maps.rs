use serde_xml_rs::value::{Field, IntKind, Payload, Shape, Value, Variant};
use serde_xml_rs::{from_str, to_string};

fn field(name: &str, shape: Shape) -> Field {
    Field { name: name.to_string(), shape }
}

fn record(name: &str, fields: Vec<Field>) -> Shape {
    Shape::Record(name.to_string(), fields)
}

fn text(s: &str) -> Value {
    Value::Text(s.to_string())
}

fn document(body: &str) -> String {
    format!(r#"<?xml version="1.0" encoding="UTF-8"?>{body}"#)
}

fn numbers() -> Shape {
    Shape::Dictionary(Box::new(Shape::Integer(IntKind::I32)))
}

fn entries(pairs: &[(&str, i128)]) -> Value {
    Value::Dictionary(pairs.iter().map(|(k, v)| (k.to_string(), Value::Integer(*v))).collect())
}

fn simple() -> Vec<(&'static str, Vec<(&'static str, i128)>)> {
    vec![
        ("<a>1</a><b>2</b><c>3</c>", vec![("a", 1), ("b", 2), ("c", 3)]),
        ("<a>1</a>", vec![("a", 1)]),
        ("", vec![]),
        ("123", vec![("#text", 123)]),
    ]
}

fn part() -> Shape {
    record(
        "Part",
        vec![
            field("@id", Shape::Integer(IntKind::U32)),
            field("title", Shape::Text),
            field("body", Shape::Text),
        ],
    )
}

fn part_choice() -> Shape {
    Shape::Union(
        "Part".to_string(),
        vec![
            Variant { name: "a".to_string(), payload: Payload::Unit },
            Variant { name: "b".to_string(), payload: Payload::Newtype(Shape::Text) },
        ],
    )
}

fn of_structs() -> (Shape, Value, String) {
    (
        record("document", vec![field("parts", Shape::Dictionary(Box::new(part())))]),
        Value::Record(vec![Value::Dictionary(vec![(
            "part1".to_string(),
            Value::Record(vec![Value::Integer(1), text("Part 1"), text("body 1")]),
        )])]),
        document(r#"<document><parts><part1 id="1"><title>Part 1</title><body>body 1</body></part1></parts></document>"#),
    )
}

fn of_choices() -> (Shape, Value, String) {
    (
        record("document", vec![field("parts", Shape::Dictionary(Box::new(part_choice())))]),
        Value::Record(vec![Value::Dictionary(vec![
            ("part1".to_string(), Value::Variant(0, vec![])),
            ("part2".to_string(), Value::Variant(1, vec![text("b")])),
        ])]),
        document(r#"<document><parts><part1><a /></part1><part2><b>b</b></part2></parts></document>"#),
    )
}

#[test]
fn maps_when_deserialize() {
    for (content, pairs) in simple() {
        let shape = Shape::Newtype("document".to_string(), Box::new(numbers()));
        let xml = document(&format!("<document>{content}</document>"));
        assert_eq!(from_str(&xml, &shape).unwrap(), entries(&pairs));
    }
    for (content, pairs) in simple() {
        let shape = record("document", vec![field("items", numbers())]);
        let xml = document(&format!("<document><items>{content}</items></document>"));
        assert_eq!(from_str(&xml, &shape).unwrap(), Value::Record(vec![entries(&pairs)]));
    }
    let (shape, value, xml) = of_structs();
    assert_eq!(from_str(&xml, &shape).unwrap(), value);
    let (shape, value, xml) = of_choices();
    assert_eq!(from_str(&xml, &shape).unwrap(), value);
}

#[test]
fn maps_when_serialize() {
    let written = [
        "<document><a>1</a><b>2</b><c>3</c></document>",
        "<document><a>1</a></document>",
        "<document />",
        "<document>123</document>",
    ];
    for ((_, pairs), body) in simple().into_iter().zip(written) {
        let shape = Shape::Newtype("document".to_string(), Box::new(numbers()));
        assert_eq!(to_string(&shape, &entries(&pairs)).unwrap(), document(body));
    }
    let written = [
        "<items><a>1</a><b>2</b><c>3</c></items>",
        "<items><a>1</a></items>",
        "<items />",
        "<items>123</items>",
    ];
    for ((_, pairs), body) in simple().into_iter().zip(written) {
        let shape = record("document", vec![field("items", numbers())]);
        let xml = document(&format!("<document>{body}</document>"));
        assert_eq!(to_string(&shape, &Value::Record(vec![entries(&pairs)])).unwrap(), xml);
    }
    let (shape, value, xml) = of_structs();
    assert_eq!(to_string(&shape, &value).unwrap(), xml);
    let (shape, value, xml) = of_choices();
    assert_eq!(to_string(&shape, &value).unwrap(), xml);
}

#[test]
fn maps_when_serialize_ko() {
    for (_, pairs) in simple() {
        assert!(to_string(&numbers(), &entries(&pairs)).is_err());
    }
}
