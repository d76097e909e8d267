use serde_xml_rs::value::{Field, IntKind, Payload, Shape, Value, Variant};
use serde_xml_rs::{from_str, to_string, SerdeXml};

fn field(name: &str, shape: Shape) -> Field {
    Field { name: name.to_string(), shape }
}

fn record(name: &str, fields: Vec<Field>) -> Shape {
    Shape::Record(name.to_string(), fields)
}

fn variant(name: &str, payload: Payload) -> Variant {
    Variant { name: name.to_string(), payload }
}

fn text(s: &str) -> Value {
    Value::Text(s.to_string())
}

fn document(body: &str) -> String {
    format!(r#"<?xml version="1.0" encoding="UTF-8"?>{body}"#)
}

fn triple() -> Shape {
    Shape::Tuple(vec![
        Shape::Integer(IntKind::I32),
        Shape::Integer(IntKind::I32),
        Shape::Integer(IntKind::I32),
    ])
}

fn coordinates() -> Value {
    Value::Sequence(vec![Value::Integer(1), Value::Integer(0), Value::Integer(-4)])
}

fn fixtures() -> Vec<(Shape, Value, &'static str)> {
    vec![
        (
            Shape::Newtype("document".to_string(), Box::new(triple())),
            coordinates(),
            "<document>1 0 -4</document>",
        ),
        (
            record("document", vec![field("coordinates", triple())]),
            Value::Record(vec![coordinates()]),
            "<document><coordinates>1 0 -4</coordinates></document>",
        ),
        (
            record(
                "document",
                vec![field(
                    "coordinates",
                    Shape::Newtype("Coordinates".to_string(), Box::new(triple())),
                )],
            ),
            Value::Record(vec![coordinates()]),
            "<document><coordinates>1 0 -4</coordinates></document>",
        ),
    ]
}

#[test]
fn tuples_when_deserialize() {
    for (shape, value, body) in fixtures() {
        assert_eq!(from_str(&document(body), &shape).unwrap(), value);
    }
}

#[test]
fn tuples_when_serialize() {
    for (shape, value, body) in fixtures() {
        assert_eq!(to_string(&shape, &value).unwrap(), document(body));
    }
}

#[test]
fn tuples_when_serialize_ko() {
    assert!(to_string(&triple(), &coordinates()).is_err());
}

fn content() -> Shape {
    Shape::Union(
        "Content".to_string(),
        vec![
            variant("unit", Payload::Unit),
            variant("newtype", Payload::Newtype(Shape::Text)),
            variant("empty-struct", Payload::Record(vec![])),
            variant(
                "struct",
                Payload::Record(vec![field("a", Shape::Text), field("b", Shape::Integer(IntKind::I32))]),
            ),
            variant(
                "struct-with-attribute",
                Payload::Record(vec![field("@id", Shape::Integer(IntKind::I32))]),
            ),
        ],
    )
}

fn choice_sequences() -> Vec<(Shape, Value, &'static str)> {
    vec![
        (
            record("document", vec![field("#content", Shape::Sequence(Box::new(content())))]),
            Value::Record(vec![Value::Sequence(vec![
                Value::Variant(0, vec![]),
                Value::Variant(1, vec![text("abc")]),
                Value::Variant(2, vec![]),
                Value::Variant(3, vec![text("abc"), Value::Integer(123)]),
                Value::Variant(4, vec![Value::Integer(123)]),
            ])]),
            r#"<document><unit /><newtype>abc</newtype><empty-struct /><struct><a>abc</a><b>123</b></struct><struct-with-attribute id="123" /></document>"#,
        ),
        (
            record(
                "document",
                vec![
                    field("header", Shape::Text),
                    field("#content", Shape::Sequence(Box::new(content()))),
                    field("footer", Shape::Text),
                ],
            ),
            Value::Record(vec![
                text("header"),
                Value::Sequence(vec![Value::Variant(0, vec![]), Value::Variant(1, vec![text("abc")])]),
                text("footer"),
            ]),
            "<document><header>header</header><unit /><newtype>abc</newtype><footer>footer</footer></document>",
        ),
    ]
}

#[test]
fn choice_sequence_when_deserialize() {
    for (shape, value, body) in choice_sequences() {
        assert_eq!(from_str(&document(body), &shape).unwrap(), value);
    }
}

#[test]
fn choice_sequence_when_serialize() {
    for (shape, value, body) in choice_sequences() {
        assert_eq!(to_string(&shape, &value).unwrap(), document(body));
    }
}

#[test]
fn choice_sequence_vec_of_struct_first_parseable() {
    let fields = Shape::Union(
        "Field".to_string(),
        vec![variant("field", Payload::Record(vec![field("@name", Shape::Text)]))],
    );
    let message = record(
        "MessageDefinition",
        vec![field("@name", Shape::Text), field("#content", Shape::Sequence(Box::new(fields)))],
    );
    let entry = record(
        "EnumerationVariant",
        vec![field("@value", Shape::Integer(IntKind::U16)), field("@name", Shape::Text)],
    );
    let enumeration = record(
        "EnumerationDefinition",
        vec![field("@name", Shape::Text), field("entry", Shape::Sequence(Box::new(entry)))],
    );
    let definition = Shape::Union(
        "Definition".to_string(),
        vec![
            variant("messageDefinition", Payload::Newtype(message)),
            variant("enumerationDefinition", Payload::Newtype(enumeration)),
        ],
    );
    let shape = record("document", vec![field("#content", Shape::Sequence(Box::new(definition)))]);
    for xml in [
        r#"
        <document>
            <enumerationDefinition name="some enum">
                <entry value="0" name="first" />
                <entry value="1" name="second" />
            </enumerationDefinition>
            <messageDefinition name="msg name">
                <field name="msg_field1" />
                <field name="msg_field2" />
                <field name="msg_field3" />
            </messageDefinition>
        </document>"#,
        r#"
        <document>
            <messageDefinition name="msg name">
                <field name="msg_field1" />
                <field name="msg_field2" />
                <field name="msg_field3" />
            </messageDefinition>
            <enumerationDefinition name="some enum">
                <entry value="0" name="first" />
                <entry value="1" name="second" />
            </enumerationDefinition>
        </document>"#,
    ] {
        assert!(from_str(xml, &shape).is_ok());
    }
}

#[test]
fn overlapping_when_deserialize() {
    let xml = r#"
        <document>
            <a>a1</a>
            <a>a2</a>
            <b>b1</b>
            <a>a3</a>
            <c>c</c>
            <b>b2</b>
            <a>a4</a>
        </document>
        "#;
    let shape = record(
        "Document",
        vec![
            field("a", Shape::Sequence(Box::new(Shape::Text))),
            field("b", Shape::Sequence(Box::new(Shape::Text))),
            field("c", Shape::Text),
        ],
    );
    let texts = |items: &[&str]| Value::Sequence(items.iter().map(|s| text(s)).collect());
    assert_eq!(
        SerdeXml::new().overlapping_sequences(true).from_str(xml, &shape).unwrap(),
        Value::Record(vec![texts(&["a1", "a2", "a3", "a4"]), texts(&["b1", "b2"]), text("c")])
    );
}
