use serde_xml_rs::value::{Field, IntKind, Payload, Shape, Value, Variant};
use serde_xml_rs::SerdeXml;

fn field(name: &str, shape: Shape) -> Field {
    Field { name: name.to_string(), shape }
}

fn record(name: &str, fields: Vec<Field>) -> Shape {
    Shape::Record(name.to_string(), fields)
}

fn text(s: &str) -> Value {
    Value::Text(s.to_string())
}

fn indented() -> SerdeXml {
    SerdeXml::new().emitter(xml::EmitterConfig::new().perform_indent(true))
}

fn with_prefix() -> SerdeXml {
    indented().namespace("d", "document")
}

fn content_choice() -> Shape {
    Shape::Union(
        "Content".to_string(),
        vec![
            Variant { name: "d:a".to_string(), payload: Payload::Unit },
            Variant { name: "d:b".to_string(), payload: Payload::Newtype(Shape::Text) },
            Variant {
                name: "d:c".to_string(),
                payload: Payload::Record(vec![field("field", Shape::Integer(IntKind::I32))]),
            },
        ],
    )
}

fn fixtures() -> Vec<(SerdeXml, Shape, Value, &'static str)> {
    vec![
        (
            indented().default_namespace("document"),
            record("document", vec![field("content", Shape::Text)]),
            Value::Record(vec![text("abc")]),
            "<?xml version=\"1.0\" encoding=\"UTF-8\"?>\n<document xmlns=\"document\">\n  <content>abc</content>\n</document>",
        ),
        (
            with_prefix(),
            record("d:document", vec![field("d:content", Shape::Text)]),
            Value::Record(vec![text("abc")]),
            "<?xml version=\"1.0\" encoding=\"UTF-8\"?>\n<d:document xmlns:d=\"document\">\n  <d:content>abc</d:content>\n</d:document>",
        ),
        (
            with_prefix(),
            record("d:document", vec![field("@d:content", Shape::Text)]),
            Value::Record(vec![text("abc")]),
            "<?xml version=\"1.0\" encoding=\"UTF-8\"?>\n<d:document xmlns:d=\"document\" d:content=\"abc\" />",
        ),
        (
            with_prefix(),
            record("d:document", vec![field("d:content", content_choice())]),
            Value::Record(vec![Value::Variant(0, vec![])]),
            "<?xml version=\"1.0\" encoding=\"UTF-8\"?>\n<d:document xmlns:d=\"document\">\n  <d:content>\n    <d:a />\n  </d:content>\n</d:document>",
        ),
    ]
}

#[test]
fn namespaces_when_deserialize() {
    for (config, shape, value, xml) in fixtures() {
        assert_eq!(config.from_str(xml, &shape).unwrap(), value);
    }
}

#[test]
fn namespaces_when_serialize() {
    for (config, shape, value, xml) in fixtures() {
        assert_eq!(config.to_string(&shape, &value).unwrap(), xml);
    }
}
