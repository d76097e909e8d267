use serde_xml_rs::config::Namespaces;
use serde_xml_rs::ser::map::{FieldSlot, StructSerializer};
use serde_xml_rs::ser::writer::{emit_events, Attribute, WriteEvent, Writer};
use serde_xml_rs::value::{Field, IntKind, Payload, Shape, Value, Variant};
use serde_xml_rs::{from_str, to_string, SerdeXml, XmlError};

fn field(name: &str, shape: Shape) -> Field {
    Field { name: name.to_string(), shape }
}

fn record(name: &str, fields: Vec<Field>) -> Shape {
    Shape::Record(name.to_string(), fields)
}

fn variant(name: &str, payload: Payload) -> Variant {
    Variant { name: name.to_string(), payload }
}

fn text(s: &str) -> Value {
    Value::Text(s.to_string())
}

fn document(body: &str) -> String {
    format!(r#"<?xml version="1.0" encoding="UTF-8"?>{body}"#)
}

#[test]
fn attribute_behind_element_is_refused() {
    let shape = record("doc", vec![field("a", Shape::Text), field("@b", Shape::Text)]);
    let value = Value::Record(vec![text("1"), text("2")]);
    match to_string(&shape, &value) {
        Err(XmlError::AttributesMustComeBeforeElements { element_name, attribute_name }) => {
            assert_eq!(element_name, "doc");
            assert_eq!(attribute_name, "@b");
        }
        other => panic!("{:?}", other),
    }
    let shape = record("doc", vec![field("@b", Shape::Text), field("a", Shape::Text)]);
    let value = Value::Record(vec![text("2"), text("1")]);
    assert_eq!(to_string(&shape, &value).unwrap(), document(r#"<doc b="2"><a>1</a></doc>"#));
}

#[test]
fn events_up_to_a_refused_attribute_are_kept() {
    let shape = record("doc", vec![field("a", Shape::Text), field("@b", Shape::Text)]);
    let value = Value::Record(vec![text("1"), text("2")]);
    let (events, written) = SerdeXml::new().to_events(&shape, &value);
    assert!(matches!(written, Err(XmlError::AttributesMustComeBeforeElements { .. })));
    assert_eq!(
        events,
        vec![
            WriteEvent::StartElement { name: "doc".to_string(), attributes: vec![], namespaces: vec![] },
            WriteEvent::StartElement { name: "a".to_string(), attributes: vec![], namespaces: vec![] },
            WriteEvent::Characters("1".to_string()),
            WriteEvent::EndElement,
        ]
    );
}

#[test]
fn opening_tag_waits_for_the_attributes() {
    let shape = record(
        "doc",
        vec![
            field("@a", Shape::Integer(IntKind::I32)),
            field("@b", Shape::Optional(Box::new(Shape::Text))),
            field("@c", Shape::Bool),
            field("#text", Shape::Text),
        ],
    );
    let value = Value::Record(vec![Value::Integer(-5), Value::Absent, Value::Bool(true), text("t")]);
    let (events, written) = SerdeXml::new().to_events(&shape, &value);
    assert!(written.is_ok());
    assert_eq!(
        events,
        vec![
            WriteEvent::StartElement {
                name: "doc".to_string(),
                attributes: vec![
                    Attribute { name: "a".to_string(), value: "-5".to_string() },
                    Attribute { name: "c".to_string(), value: "true".to_string() },
                ],
                namespaces: vec![],
            },
            WriteEvent::Characters("t".to_string()),
            WriteEvent::EndElement,
        ]
    );
    assert_eq!(to_string(&shape, &value).unwrap(), document(r#"<doc a="-5" c="true">t</doc>"#));
}

#[test]
fn record_without_fields_is_an_empty_element() {
    assert_eq!(
        to_string(&record("doc", vec![]), &Value::Record(vec![])).unwrap(),
        document("<doc />")
    );
}

fn union() -> Shape {
    Shape::Union(
        "document".to_string(),
        vec![
            variant("unit", Payload::Unit),
            variant("newtype", Payload::Newtype(Shape::Text)),
            variant("empty-struct", Payload::Record(vec![])),
            variant(
                "tuple",
                Payload::Tuple(vec![Shape::Integer(IntKind::I32), Shape::Integer(IntKind::I32)]),
            ),
            variant(
                "struct",
                Payload::Record(vec![
                    field("a", Shape::Text),
                    field("b", Shape::Integer(IntKind::I32)),
                ]),
            ),
            variant(
                "struct-with-attribute",
                Payload::Record(vec![field("@id", Shape::Integer(IntKind::I32))]),
            ),
        ],
    )
}

fn choices() -> Vec<(&'static str, Value)> {
    vec![
        ("<unit />", Value::Variant(0, vec![])),
        ("<newtype>abc</newtype>", Value::Variant(1, vec![text("abc")])),
        ("<empty-struct />", Value::Variant(2, vec![])),
        ("<tuple>1 0</tuple>", Value::Variant(3, vec![Value::Integer(1), Value::Integer(0)])),
        (
            "<struct><a>abc</a><b>123</b></struct>",
            Value::Variant(4, vec![text("abc"), Value::Integer(123)]),
        ),
        (r#"<struct-with-attribute id="123" />"#, Value::Variant(5, vec![Value::Integer(123)])),
    ]
}

#[test]
fn root_choice_is_written_inside_the_element_of_its_type() {
    for (body, value) in choices() {
        let xml = document(&format!("<document>{body}</document>"));
        assert_eq!(to_string(&union(), &value).unwrap(), xml);
        assert_eq!(from_str(&xml, &union()).unwrap(), value);
    }
}

#[test]
fn child_choice_is_written_inside_the_element_of_its_field() {
    let shape = record("document", vec![field("content", union())]);
    for (body, value) in choices() {
        let xml = document(&format!("<document><content>{body}</content></document>"));
        let value = Value::Record(vec![value]);
        assert_eq!(to_string(&shape, &value).unwrap(), xml);
        assert_eq!(from_str(&xml, &shape).unwrap(), value);
    }
}

#[test]
fn unit_choice_in_an_attribute_is_its_name() {
    let kinds = Shape::Union(
        "kind".to_string(),
        vec![variant("a", Payload::Unit), variant("b", Payload::Unit)],
    );
    let shape = record("document", vec![field("@content", kinds)]);
    let value = Value::Record(vec![Value::Variant(1, vec![])]);
    let xml = document(r#"<document content="b" />"#);
    assert_eq!(to_string(&shape, &value).unwrap(), xml);
    assert_eq!(from_str(&xml, &shape).unwrap(), value);
}

#[test]
fn sequences_repeat_the_element_of_their_field() {
    let shape = record(
        "document",
        vec![field("item", Shape::Sequence(Box::new(Shape::Integer(IntKind::I32))))],
    );
    for (body, items) in [
        ("<document><item>1</item><item>2</item><item>3</item></document>", vec![1, 2, 3]),
        ("<document><item>1</item></document>", vec![1]),
        ("<document />", vec![]),
    ] {
        let value =
            Value::Record(vec![Value::Sequence(items.into_iter().map(Value::Integer).collect())]);
        assert_eq!(to_string(&shape, &value).unwrap(), document(body));
        assert_eq!(from_str(&document(body), &shape).unwrap(), value);
    }
}

#[test]
fn tuples_are_one_text_with_spaces() {
    let shape = record(
        "doc",
        vec![
            field("pair", Shape::Tuple(vec![Shape::Integer(IntKind::I32), Shape::Bool])),
            field("list", Shape::Sequence(Box::new(Shape::Optional(Box::new(Shape::Text))))),
        ],
    );
    let value = Value::Record(vec![
        Value::Sequence(vec![Value::Integer(5), Value::Bool(false)]),
        Value::Sequence(vec![]),
    ]);
    assert_eq!(to_string(&shape, &value).unwrap(), document("<doc><pair>5 false</pair></doc>"));
    let plain = record("doc", vec![field("@words", Shape::Sequence(Box::new(Shape::Optional(Box::new(Shape::Text)))))]);
    let value = Value::Record(vec![Value::Sequence(vec![
        Value::Present(Box::new(text("a"))),
        Value::Absent,
        Value::Present(Box::new(text("b"))),
    ])]);
    assert_eq!(to_string(&plain, &value).unwrap(), document(r#"<doc words="a b" />"#));
}

#[test]
fn optional_values() {
    let shape = record("document", vec![field("content", Shape::Optional(Box::new(Shape::Text)))]);
    assert_eq!(
        to_string(&shape, &Value::Record(vec![Value::Present(Box::new(text("abc")))])).unwrap(),
        document("<document><content>abc</content></document>")
    );
    assert_eq!(
        to_string(&shape, &Value::Record(vec![Value::Absent])).unwrap(),
        document("<document />")
    );
    let newtype = Shape::Newtype("wrapper".to_string(), Box::new(Shape::Optional(Box::new(Shape::Text))));
    assert_eq!(to_string(&newtype, &Value::Absent).unwrap(), document("<wrapper />"));
}

#[test]
fn content_and_text_fields() {
    let items = Shape::Union(
        "item".to_string(),
        vec![variant("x", Payload::Unit), variant("y", Payload::Newtype(Shape::Integer(IntKind::I32)))],
    );
    let shape = record(
        "doc",
        vec![field("header", Shape::Text), field("#content", Shape::Sequence(Box::new(items)))],
    );
    let value = Value::Record(vec![
        text("h"),
        Value::Sequence(vec![Value::Variant(0, vec![]), Value::Variant(1, vec![Value::Integer(1)])]),
    ]);
    let xml = document("<doc><header>h</header><x /><y>1</y></doc>");
    assert_eq!(to_string(&shape, &value).unwrap(), xml);
    assert_eq!(from_str(&xml, &shape).unwrap(), value);
}

#[test]
fn maps_are_written_entry_by_entry() {
    let shape = record("doc", vec![field("m", Shape::Dictionary(Box::new(Shape::Text)))]);
    let value = Value::Record(vec![Value::Dictionary(vec![
        ("a".to_string(), text("1")),
        ("#text".to_string(), text("t")),
        ("b".to_string(), text("2")),
    ])]);
    assert_eq!(
        to_string(&shape, &value).unwrap(),
        document("<doc><m><a>1</a>t<b>2</b></m></doc>")
    );
}

#[test]
fn namespaces_are_declared_on_the_outermost_element_only() {
    let shape = record("doc", vec![field("a", record("a", vec![field("b", Shape::Text)]))]);
    let value = Value::Record(vec![Value::Record(vec![text("t")])]);
    let config = SerdeXml::new().default_namespace("urn:d").namespace("p", "urn:p");
    let (events, written) = config.to_events(&shape, &value);
    assert!(written.is_ok());
    let declared = vec![("".to_string(), "urn:d".to_string()), ("p".to_string(), "urn:p".to_string())];
    assert_eq!(
        events[0],
        WriteEvent::StartElement { name: "doc".to_string(), attributes: vec![], namespaces: declared }
    );
    for event in &events[1..] {
        if let WriteEvent::StartElement { namespaces, .. } = event {
            assert!(namespaces.is_empty());
        }
    }
    assert_eq!(
        config.to_string(&shape, &value).unwrap(),
        document(r#"<doc xmlns="urn:d" xmlns:p="urn:p"><a><b>t</b></a></doc>"#)
    );
}

#[test]
fn text_is_escaped_by_the_emitter_and_read_back() {
    let shape = record("doc", vec![field("@a", Shape::Text), field("b", Shape::Text)]);
    let value = Value::Record(vec![text("<\"&'>"), text("1 < 2 && 3 > 2")]);
    let xml = to_string(&shape, &value).unwrap();
    assert_eq!(from_str(&xml, &shape).unwrap(), value);
}

#[test]
fn the_root_must_have_a_name_to_be_written() {
    for (shape, value, what) in [
        (Shape::Bool, Value::Bool(true), "bool in document root"),
        (Shape::Integer(IntKind::U8), Value::Integer(1), "integer in document root"),
        (Shape::Text, text("t"), "string in document root"),
        (Shape::Unit, Value::Unit, "unit in document root"),
        (Shape::Sequence(Box::new(Shape::Text)), Value::Sequence(vec![]), "sequence in document root"),
        (Shape::Tuple(vec![]), Value::Sequence(vec![]), "tuple in document root"),
        (Shape::Dictionary(Box::new(Shape::Text)), Value::Dictionary(vec![]), "map in document root"),
    ] {
        match to_string(&shape, &value) {
            Err(XmlError::Unsupported(message)) => assert_eq!(message, what),
            other => panic!("{:?}", other),
        }
    }
}

#[test]
fn a_value_that_does_not_fit_its_shape_is_refused() {
    let shape = record("doc", vec![field("a", Shape::Integer(IntKind::U8))]);
    for value in [
        Value::Record(vec![Value::Integer(256)]),
        Value::Record(vec![text("1")]),
        Value::Record(vec![]),
        Value::Unit,
    ] {
        match to_string(&shape, &value) {
            Err(XmlError::Custom(message)) => assert_eq!(message, "value does not fit shape"),
            other => panic!("{:?}", other),
        }
    }
}

#[test]
fn the_emitter_refuses_a_closing_tag_with_nothing_open() {
    let mut writer = Writer::new(Namespaces::new());
    writer.start_element("a");
    writer.end_element();
    writer.end_element();
    let events = writer.into_events();
    match emit_events(xml::EmitterConfig::new(), &events) {
        Err(error @ XmlError::Writer(_)) => assert!(error.message().starts_with("Writer: ")),
        other => panic!("{:?}", other),
    }
}

#[test]
fn the_writer_records_events_in_order() {
    let mut writer = Writer::new(Namespaces::new());
    writer.start_element_with_attributes(
        "a",
        vec![Attribute { name: "x".to_string(), value: "1".to_string() }],
    );
    writer.characters("t");
    writer.maybe_start_element(&Some("b".to_string()));
    writer.maybe_start_element(&None);
    writer.maybe_end_element(&None);
    writer.maybe_end_element(&Some("b".to_string()));
    writer.end_element();
    let events = writer.into_events();
    assert_eq!(events.len(), 5);
    assert_eq!(
        String::from_utf8(emit_events(xml::EmitterConfig::new(), &events).unwrap()).unwrap(),
        document(r#"<a x="1">t<b /></a>"#)
    );
}

#[test]
fn errors_say_what_went_wrong() {
    let shape = record("doc", vec![field("a", Shape::Text), field("@b", Shape::Text)]);
    let value = Value::Record(vec![text("1"), text("2")]);
    assert_eq!(
        to_string(&shape, &value).unwrap_err().message(),
        "In 'doc', attribute '@b' comes after at least one element. All attributes must come before any elements."
    );
    assert_eq!(
        to_string(&Shape::Text, &text("t")).unwrap_err().message(),
        "Unsupported operation string in document root"
    );
    assert_eq!(
        to_string(&record("doc", vec![]), &Value::Unit).unwrap_err().message(),
        "Custom: value does not fit shape"
    );
    let shape = record("doc", vec![field("a", Shape::Integer(IntKind::U8))]);
    assert_eq!(from_str("<doc><a>x</a></doc>", &shape).unwrap_err().message(), "Parse int: x");
    assert_eq!(
        from_str("<doc><a><b/></a></doc>", &shape).unwrap_err().message(),
        "Expected text but got start of element b [attributes]"
    );
    assert!(from_str("<doc>", &shape).unwrap_err().message().starts_with("Reader: "));
    assert_eq!(
        XmlError::EndTagMismatch { expected: "a".to_string(), found: "b".to_string() }.message(),
        "Expected end of a but got end of b"
    );
}

#[test]
fn the_table_of_namespaces_binds_each_prefix_once() {
    let mut namespaces = Namespaces::new();
    assert_eq!(namespaces.get("p"), None);
    namespaces.put("p", "urn:1");
    namespaces.put("q", "urn:2");
    namespaces.put("p", "urn:3");
    namespaces.put_default("urn:0");
    assert_eq!(namespaces.get("p"), Some(&"urn:3".to_string()));
    assert_eq!(namespaces.get("q"), Some(&"urn:2".to_string()));
    assert_eq!(namespaces.get(""), Some(&"urn:0".to_string()));
    assert_eq!(namespaces.get("r"), None);
    assert_eq!(
        namespaces.declarations(),
        vec![
            ("".to_string(), "urn:0".to_string()),
            ("p".to_string(), "urn:3".to_string()),
            ("q".to_string(), "urn:2".to_string()),
        ]
    );
}

#[test]
fn nested_records_round_trip() {
    let part = record(
        "part",
        vec![
            field("@id", Shape::Integer(IntKind::U32)),
            field("name", Shape::Text),
            field("note", Shape::Optional(Box::new(Shape::Text))),
        ],
    );
    let shape = record(
        "project",
        vec![
            field("@name", Shape::Text),
            field("part", Shape::Sequence(Box::new(part))),
            field("done", Shape::Bool),
        ],
    );
    let value = Value::Record(vec![
        text("my project"),
        Value::Sequence(vec![
            Value::Record(vec![Value::Integer(1), text("first"), Value::Absent]),
            Value::Record(vec![Value::Integer(2), text(""), Value::Present(Box::new(text("n")))]),
        ]),
        Value::Bool(false),
    ]);
    let xml = to_string(&shape, &value).unwrap();
    assert_eq!(
        xml,
        document(r#"<project name="my project"><part id="1"><name>first</name></part><part id="2"><name></name><note>n</note></part><done>false</done></project>"#)
    );
    assert_eq!(from_str(&xml, &shape).unwrap(), value);
}

#[test]
fn round_trip_with_sequences_that_may_overlap() {
    let shape = record(
        "list",
        vec![
            field("@id", Shape::Integer(IntKind::I8)),
            field("a", Shape::Sequence(Box::new(Shape::Integer(IntKind::U8)))),
            field("b", Shape::Sequence(Box::new(record("b", vec![field("a", Shape::Text)])))),
            field("#text", Shape::Optional(Box::new(Shape::Text))),
            field("c", Shape::Unit),
        ],
    );
    let value = Value::Record(vec![
        Value::Integer(-3),
        Value::Sequence(vec![Value::Integer(1), Value::Integer(2)]),
        Value::Sequence(vec![Value::Record(vec![text("x")]), Value::Record(vec![text("y")])]),
        Value::Absent,
        Value::Unit,
    ]);
    let xml = to_string(&shape, &value).unwrap();
    assert_eq!(
        xml,
        document(r#"<list id="-3"><a>1</a><a>2</a><b><a>x</a></b><b><a>y</a></b><c /></list>"#)
    );
    assert_eq!(SerdeXml::new().overlapping_sequences(true).from_str(&xml, &shape).unwrap(), value);
    assert_eq!(SerdeXml::new().overlapping_sequences(false).from_str(&xml, &shape).unwrap(), value);
}

#[test]
fn round_trip_with_unclaimed_children() {
    let choice = Shape::Union(
        "Choice".to_string(),
        vec![
            variant("x", Payload::Unit),
            variant("y", Payload::Newtype(Shape::Integer(IntKind::I32))),
            variant("z", Payload::Record(vec![field("@id", Shape::Text), field("name", Shape::Text)])),
            variant("w", Payload::Tuple(vec![Shape::Integer(IntKind::U8), Shape::Bool])),
        ],
    );
    let shape = record(
        "doc",
        vec![
            field("header", Shape::Text),
            field("item", Shape::Sequence(Box::new(Shape::Integer(IntKind::U8)))),
            field("#content", Shape::Sequence(Box::new(choice))),
        ],
    );
    let value = Value::Record(vec![
        text("h"),
        Value::Sequence(vec![Value::Integer(7)]),
        Value::Sequence(vec![
            Value::Variant(0, vec![]),
            Value::Variant(1, vec![Value::Integer(-1)]),
            Value::Variant(2, vec![text("i"), text("n")]),
            Value::Variant(3, vec![Value::Integer(2), Value::Bool(true)]),
        ]),
    ]);
    let xml = to_string(&shape, &value).unwrap();
    assert_eq!(
        xml,
        document(
            r#"<doc><header>h</header><item>7</item><x /><y>-1</y><z id="i"><name>n</name></z><w>2 true</w></doc>"#
        )
    );
    assert_eq!(from_str(&xml, &shape).unwrap(), value);
    assert_eq!(SerdeXml::new().overlapping_sequences(true).from_str(&xml, &shape).unwrap(), value);
}

#[test]
fn a_refused_attribute_writes_nothing_and_leaves_the_record_as_it_was() {
    for parent in [None, Some("outer".to_string())] {
        let mut writer = Writer::new(Namespaces::new());
        let mut fields = StructSerializer::new_variant(parent.clone(), "doc".to_string());
        assert!(matches!(
            fields.begin_field(&mut writer, "@a").unwrap(),
            FieldSlot::Attribute(name) if name == "a"
        ));
        fields.push_attribute("a".to_string(), "1".to_string());
        assert!(matches!(
            fields.begin_field(&mut writer, "child").unwrap(),
            FieldSlot::Element(name) if name == "child"
        ));
        let before = writer.into_events();
        let mut writer = Writer::new(Namespaces::new());
        match fields.begin_field(&mut writer, "@b") {
            Err(XmlError::AttributesMustComeBeforeElements { element_name, attribute_name }) => {
                assert_eq!(element_name, "doc");
                assert_eq!(attribute_name, "@b");
            }
            other => panic!("{:?}", other),
        }
        assert_eq!(writer.into_events(), vec![]);
        let mut writer = Writer::new(Namespaces::new());
        fields.end(&mut writer);
        let closing = if parent.is_some() { 2 } else { 1 };
        assert_eq!(writer.into_events(), vec![WriteEvent::EndElement; closing]);
        let opening = if parent.is_some() { 2 } else { 1 };
        assert_eq!(before.len(), opening);
        assert!(matches!(
            &before[opening - 1],
            WriteEvent::StartElement { name, attributes, .. }
                if name == "doc" && attributes == &vec![Attribute { name: "a".to_string(), value: "1".to_string() }]
        ));
    }
}
