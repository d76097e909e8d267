use serde_xml_rs::de::buffer::RootReader;
use serde_xml_rs::de::from_events;
use serde_xml_rs::de::reader::{Attribute, Element};
use serde_xml_rs::de::seq::SeqAccess;
use serde_xml_rs::de::source::{EventSource, RawEvent};
use serde_xml_rs::value::{Field, IntKind, Payload, Shape, Value, Variant};
use serde_xml_rs::{from_str, SerdeXml, XmlError};

fn field(name: &str, shape: Shape) -> Field {
    Field { name: name.to_string(), shape }
}

fn record(name: &str, fields: Vec<Field>) -> Shape {
    Shape::Record(name.to_string(), fields)
}

fn variant(name: &str, payload: Payload) -> Variant {
    Variant { name: name.to_string(), payload }
}

fn seq(item: Shape) -> Shape {
    Shape::Sequence(Box::new(item))
}

fn opt(inner: Shape) -> Shape {
    Shape::Optional(Box::new(inner))
}

fn i32s() -> Shape {
    Shape::Integer(IntKind::I32)
}

fn text(s: &str) -> Value {
    Value::Text(s.to_string())
}

fn texts(items: &[&str]) -> Value {
    Value::Sequence(items.iter().map(|s| text(s)).collect())
}

fn ints(items: &[i128]) -> Value {
    Value::Sequence(items.iter().map(|v| Value::Integer(*v)).collect())
}

fn overlapping() -> SerdeXml {
    SerdeXml::new().overlapping_sequences(true)
}

fn a_and_b() -> Shape {
    record("doc", vec![field("a", seq(i32s())), field("b", Shape::Text)])
}

#[test]
fn contiguous_sequence_stops_at_the_first_other_sibling() {
    let xml = "<doc><a>1</a><a>2</a><b>x</b><a>3</a></doc>";
    match from_str(xml, &a_and_b()) {
        Err(XmlError::Custom(message)) => assert_eq!(message, "duplicate field a"),
        other => panic!("{:?}", other),
    }
    let xml = "<doc><a>1</a><a>2</a><b>x</b></doc>";
    assert_eq!(
        from_str(xml, &a_and_b()).unwrap(),
        Value::Record(vec![ints(&[1, 2]), text("x")])
    );
}

#[test]
fn overlapping_sequence_collects_behind_other_siblings() {
    let xml = "<doc><a>1</a><a>2</a><b>x</b><a>3</a></doc>";
    assert_eq!(
        overlapping().from_str(xml, &a_and_b()).unwrap(),
        Value::Record(vec![ints(&[1, 2, 3]), text("x")])
    );
}

#[test]
fn overlapping_sequences_of_two_fields() {
    let shape = record(
        "document",
        vec![field("a", seq(Shape::Text)), field("b", seq(Shape::Text)), field("c", Shape::Text)],
    );
    let xml = "
        <document>
            <a>a1</a>
            <a>a2</a>
            <b>b1</b>
            <a>a3</a>
            <c>c</c>
            <b>b2</b>
            <a>a4</a>
        </document>";
    assert_eq!(
        overlapping().from_str(xml, &shape).unwrap(),
        Value::Record(vec![texts(&["a1", "a2", "a3", "a4"]), texts(&["b1", "b2"]), text("c")])
    );
}

#[test]
fn overlapping_sequence_does_not_look_into_skipped_elements() {
    let shape = record(
        "doc",
        vec![field("a", seq(i32s())), field("b", record("b", vec![field("a", seq(i32s()))]))],
    );
    let xml = "<doc><a>1</a><b><a>7</a></b><a>2</a></doc>";
    assert_eq!(
        overlapping().from_str(xml, &shape).unwrap(),
        Value::Record(vec![ints(&[1, 2]), Value::Record(vec![ints(&[7])])])
    );
}

fn union() -> Shape {
    Shape::Union(
        "choice".to_string(),
        vec![
            variant("unit", Payload::Unit),
            variant("newtype", Payload::Newtype(Shape::Text)),
            variant("record", Payload::Record(vec![field("a", i32s())])),
            variant("tuple", Payload::Tuple(vec![i32s(), i32s()])),
        ],
    )
}

#[test]
fn tagged_union_is_dispatched_by_the_name_of_the_element() {
    assert_eq!(from_str("<choice><unit/></choice>", &union()).unwrap(), Value::Variant(0, vec![]));
    assert_eq!(
        from_str("<choice><newtype>abc</newtype></choice>", &union()).unwrap(),
        Value::Variant(1, vec![text("abc")])
    );
    assert_eq!(
        from_str("<choice><record><a>1</a></record></choice>", &union()).unwrap(),
        Value::Variant(2, vec![Value::Integer(1)])
    );
    assert_eq!(
        from_str("<choice><tuple>1 0</tuple></choice>", &union()).unwrap(),
        Value::Variant(3, vec![Value::Integer(1), Value::Integer(0)])
    );
}

#[test]
fn unknown_tag_is_refused() {
    match from_str("<choice><other/></choice>", &union()) {
        Err(XmlError::Unexpected { expected, but_got }) => {
            assert_eq!(expected, "variant");
            assert_eq!(but_got, "other");
        }
        other => panic!("{:?}", other),
    }
}

#[test]
fn unit_variants_are_named_by_text_too() {
    let kinds = Shape::Union(
        "kind".to_string(),
        vec![variant("a", Payload::Unit), variant("b", Payload::Unit), variant("c", Payload::Unit)],
    );
    let as_element = record("document", vec![field("content", kinds)]);
    assert_eq!(
        from_str("<document><content>b</content></document>", &as_element).unwrap(),
        Value::Record(vec![Value::Variant(1, vec![])])
    );
    let kinds = Shape::Union(
        "kind".to_string(),
        vec![variant("a", Payload::Unit), variant("b", Payload::Unit), variant("c", Payload::Unit)],
    );
    let as_attribute = record("document", vec![field("@content", kinds)]);
    assert_eq!(
        from_str(r#"<document content="c" />"#, &as_attribute).unwrap(),
        Value::Record(vec![Value::Variant(2, vec![])])
    );
}

fn header_and_content() -> Shape {
    let items = Shape::Union(
        "item".to_string(),
        vec![variant("x", Payload::Unit), variant("y", Payload::Newtype(i32s()))],
    );
    record("doc", vec![field("header", Shape::Text), field("#content", seq(items))])
}

#[test]
fn content_field_collects_what_no_field_claims() {
    let expected = Value::Record(vec![
        text("h"),
        Value::Sequence(vec![Value::Variant(0, vec![]), Value::Variant(1, vec![Value::Integer(1)])]),
    ]);
    let xml = "<doc><header>h</header><x/><y>1</y></doc>";
    assert_eq!(from_str(xml, &header_and_content()).unwrap(), expected);
    let xml = "<doc><x/><y>1</y><header>h</header></doc>";
    assert_eq!(from_str(xml, &header_and_content()).unwrap(), expected);
}

#[test]
fn content_is_offered_once() {
    let xml = "<doc><x/><header>h</header><y>1</y></doc>";
    assert_eq!(
        from_str(xml, &header_and_content()).unwrap(),
        Value::Record(vec![text("h"), Value::Sequence(vec![Value::Variant(0, vec![])])])
    );
}

#[test]
fn empty_element_for_optional_and_required_fields() {
    let shape = record("document", vec![field("content", opt(Shape::Text))]);
    assert_eq!(from_str("<document />", &shape).unwrap(), Value::Record(vec![Value::Absent]));
    assert_eq!(
        from_str("<document></document>", &shape).unwrap(),
        Value::Record(vec![Value::Absent])
    );
    assert_eq!(
        from_str("<document><content>abc</content></document>", &shape).unwrap(),
        Value::Record(vec![Value::Present(Box::new(text("abc")))])
    );
    assert_eq!(
        from_str("<document><content /></document>", &shape).unwrap(),
        Value::Record(vec![Value::Absent])
    );
    assert_eq!(
        from_str("<document><content></content></document>", &shape).unwrap(),
        Value::Record(vec![Value::Absent])
    );
    assert_eq!(
        from_str(r#"<document><content a="1"></content></document>"#, &shape).unwrap(),
        Value::Record(vec![Value::Present(Box::new(text("")))])
    );
    let shape = record("document", vec![field("content", Shape::Text)]);
    assert_eq!(
        from_str("<document><content /></document>", &shape).unwrap(),
        Value::Record(vec![text("")])
    );
    assert_eq!(
        from_str("<document><content></content></document>", &shape).unwrap(),
        Value::Record(vec![text("")])
    );
}

#[test]
fn optional_attribute() {
    let shape = record("document", vec![field("@content", opt(Shape::Text))]);
    assert_eq!(
        from_str(r#"<document content="abc" />"#, &shape).unwrap(),
        Value::Record(vec![Value::Present(Box::new(text("abc")))])
    );
    assert_eq!(
        from_str(r#"<document content="" />"#, &shape).unwrap(),
        Value::Record(vec![Value::Present(Box::new(text("")))])
    );
    assert_eq!(from_str(r#"<document />"#, &shape).unwrap(), Value::Record(vec![Value::Absent]));
}

#[test]
fn missing_sequence_is_empty_and_missing_text_is_an_error() {
    let shape = record("document", vec![field("item", seq(i32s()))]);
    assert_eq!(from_str("<document />", &shape).unwrap(), Value::Record(vec![ints(&[])]));
    let shape = record(
        "document",
        vec![field("a", Shape::Text), field("b", Shape::Text), field("c", Shape::Text)],
    );
    match from_str(r#"<document a="a" b="b" c="c" />"#, &shape) {
        Err(XmlError::Custom(message)) => assert_eq!(message, "missing field a"),
        other => panic!("{:?}", other),
    }
}

#[test]
fn ill_formed_documents_are_reader_errors() {
    let shape = record(
        "document",
        vec![field("a", Shape::Text), field("b", Shape::Text), field("c", Shape::Text)],
    );
    assert!(matches!(
        from_str("<document><a>a</a><b>b</b><c>c</c>", &shape),
        Err(XmlError::Reader(_))
    ));
    assert!(matches!(from_str("<\u{0}:/", &shape), Err(XmlError::Reader(_))));
    assert!(matches!(from_str("", &shape), Err(XmlError::Reader(_))));
}

#[test]
fn attributes_text_and_elements_of_one_record() {
    let shape = record(
        "event",
        vec![
            field("@type", Shape::Text),
            field("@count", Shape::Integer(IntKind::U8)),
            field("#text", Shape::Text),
        ],
    );
    assert_eq!(
        from_str(r#"<event count="3" type="a">an event</event>"#, &shape).unwrap(),
        Value::Record(vec![text("a"), Value::Integer(3), text("an event")])
    );
}

#[test]
fn unknown_keys_are_passed_over() {
    let shape = record("doc", vec![field("b", Shape::Text)]);
    let xml = r#"<doc x="1">text<a><b>inner</b><c/></a><b>kept</b><d/></doc>"#;
    assert_eq!(from_str(xml, &shape).unwrap(), Value::Record(vec![text("kept")]));
}

#[test]
fn prefixed_names_are_keys_with_their_prefix() {
    let shape = record("doc", vec![field("@p:x", Shape::Text), field("p:a", Shape::Text)]);
    let xml = r#"<doc xmlns:p="urn:p" p:x="1"><p:a>2</p:a></doc>"#;
    assert_eq!(from_str(xml, &shape).unwrap(), Value::Record(vec![text("1"), text("2")]));
}

#[test]
fn scalars_are_parsed_from_text() {
    let shape = record(
        "doc",
        vec![
            field("flag", Shape::Bool),
            field("small", Shape::Integer(IntKind::I8)),
            field("big", Shape::Integer(IntKind::U64)),
            field("unit", Shape::Unit),
            field("pair", Shape::Tuple(vec![i32s(), Shape::Bool])),
            field("@words", seq(Shape::Text)),
        ],
    );
    let xml = r#"<doc words="a b  c"><flag>1</flag><small>-128</small><big>18446744073709551615</big><unit/><pair>5 false</pair></doc>"#;
    assert_eq!(
        from_str(xml, &shape).unwrap(),
        Value::Record(vec![
            Value::Bool(true),
            Value::Integer(-128),
            Value::Integer(u64::MAX as i128),
            Value::Unit,
            Value::Sequence(vec![Value::Integer(5), Value::Bool(false)]),
            texts(&["a", "b", "", "c"]),
        ])
    );
}

#[test]
fn integers_out_of_their_kind_are_refused() {
    let shape = record("doc", vec![field("small", Shape::Integer(IntKind::I8))]);
    match from_str("<doc><small>128</small></doc>", &shape) {
        Err(XmlError::ParseInt(text)) => assert_eq!(text, "128"),
        other => panic!("{:?}", other),
    }
    let shape = record("doc", vec![field("n", Shape::Integer(IntKind::U16))]);
    assert!(matches!(from_str("<doc><n>-1</n></doc>", &shape), Err(XmlError::ParseInt(_))));
    let shape = record("doc", vec![field("pair", Shape::Tuple(vec![i32s(), i32s()]))]);
    match from_str("<doc><pair>1</pair></doc>", &shape) {
        Err(XmlError::Custom(message)) => assert_eq!(message, "missing tuple member"),
        other => panic!("{:?}", other),
    }
}

#[test]
fn maps_take_every_child_as_an_entry() {
    let shape = record("doc", vec![field("m", Shape::Dictionary(Box::new(i32s())))]);
    let xml = "<doc><m><a>1</a><b>2</b><a>3</a></m></doc>";
    assert_eq!(
        from_str(xml, &shape).unwrap(),
        Value::Record(vec![Value::Dictionary(vec![
            ("a".to_string(), Value::Integer(1)),
            ("b".to_string(), Value::Integer(2)),
            ("a".to_string(), Value::Integer(3)),
        ])])
    );
}

#[test]
fn the_root_must_have_a_name() {
    for (shape, what) in [
        (Shape::Bool, "bool in document root"),
        (i32s(), "integer in document root"),
        (Shape::Text, "string in document root"),
        (Shape::Unit, "unit in document root"),
        (seq(Shape::Text), "sequence in document root"),
        (Shape::Tuple(vec![i32s()]), "tuple in document root"),
        (Shape::Dictionary(Box::new(i32s())), "map in document root"),
    ] {
        match from_str("<a>1</a>", &shape) {
            Err(XmlError::Unsupported(message)) => assert_eq!(message, what),
            other => panic!("{:?}", other),
        }
    }
    let newtype = Shape::Newtype("wrapper".to_string(), Box::new(i32s()));
    assert_eq!(from_str("<wrapper>5</wrapper>", &newtype).unwrap(), Value::Integer(5));
}

#[test]
fn comments_instructions_and_doctype_are_passed_over() {
    let shape = record("doc", vec![field("a", Shape::Text)]);
    let xml = r#"<?xml version="1.0"?><!DOCTYPE doc><!-- c --><doc><?pi x?><a>te<!-- c -->xt</a><!-- c --></doc>"#;
    assert_eq!(from_str(xml, &shape).unwrap(), Value::Record(vec![text("text")]));
}

#[test]
fn records_in_text_are_unsupported() {
    let shape = record("doc", vec![field("@a", record("inner", vec![]))]);
    match from_str(r#"<doc a="x"/>"#, &shape) {
        Err(XmlError::Unsupported(message)) => assert_eq!(message, "struct in text"),
        other => panic!("{:?}", other),
    }
    let shape = record("doc", vec![field("@a", Shape::Dictionary(Box::new(i32s())))]);
    match from_str(r#"<doc a="x"/>"#, &shape) {
        Err(XmlError::Unsupported(message)) => assert_eq!(message, "map in text"),
        other => panic!("{:?}", other),
    }
}

#[test]
fn an_element_in_place_of_text_is_unexpected() {
    let shape = record("doc", vec![field("a", i32s())]);
    match from_str("<doc><a><b/></a></doc>", &shape) {
        Err(XmlError::Unexpected { expected, but_got }) => {
            assert_eq!(expected, "text");
            assert_eq!(but_got, "start of element b [attributes]");
        }
        other => panic!("{:?}", other),
    }
}

#[test]
fn a_sequence_with_a_limit_stops_when_it_is_reached() {
    let start = |name: &str| {
        RawEvent::StartElement(Element { prefix: None, name: name.to_string(), attributes: vec![] })
    };
    let end = |name: &str| RawEvent::EndElement { prefix: None, name: name.to_string() };
    let events = vec![start("a"), end("a"), start("a"), end("a"), start("a"), end("a")];
    let mut root = RootReader::new(EventSource::replaying(events), false);
    let mut members = SeqAccess::with_max_size(root.child(), Some("a".to_string()), 2);
    for _ in 0..2 {
        let member = members.next_element(&mut root).unwrap().unwrap();
        assert_eq!(member.element_name, Some("a".to_string()));
        let mut reader = member.reader;
        reader.ignore(&mut root).unwrap();
    }
    assert!(members.next_element(&mut root).unwrap().is_none());
    assert!(members.next_element(&mut root).unwrap().is_none());
    assert_eq!(root.taken(), 4);
}

#[test]
fn events_that_were_prepared_are_read_like_a_document() {
    let events = vec![
        RawEvent::StartDocument,
        RawEvent::StartElement(Element {
            prefix: None,
            name: "doc".to_string(),
            attributes: vec![Attribute { prefix: None, name: "n".to_string(), value: "7".to_string() }],
        }),
        RawEvent::Comment,
        RawEvent::Characters("t".to_string()),
        RawEvent::EndElement { prefix: None, name: "doc".to_string() },
        RawEvent::EndDocument,
    ];
    let shape = record("doc", vec![field("@n", i32s()), field("#text", Shape::Text)]);
    assert_eq!(
        from_events(events, &shape, false).unwrap(),
        Value::Record(vec![Value::Integer(7), text("t")])
    );
}

#[test]
fn a_closing_tag_of_another_name_is_refused() {
    let events = vec![
        RawEvent::StartElement(Element { prefix: None, name: "doc".to_string(), attributes: vec![] }),
        RawEvent::EndElement { prefix: None, name: "cod".to_string() },
    ];
    match from_events(events, &record("doc", vec![]), false) {
        Err(XmlError::EndTagMismatch { expected, found }) => {
            assert_eq!(expected, "doc");
            assert_eq!(found, "cod");
        }
        other => panic!("{:?}", other),
    }
}
