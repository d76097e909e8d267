use serde_xml_rs::de::buffer::{ChildReader, RootReader};
use serde_xml_rs::de::child::ChildDeserializer;
use serde_xml_rs::de::map::{Key, MapAccess, ValueSource};
use serde_xml_rs::de::reader::{parse_xml_bool, Attribute, Element, Event};
use serde_xml_rs::de::seq::{settle_member, MemberFate};
use serde_xml_rs::de::source::{EventSource, RawEvent};
use serde_xml_rs::XmlError;

fn start(name: &str) -> RawEvent {
    RawEvent::StartElement(Element { prefix: None, name: name.to_string(), attributes: vec![] })
}

fn text(s: &str) -> RawEvent {
    RawEvent::Characters(s.to_string())
}

fn end(name: &str) -> RawEvent {
    RawEvent::EndElement { prefix: None, name: name.to_string() }
}

fn started(name: &str) -> Event {
    Event::StartElement(Element { prefix: None, name: name.to_string(), attributes: vec![] })
}

fn siblings() -> RootReader<'static> {
    // <a>1</a><b>x</b><a>2</a>
    let events = vec![
        start("a"),
        text("1"),
        end("a"),
        start("b"),
        text("x"),
        end("b"),
        start("a"),
        text("2"),
        end("a"),
    ];
    RootReader::new(EventSource::replaying(events), true)
}

#[test]
fn source_passes_over_what_does_not_matter() {
    let mut source = EventSource::replaying(vec![
        RawEvent::StartDocument,
        RawEvent::Comment,
        RawEvent::ProcessingInstruction,
        RawEvent::Whitespace,
        start("a"),
        RawEvent::Whitespace,
        RawEvent::CData("c".to_string()),
        end("a"),
        RawEvent::EndDocument,
    ]);
    assert_eq!(source.next().unwrap(), started("a"));
    assert_eq!(source.next().unwrap(), Event::Text("c".to_string()));
    assert_eq!(source.next().unwrap(), Event::EndElement);
    assert_eq!(source.next().unwrap(), Event::Eof);
    assert_eq!(source.next().unwrap(), Event::Eof);
}

#[test]
fn peek_shows_and_next_consumes() {
    let mut root = siblings();
    let mut reader = root.child();
    assert_eq!(reader.peek(&mut root).unwrap(), &started("a"));
    assert_eq!(reader.peek(&mut root).unwrap(), &started("a"));
    assert_eq!(reader.next(&mut root).unwrap(), started("a"));
    assert_eq!(reader.next(&mut root).unwrap(), Event::Text("1".to_string()));
    assert_eq!(reader.cursor, 0);
    assert_eq!(root.taken(), 2);
}

#[test]
fn fast_forward_crosses_one_element_and_consumes_nothing() {
    let mut root = siblings();
    let mut reader = root.child();
    reader.fast_forward(&mut root).unwrap();
    assert_eq!(reader.cursor, 3);
    assert_eq!(reader.peek(&mut root).unwrap(), &started("b"));
    assert_eq!(root.taken(), 0);
    let mut front = root.child();
    assert_eq!(front.peek(&mut root).unwrap(), &started("a"));
}

#[test]
fn fast_forward_counts_nested_elements() {
    let events =
        vec![start("a"), start("a"), end("a"), text("t"), end("a"), start("b"), end("b")];
    let mut root = RootReader::new(EventSource::replaying(events), true);
    let mut reader = root.child();
    reader.fast_forward(&mut root).unwrap();
    assert_eq!(reader.cursor, 5);
    assert_eq!(reader.peek(&mut root).unwrap(), &started("b"));
}

#[test]
fn fast_forward_fails_at_the_end_of_input() {
    let mut root = RootReader::new(EventSource::replaying(vec![start("a"), text("t")]), true);
    let mut reader = root.child();
    match reader.fast_forward(&mut root) {
        Err(XmlError::Unexpected { expected, but_got }) => {
            assert_eq!(expected, "anything");
            assert_eq!(but_got, "end of input");
        }
        other => panic!("{:?}", other),
    }
    assert_eq!(reader.cursor, 0);
}

#[test]
fn fast_forward_wants_the_start_of_an_element() {
    let mut root = RootReader::new(EventSource::replaying(vec![text("t"), end("a")]), true);
    let mut reader = root.child();
    match reader.fast_forward(&mut root) {
        Err(XmlError::Unexpected { expected, but_got }) => {
            assert_eq!(expected, "start of element");
            assert_eq!(but_got, "text");
        }
        other => panic!("{:?}", other),
    }
}

#[test]
fn consumed_in_place_is_invisible_to_every_reader() {
    let mut root = siblings();
    let mut first = root.child();
    // The second reader walks over <a>1</a> and consumes <b>x</b> in place.
    let mut second = first.child();
    second.fast_forward(&mut root).unwrap();
    assert_eq!(second.next(&mut root).unwrap(), started("b"));
    assert_eq!(second.next(&mut root).unwrap(), Event::Text("x".to_string()));
    assert_eq!(second.next(&mut root).unwrap(), Event::EndElement);
    assert_eq!(second.cursor, 5);
    // The first reader sees the events that are left, in their order, where they were.
    assert_eq!(first.next(&mut root).unwrap(), started("a"));
    assert_eq!(first.next(&mut root).unwrap(), Event::Text("1".to_string()));
    assert_eq!(first.next(&mut root).unwrap(), Event::EndElement);
    assert_eq!(first.next(&mut root).unwrap(), started("a"));
    assert_eq!(first.next(&mut root).unwrap(), Event::Text("2".to_string()));
    assert_eq!(first.next(&mut root).unwrap(), Event::EndElement);
    assert_eq!(first.next(&mut root).unwrap(), Event::Eof);
}

#[test]
fn consumed_at_the_front_is_gone_for_a_later_reader() {
    let mut root = siblings();
    let mut first = root.child();
    assert_eq!(first.next(&mut root).unwrap(), started("a"));
    let mut later = root.child();
    assert_eq!(later.cursor, 0);
    assert_eq!(later.peek(&mut root).unwrap(), &Event::Text("1".to_string()));
}

#[test]
fn a_reader_behind_a_mark_consumes_in_place_and_stays() {
    let mut root = siblings();
    let mut reader = ChildReader { cursor: 3, overlapping_sequences: true };
    assert_eq!(reader.next(&mut root).unwrap(), started("b"));
    assert_eq!(reader.cursor, 3);
    assert_eq!(reader.peek(&mut root).unwrap(), &Event::Text("x".to_string()));
    assert_eq!(reader.cursor, 4);
}

#[test]
fn skip_steps_over_one_slot() {
    let mut root = siblings();
    let mut reader = root.child();
    reader.peek(&mut root).unwrap();
    reader.skip();
    assert_eq!(reader.peek(&mut root).unwrap(), &Event::Text("1".to_string()));
    assert_eq!(root.taken(), 0);
}

#[test]
fn ignore_consumes_a_whole_element() {
    let events =
        vec![start("a"), start("b"), text("t"), end("b"), end("a"), start("c"), end("c")];
    let mut root = RootReader::new(EventSource::replaying(events), false);
    let mut reader = root.child();
    reader.ignore(&mut root).unwrap();
    assert_eq!(root.taken(), 5);
    assert_eq!(reader.next(&mut root).unwrap(), started("c"));
}

#[test]
fn ignore_fails_at_the_end_of_input() {
    let mut root = RootReader::new(EventSource::replaying(vec![start("a"), text("t")]), false);
    let mut reader = root.child();
    assert!(matches!(reader.ignore(&mut root), Err(XmlError::Unexpected { .. })));
}

#[test]
fn typed_consumption_says_what_it_found() {
    let mut root = siblings();
    let mut reader = root.child();
    match reader.chars(&mut root) {
        Err(XmlError::Unexpected { expected, but_got }) => {
            assert_eq!(expected, "text");
            assert_eq!(but_got, "start of element a [attributes]");
        }
        other => panic!("{:?}", other),
    }
    assert_eq!(reader.chars(&mut root).unwrap(), "1");
    reader.end_element(&mut root).unwrap();
    assert_eq!(reader.start_element(&mut root).unwrap().name, "b");
    match reader.end_element(&mut root) {
        Err(XmlError::Unexpected { expected, but_got }) => {
            assert_eq!(expected, "end of element");
            assert_eq!(but_got, "text");
        }
        other => panic!("{:?}", other),
    }
}

#[test]
fn bool_reads_the_four_texts() {
    let events = vec![text("true"), text("0"), text("1"), text("false"), text("yes")];
    let mut root = RootReader::new(EventSource::replaying(events), false);
    let mut reader = root.child();
    assert_eq!(reader.bool(&mut root).unwrap(), true);
    assert_eq!(reader.bool(&mut root).unwrap(), false);
    assert_eq!(reader.bool(&mut root).unwrap(), true);
    assert_eq!(reader.bool(&mut root).unwrap(), false);
    match reader.bool(&mut root) {
        Err(XmlError::ParseBool(text)) => assert_eq!(text, "yes"),
        other => panic!("{:?}", other),
    }
}

#[test]
fn parse_xml_bool_takes_nothing_else() {
    assert_eq!(parse_xml_bool("true").unwrap(), true);
    assert_eq!(parse_xml_bool("1").unwrap(), true);
    assert_eq!(parse_xml_bool("false").unwrap(), false);
    assert_eq!(parse_xml_bool("0").unwrap(), false);
    assert!(matches!(parse_xml_bool(""), Err(XmlError::ParseBool(text)) if text == ""));
    assert!(matches!(parse_xml_bool("TRUE"), Err(XmlError::ParseBool(text)) if text == "TRUE"));
    assert!(matches!(parse_xml_bool(" true"), Err(XmlError::ParseBool(text)) if text == " true"));
}

#[test]
fn qualified_names_carry_their_prefix() {
    let element = Element {
        prefix: Some("p".to_string()),
        name: "a".to_string(),
        attributes: vec![
            Attribute { prefix: None, name: "x".to_string(), value: "1".to_string() },
            Attribute { prefix: Some("q".to_string()), name: "y".to_string(), value: "2".to_string() },
        ],
    };
    assert_eq!(element.qname(), "p:a");
    assert_eq!(element.attributes[0].qname(), "x");
    assert_eq!(element.attributes[1].qname(), "q:y");
    assert_eq!(element.attributes[1].describe(), "q:y=\"2\"");
    assert_eq!(element.describe(), "element p:a [attributes x=\"1\" q:y=\"2\"]");
    assert_eq!(
        Event::StartElement(element).describe(),
        "start of element p:a [attributes x=\"1\" q:y=\"2\"]"
    );
    assert_eq!(Event::Text("t".to_string()).describe(), "text");
    assert_eq!(Event::EndElement.describe(), "end of element");
    assert_eq!(Event::Eof.describe(), "end of input");
}

#[test]
fn a_closing_tag_must_carry_the_name_of_the_open_element() {
    let mut source = EventSource::replaying(vec![start("a"), start("b"), end("b"), end("c")]);
    assert_eq!(source.next().unwrap(), started("a"));
    assert_eq!(source.next().unwrap(), started("b"));
    assert_eq!(source.next().unwrap(), Event::EndElement);
    for _ in 0..2 {
        match source.next() {
            Err(XmlError::EndTagMismatch { expected, found }) => {
                assert_eq!(expected, "a");
                assert_eq!(found, "c");
            }
            other => panic!("{:?}", other),
        }
    }
}

#[test]
fn a_closing_tag_with_nothing_open_is_let_pass() {
    let mut source = EventSource::replaying(vec![end("x"), start("p:a"), end("a")]);
    assert_eq!(source.next().unwrap(), Event::EndElement);
    assert_eq!(source.next().unwrap(), started("p:a"));
    assert!(matches!(source.next(), Err(XmlError::EndTagMismatch { .. })));
}

#[test]
fn the_nth_event_is_counted_among_those_that_are_left() {
    let mut root = siblings();
    let mut reader = root.child();
    let mut other = ChildReader { cursor: 1, overlapping_sequences: true };
    assert_eq!(other.next(&mut root).unwrap(), Event::Text("1".to_string()));
    assert_eq!(reader.peek_nth(&mut root, 0).unwrap(), &started("a"));
    assert_eq!(reader.peek_nth(&mut root, 1).unwrap(), &Event::EndElement);
    assert_eq!(reader.peek_nth(&mut root, 2).unwrap(), &started("b"));
    assert_eq!(reader.cursor, 0);
    assert_eq!(reader.take_nth(&mut root, 2).unwrap(), started("b"));
    assert_eq!(reader.peek_nth(&mut root, 2).unwrap(), &Event::Text("x".to_string()));
    assert_eq!(reader.take_nth(&mut root, 0).unwrap(), started("a"));
    assert_eq!(reader.peek_nth(&mut root, 0).unwrap(), &Event::EndElement);
    assert_eq!(reader.peek_nth(&mut root, 7).unwrap(), &Event::Eof);
    assert_eq!(root.taken(), 3);
}

#[test]
fn the_owner_of_the_buffer_reads_at_the_front() {
    let mut root = siblings();
    let mut behind = ChildReader { cursor: 1, overlapping_sequences: true };
    assert_eq!(root.peek().unwrap(), &started("a"));
    assert_eq!(root.next().unwrap(), started("a"));
    // What stood at 1 stands at the front now; the reader behind it consumes in place.
    assert_eq!(behind.next(&mut root).unwrap(), Event::EndElement);
    assert_eq!(root.next().unwrap(), Event::Text("1".to_string()));
    assert_eq!(root.next().unwrap(), started("b"));
    assert!(root.overlapping_sequences());
}

#[test]
fn a_value_is_read_from_the_start_of_an_element_or_from_text() {
    // <a>1</a> and behind it the end of the parent
    let events = vec![start("a"), text("1"), end("a"), end("p")];
    let mut root = RootReader::new(EventSource::replaying(events), false);
    let mut map = MapAccess::new_map(root.child());
    assert_eq!(map.next_key(&mut root).unwrap(), Some(Key::Element("a".to_string())));
    match map.value_for(&mut root, &Key::Element("a".to_string())).unwrap() {
        ValueSource::Child(child) => {
            assert_eq!(child.element_name, Some("a".to_string()));
            assert_eq!(child.reader.cursor, 0);
        }
        other => panic!("{:?}", other),
    }
    assert_eq!(root.taken(), 0);
    let mut reader = root.child();
    reader.ignore(&mut root).unwrap();
    let before = root.taken();
    assert_eq!(map.next_key(&mut root).unwrap(), None);
    for key in [Key::Element("a".to_string()), Key::Content, Key::Text, Key::Attribute("x".to_string())] {
        match map.value_for(&mut root, &key) {
            Err(XmlError::Unexpected { expected, but_got }) => {
                assert_eq!(expected, "start of element or text");
                assert_eq!(but_got, "end of element");
            }
            other => panic!("{:?}", other),
        }
        assert_eq!(root.taken(), before);
    }
}

#[test]
fn a_value_at_the_end_of_input_is_refused() {
    let mut root = RootReader::new(EventSource::replaying(vec![]), false);
    let mut map = MapAccess::new_map(root.child());
    match map.value_for(&mut root, &Key::Text) {
        Err(XmlError::Unexpected { expected, .. }) => assert_eq!(expected, "start of element or text"),
        other => panic!("{:?}", other),
    }
    assert_eq!(root.taken(), 0);
}

#[test]
fn character_data_and_attributes_are_values_as_they_stand() {
    let events = vec![text("t"), end("p")];
    let mut root = RootReader::new(EventSource::replaying(events), false);
    let attributes =
        vec![Attribute { prefix: None, name: "x".to_string(), value: "v".to_string() }];
    let mut map = MapAccess::new_struct(root.child(), attributes, vec!["@x".to_string()]);
    assert_eq!(map.next_key(&mut root).unwrap(), Some(Key::Attribute("x".to_string())));
    assert!(matches!(
        map.value_for(&mut root, &Key::Attribute("x".to_string())).unwrap(),
        ValueSource::Plain(value) if value == "v"
    ));
    assert_eq!(root.taken(), 0);
    assert_eq!(map.next_key(&mut root).unwrap(), Some(Key::Text));
    assert!(matches!(
        map.value_for(&mut root, &Key::Text).unwrap(),
        ValueSource::Plain(value) if value == "t"
    ));
    assert_eq!(root.taken(), 1);
}

#[test]
fn an_empty_element_is_an_optional_value_that_is_absent() {
    // <a/><a x="1"/><a>t</a></p>
    let with_attribute = RawEvent::StartElement(Element {
        prefix: None,
        name: "a".to_string(),
        attributes: vec![Attribute { prefix: None, name: "x".to_string(), value: "1".to_string() }],
    });
    let events =
        vec![start("a"), end("a"), with_attribute, end("a"), start("a"), text("t"), end("a"), end("p")];
    let mut root = RootReader::new(EventSource::replaying(events), false);
    let mut child = ChildDeserializer::new_with_element_name(root.child(), "a".to_string());
    assert_eq!(child.optional(&mut root).unwrap(), false);
    assert_eq!(root.taken(), 2);
    let mut child = ChildDeserializer::new_with_element_name(root.child(), "a".to_string());
    assert_eq!(child.optional(&mut root).unwrap(), true);
    assert_eq!(root.taken(), 2);
    let mut reader = root.child();
    reader.ignore(&mut root).unwrap();
    let mut child = ChildDeserializer::new_with_element_name(root.child(), "a".to_string());
    assert_eq!(child.optional(&mut root).unwrap(), true);
    assert_eq!(root.taken(), 4);
    let mut reader = root.child();
    reader.ignore(&mut root).unwrap();
    let mut child = ChildDeserializer::new_with_element_name(root.child(), "a".to_string());
    assert_eq!(child.optional(&mut root).unwrap(), false);
    let mut bare = ChildDeserializer::new(root.child());
    assert_eq!(bare.optional(&mut root).unwrap(), false);
    assert_eq!(root.taken(), 7);
}

#[test]
fn a_text_that_may_be_missing_is_read_or_empty() {
    let events = vec![text("t"), end("p")];
    let mut root = RootReader::new(EventSource::replaying(events), false);
    let mut reader = root.child();
    assert_eq!(reader.text_or_empty(&mut root).unwrap(), "t");
    assert_eq!(root.taken(), 1);
    assert_eq!(reader.text_or_empty(&mut root).unwrap(), "");
    assert_eq!(root.taken(), 1);
}

#[test]
fn a_member_is_kept_ends_the_sequence_or_fails_it() {
    assert_eq!(settle_member(false, 3, 4, None), MemberFate::Kept);
    assert_eq!(settle_member(true, 3, 4, None), MemberFate::Kept);
    assert_eq!(settle_member(false, 3, 3, None), MemberFate::Ends);
    assert_eq!(settle_member(true, 3, 5, Some(true)), MemberFate::Ends);
    assert_eq!(settle_member(true, 3, 5, Some(false)), MemberFate::Fails);
    assert_eq!(settle_member(false, 3, 5, Some(true)), MemberFate::Fails);
    assert_eq!(settle_member(false, 3, 3, Some(false)), MemberFate::Fails);
}
