use serde_xml_rs::value::{Field, IntKind, Payload, Shape, Value, Variant};
use serde_xml_rs::{from_str, to_string, Deserializer, SerdeXml};

fn field(name: &str, shape: Shape) -> Field {
    Field { name: name.to_string(), shape }
}

fn record(name: &str, fields: Vec<Field>) -> Shape {
    Shape::Record(name.to_string(), fields)
}

fn variant(name: &str, payload: Payload) -> Variant {
    Variant { name: name.to_string(), payload }
}

fn union(name: &str, variants: Vec<Variant>) -> Shape {
    Shape::Union(name.to_string(), variants)
}

fn seq(item: Shape) -> Shape {
    Shape::Sequence(Box::new(item))
}

fn text(s: &str) -> Value {
    Value::Text(s.to_string())
}

fn named(name: &str) -> Value {
    Value::Record(vec![text(name)])
}

fn item() -> Shape {
    record("Item", vec![field("@name", Shape::Text), field("@source", Shape::Text)])
}

fn item_of_elements() -> Shape {
    record("Item", vec![field("name", Shape::Text), field("source", Shape::Text)])
}

fn with_name(element: &str) -> Shape {
    record(element, vec![field("@name", Shape::Text)])
}

fn overlapping() -> SerdeXml {
    SerdeXml::new().overlapping_sequences(true)
}

#[test]
fn simple_struct_from_attributes() {
    let s = r##"
        <item name="hello" source="world.rs" />
    "##;
    assert_eq!(from_str(s, &item()).unwrap(), Value::Record(vec![text("hello"), text("world.rs")]));
}

#[test]
fn simple_struct_from_attribute_and_child() {
    let s = r##"
        <item name="hello">
            <source>world.rs</source>
        </item>
    "##;
    let shape = record("Item", vec![field("@name", Shape::Text), field("source", Shape::Text)]);
    assert_eq!(from_str(s, &shape).unwrap(), Value::Record(vec![text("hello"), text("world.rs")]));
}

#[test]
fn nested_collection() {
    let s = r##"
        <project name="my_project">
            <item name="hello1" source="world1.rs" />
            <item name="hello2" source="world2.rs" />
        </project>
    "##;
    let shape = record("Project", vec![field("@name", Shape::Text), field("item", seq(item()))]);
    assert_eq!(
        from_str(s, &shape).unwrap(),
        Value::Record(vec![
            text("my_project"),
            Value::Sequence(vec![
                Value::Record(vec![text("hello1"), text("world1.rs")]),
                Value::Record(vec![text("hello2"), text("world2.rs")]),
            ]),
        ])
    );
}

#[test]
fn collection_of_enums() {
    let s = r##"
        <enums>
            <A>test</A>
            <B name="hello" flag="true" />
            <C />
        </enums>
    "##;
    let my_enum = union(
        "MyEnum",
        vec![
            variant("A", Payload::Newtype(Shape::Text)),
            variant("B", Payload::Record(vec![field("@name", Shape::Text), field("@flag", Shape::Bool)])),
            variant("C", Payload::Unit),
        ],
    );
    let shape = record("MyEnums", vec![field("#content", seq(my_enum))]);
    assert_eq!(
        from_str(s, &shape).unwrap(),
        Value::Record(vec![Value::Sequence(vec![
            Value::Variant(0, vec![text("test")]),
            Value::Variant(1, vec![text("hello"), Value::Bool(true)]),
            Value::Variant(2, vec![]),
        ])])
    );
}

#[test]
fn out_of_order_collection() {
    let in_xml = r#"
        <collection>
            <a name="a1" />
            <a name="a2" />
            <b name="b1" />
            <a name="a3" />
            <c name="c" />
            <b name="b2" />
            <a name="a4" />
        </collection>
    "#;
    let shape = record(
        "Collection",
        vec![field("a", seq(with_name("A"))), field("b", seq(with_name("B"))), field("c", with_name("C"))],
    );
    let should_be = Value::Record(vec![
        Value::Sequence(vec![named("a1"), named("a2"), named("a3"), named("a4")]),
        Value::Sequence(vec![named("b1"), named("b2")]),
        named("c"),
    ]);
    assert_eq!(should_be, overlapping().from_str(in_xml, &shape).unwrap());
}

#[test]
fn nested_out_of_order_collection() {
    let in_xml = r#"
        <collection>
            <inner>
                <b name="b1" />
                <c name="c1" />
                <b name="b2" />
                <c name="c2" />
            </inner>
            <a name="a" />
            <inner>
                <c name="c3" />
                <b name="b3" />
                <c name="c4" />
                <b name="b4" />
            </inner>
        </collection>
    "#;
    let inner = record(
        "InnerCollection",
        vec![field("b", seq(with_name("B"))), field("c", seq(with_name("C")))],
    );
    let shape =
        record("OuterCollection", vec![field("a", with_name("A")), field("inner", seq(inner))]);
    let should_be = Value::Record(vec![
        named("a"),
        Value::Sequence(vec![
            Value::Record(vec![
                Value::Sequence(vec![named("b1"), named("b2")]),
                Value::Sequence(vec![named("c1"), named("c2")]),
            ]),
            Value::Record(vec![
                Value::Sequence(vec![named("b3"), named("b4")]),
                Value::Sequence(vec![named("c3"), named("c4")]),
            ]),
        ]),
    ]);
    assert_eq!(should_be, overlapping().from_str(in_xml, &shape).unwrap());
}

#[test]
fn nested_collection_repeated_elements() {
    let in_xml = r#"
        <collection>
            <a name="a1" />
            <inner>
                <a name="a2" />
            </inner>
            <a name="a3" />
        </collection>
    "#;
    let inner = record("Inner", vec![field("a", with_name("A"))]);
    let shape =
        record("OuterCollection", vec![field("a", seq(with_name("A"))), field("inner", inner)]);
    let should_be = Value::Record(vec![
        Value::Sequence(vec![named("a1"), named("a3")]),
        Value::Record(vec![named("a2")]),
    ]);
    assert_eq!(should_be, overlapping().from_str(in_xml, &shape).unwrap());
}

#[test]
fn simple_struct_from_attributes_should_fail() {
    let s = r##"
        <item name="hello" source="world.rs />
    "##;
    assert!(from_str(s, &item()).is_err());
}

#[test]
fn multiple_roots_attributes_should_fail() {
    let s = r##"
        <item name="hello" source="world.rs" />
        <item name="hello source="world.rs" />
    "##;
    assert!(from_str(s, &seq(item())).is_err());
}

fn xml_rpc_value(depth: usize) -> Shape {
    let mut variants = vec![variant("i32", Payload::Newtype(Shape::Integer(IntKind::I32)))];
    if depth > 0 {
        let member = record(
            "Member",
            vec![field("name", Shape::Text), field("value", xml_rpc_value(depth - 1))],
        );
        let members = union("Members", vec![variant("member", Payload::Newtype(member))]);
        let structure = record("Struct", vec![field("#content", seq(members))]);
        let values =
            union("Values", vec![variant("value", Payload::Newtype(xml_rpc_value(depth - 1)))]);
        let array = record("Array", vec![field("data", seq(values))]);
        variants.push(variant("struct", Payload::Newtype(structure)));
        variants.push(variant("array", Payload::Newtype(array)));
    }
    union("Value", variants)
}

#[test]
fn nested_values_in_the_element_of_their_type() {
    let exp_xml = r#"<?xml version="1.0"?>
    <value>
      <struct>
        <member>
          <name>outerStruct</name>
          <value>
            <array>
              <data>
                <value>
                  <struct>
                    <member>
                      <name>innerStruct</name>
                      <value>
                        <array>
                          <data>
                            <value>
                              <i32>0</i32>
                            </value>
                            <value>
                              <i32>1</i32>
                            </value>
                          </data>
                        </array>
                      </value>
                    </member>
                  </struct>
                </value>
              </data>
            </array>
          </value>
        </member>
      </struct>
    </value>
    "#;
    from_str(exp_xml, &xml_rpc_value(4)).unwrap();
}

#[test]
fn test_serialize_and_get_buffer_back() {
    let shape = record("root", vec![field("value", Shape::Text)]);
    let xml_string = to_string(&shape, &Value::Record(vec![text("test")])).unwrap();
    assert_eq!(xml_string, r#"<?xml version="1.0" encoding="UTF-8"?><root><value>test</value></root>"#);
}

#[test]
fn test_continue_writing_after_serialization() {
    let shape = record("root", vec![field("value", Shape::Text)]);
    let mut xml_string = to_string(&shape, &Value::Record(vec![text("first")])).unwrap();
    xml_string.push_str("\n<!-- comment -->");
    assert_eq!(
        xml_string,
        r#"<?xml version="1.0" encoding="UTF-8"?><root><value>first</value></root>
<!-- comment -->"#
    );
}

#[test]
fn serializer_should_accept_custom_emitter() {
    let value = Value::Record(vec![text("john"), text("outerworld")]);
    let emitter = xml::EmitterConfig::default().perform_indent(true);
    let output = SerdeXml::new().emitter(emitter).to_string(&item_of_elements(), &value).unwrap();
    assert_eq!("<?xml version=\"1.0\" encoding=\"UTF-8\"?>\n<Item>\n  <name>john</name>\n  <source>outerworld</source>\n</Item>", output);
}

fn units(name: &str, names: &[&str]) -> Shape {
    union(name, names.iter().map(|n| variant(n, Payload::Unit)).collect())
}

#[test]
fn main() {
    let document = r#"
        <plate-appearance>
          <pitch speed="95" type="FourSeam" outcome="Ball" />
          <pitch speed="91" type="FourSeam" outcome="Strike" />
          <pitch speed="85" type="Changeup" outcome="Ball" />
          <runner from="First" to="Second" outcome="Steal" />
          <pitch speed="89" type="Slider" outcome="Strike" />
          <pitch speed="88" type="Curve" outcome="Hit" />
        </plate-appearance>"#;
    let pitch_type = units(
        "PitchType",
        &["FourSeam", "TwoSeam", "Changeup", "Cutter", "Curve", "Slider", "Knuckle", "Pitchout"],
    );
    let pitch = record(
        "Pitch",
        vec![
            field("@speed", Shape::Integer(IntKind::U32)),
            field("@type", pitch_type),
            field("@outcome", units("PitchOutcome", &["Ball", "Strike", "Hit"])),
        ],
    );
    let runner = record(
        "Runner",
        vec![
            field("@from", units("Base", &["First", "Second", "Third", "Home"])),
            field("@to", Shape::Optional(Box::new(units("Base", &["First", "Second", "Third", "Home"])))),
            field("@outcome", units("RunnerOutcome", &["Steal", "Caught", "PickOff"])),
        ],
    );
    let event = union(
        "Event",
        vec![variant("pitch", Payload::Newtype(pitch)), variant("runner", Payload::Newtype(runner))],
    );
    let shape = Shape::Newtype("PlateAppearance".to_string(), Box::new(seq(event)));
    let plate_appearance = from_str(document, &shape).unwrap();
    let events = match plate_appearance {
        Value::Sequence(events) => events,
        other => panic!("{:?}", other),
    };
    assert_eq!(
        events[0],
        Value::Variant(
            0,
            vec![Value::Record(vec![
                Value::Integer(95),
                Value::Variant(0, vec![]),
                Value::Variant(0, vec![]),
            ])]
        )
    );
    assert_eq!(events.len(), 6);
    assert_eq!(
        events[3],
        Value::Variant(
            1,
            vec![Value::Record(vec![
                Value::Variant(0, vec![]),
                Value::Present(Box::new(Value::Variant(1, vec![]))),
                Value::Variant(0, vec![]),
            ])]
        )
    );
}

fn nested_def() -> Shape {
    let fields = union("Field", vec![variant("field", Payload::Record(vec![field("@name", Shape::Text)]))]);
    let message = record(
        "MessageDefinition",
        vec![field("@name", Shape::Text), field("#content", seq(fields))],
    );
    let entry = record(
        "EnumerationVariant",
        vec![field("@value", Shape::Integer(IntKind::U16)), field("@name", Shape::Text)],
    );
    let enumeration =
        record("EnumerationDefinition", vec![field("@name", Shape::Text), field("entry", seq(entry))]);
    let definition = union(
        "Definition",
        vec![
            variant("messageDefinition", Payload::Newtype(message)),
            variant("enumerationDefinition", Payload::Newtype(enumeration)),
        ],
    );
    record("nesteddef", vec![field("#content", seq(definition))])
}

#[test]
fn nested_enum_vec_of_struct_first_parseable() {
    let s = r##"
        <nesteddef>
            <enumerationDefinition name="some enum">
                <entry value="0" name="first" />
                <entry value="1" name="second" />
            </enumerationDefinition>
            <messageDefinition name="msg name">
                <field name="msg_field1" />
                <field name="msg_field2" />
                <field name="msg_field3" />
            </messageDefinition>
        </nesteddef>
    "##;
    let definitions = match from_str(s, &nested_def()).unwrap() {
        Value::Record(mut fields) => fields.remove(0),
        other => panic!("{:?}", other),
    };
    assert!(matches!(definitions, Value::Sequence(ref items) if items.len() == 2));
}

#[test]
fn vec_of_struct_second_parseable() {
    let s = r##"
        <nesteddef>
            <messageDefinition name="msg name">
                <field name="msg_field1" />
                <field name="msg_field2" />
                <field name="msg_field3" />
            </messageDefinition>
            <enumerationDefinition name="some enum">
                <entry value="0" name="first" />
                <entry value="1" name="second" />
            </enumerationDefinition>
        </nesteddef>
    "##;
    let definitions = match from_str(s, &nested_def()).unwrap() {
        Value::Record(mut fields) => fields.remove(0),
        other => panic!("{:?}", other),
    };
    assert_eq!(
        definitions,
        Value::Sequence(vec![
            Value::Variant(
                0,
                vec![Value::Record(vec![
                    text("msg name"),
                    Value::Sequence(vec![
                        Value::Variant(0, vec![text("msg_field1")]),
                        Value::Variant(0, vec![text("msg_field2")]),
                        Value::Variant(0, vec![text("msg_field3")]),
                    ]),
                ])]
            ),
            Value::Variant(
                1,
                vec![Value::Record(vec![
                    text("some enum"),
                    Value::Sequence(vec![
                        Value::Record(vec![Value::Integer(0), text("first")]),
                        Value::Record(vec![Value::Integer(1), text("second")]),
                    ]),
                ])]
            ),
        ])
    );
}

#[test]
fn basic_struct() {
    let src = r#"<Item><name>Banana</name><source>Store</source></Item>"#;
    let should_be = Value::Record(vec![text("Banana"), text("Store")]);
    let item = from_str(src, &item_of_elements()).unwrap();
    assert_eq!(item, should_be);
    let bare = xml::EmitterConfig::new().write_document_declaration(false);
    let reserialized_item = SerdeXml::new().emitter(bare).to_string(&item_of_elements(), &item).unwrap();
    assert_eq!(src, reserialized_item);
}

#[test]
fn whitespace_preserving_config() {
    let src = r#"
    <Item>
        <name>  space banana  </name>
        <source>   fantasy costco   </source>
    </Item>"#;
    let item_should_be = Value::Record(vec![text("  space banana  "), text("   fantasy costco   ")]);
    let config = xml::ParserConfig::new().trim_whitespace(false).whitespace_to_characters(false);
    let item = SerdeXml::new().parser(config).from_str(src, &item_of_elements()).unwrap();
    assert_eq!(item, item_should_be);
    let serialized_should_be =
        "<Item><name>  space banana  </name><source>   fantasy costco   </source></Item>";
    let bare = xml::EmitterConfig::new().write_document_declaration(false);
    let reserialized_item = SerdeXml::new().emitter(bare).to_string(&item_of_elements(), &item).unwrap();
    assert_eq!(reserialized_item, serialized_should_be);
}

fn api_document() -> Shape {
    record("document", vec![field("content", record("Content", vec![field("text", Shape::Text)]))])
}

fn api_value(content: &str) -> Value {
    Value::Record(vec![Value::Record(vec![text(content)])])
}

#[test]
fn should_accept_custom_event_writer() {
    let emitter = xml::EmitterConfig::new().perform_indent(true).write_document_declaration(false);
    let actual =
        SerdeXml::new().emitter(emitter).to_string(&api_document(), &api_value("content text")).unwrap();
    assert_eq!(
        actual,
        "<document>\n  <content>\n    <text>content text</text>\n  </content>\n</document>"
    );
}

#[test]
fn when_deserialize_then_preserve_whitespace() {
    let source = "<?xml version=\"1.0\" encoding=\"UTF-8\"?>\n<document>\n<content>\n    <text>    content text  </text>\n</content>\n</document>";
    let config = SerdeXml::new()
        .parser(xml::ParserConfig::new().trim_whitespace(false).whitespace_to_characters(false));
    let mut deserializer = Deserializer::from_config(config, source);
    assert_eq!(deserializer.deserialize(&api_document()).unwrap(), api_value("    content text  "));
}

#[test]
fn when_serialize_then_only_preserve_whitespace_inside_elements() {
    let expected = r#"<?xml version="1.0" encoding="UTF-8"?><document><content><text>    content text  </text></content></document>"#;
    assert_eq!(to_string(&api_document(), &api_value("    content text  ")).unwrap(), expected);
}
