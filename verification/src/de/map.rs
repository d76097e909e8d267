use crate::de::buffer::{
    lemma_after_peek, unexpected, unexpected_view, ChildReader, RootReader, Tape,
};
use crate::de::child::{ChildDeserializer, ChildView};
use crate::de::reader::{Attribute, AttributeView, Event, EventView};
use crate::error::{XmlError, XmlErrorView};
use crate::text::text_eq;
use vstd::prelude::*;
use vstd::string::StringExecFns;

verus! {

/// The next thing that a record or a map is offered.
#[derive(Clone, Debug, PartialEq, Eq)]
pub enum Key {
    /// An attribute of the opening tag, by its qualified name.
    Attribute(String),
    /// The children that no field claims by name.
    Content,
    /// A child element, by its qualified name.
    Element(String),
    /// Character data.
    Text,
}

pub enum KeyView {
    Attribute(Seq<char>),
    Content,
    Element(Seq<char>),
    Text,
}

impl View for Key {
    type V = KeyView;

    open spec fn view(&self) -> KeyView {
        match self {
            Key::Attribute(name) => KeyView::Attribute(name@),
            Key::Content => KeyView::Content,
            Key::Element(name) => KeyView::Element(name@),
            Key::Text => KeyView::Text,
        }
    }
}

impl KeyView {
    /// The name of the field that takes the key: an attribute's name behind `@`, `#content`,
    /// an element's name as it is, `#text`.
    pub open spec fn name(self) -> Seq<char> {
        match self {
            KeyView::Attribute(name) => "@"@ + name,
            KeyView::Content => "#content"@,
            KeyView::Element(name) => name,
            KeyView::Text => "#text"@,
        }
    }
}

impl Key {
    /// The name of the field that takes the key.
    pub fn name(&self) -> (name: String)
        ensures
            name@ == self@.name(),
    {
        match self {
            Key::Attribute(attribute) => {
                let mut name = String::from_str("@");
                name.append(attribute.as_str());
                name
            },
            Key::Content => String::from_str("#content"),
            Key::Element(element) => element.clone(),
            Key::Text => String::from_str("#text"),
        }
    }
}

/// Where the value for a key is to be read from.
#[derive(Debug)]
pub enum ValueSource {
    /// A text: the value of an attribute, or character data that has been consumed.
    Plain(String),
    /// The events before a reader.
    Child(ChildDeserializer),
}

pub enum ValueSourceView {
    Plain(Seq<char>),
    Child(ChildView),
}

impl View for ValueSource {
    type V = ValueSourceView;

    open spec fn view(&self) -> ValueSourceView {
        match self {
            ValueSource::Plain(text) => ValueSourceView::Plain(text@),
            ValueSource::Child(child) => ValueSourceView::Child(child@),
        }
    }
}

/// The keys and values of one element, in the order in which a record or a map is offered
/// them: first the attributes of the opening tag, then the children.
pub struct MapAccess {
    reader: ChildReader,
    attributes: Vec<Attribute>,
    next_attribute: usize,
    fields: Vec<String>,
    content: bool,
}

pub struct MapAccessView {
    pub cursor: int,
    pub overlapping: bool,
    /// The attributes that have not been offered yet.
    pub attributes: Seq<AttributeView>,
    /// The names of the fields that the record declares.
    pub fields: Seq<Seq<char>>,
    /// Whether the record has a field for the children that no other field claims, and has
    /// not been offered them yet.
    pub content: bool,
}

impl MapAccessView {
    /// Whether an element of this name goes to the field for unclaimed children.
    pub open spec fn is_content(self, element_name: Seq<char>) -> bool {
        self.content && !self.fields.contains(element_name)
    }
}

pub struct KeyStep {
    pub key: Result<Option<KeyView>, XmlErrorView>,
    pub map: MapAccessView,
    pub tape: Tape,
}

pub struct ValueStep {
    pub source: Result<ValueSourceView, XmlErrorView>,
    pub map: MapAccessView,
    pub tape: Tape,
}

/// The key that comes next. An attribute that is left is offered before anything else, and
/// only the call for its value takes it off the list. Behind the attributes the next event
/// decides: the start of an element is offered under its name, or, once, as the unclaimed
/// children, where the record has a field for them and none for the name; character data
/// is offered as text; at anything else the keys are at an end.
pub open spec fn next_key(map: MapAccessView, tape: Tape) -> KeyStep {
    if map.attributes.len() > 0 {
        KeyStep { key: Ok(Some(KeyView::Attribute(map.attributes[0].qname()))), map, tape }
    } else {
        let landed = MapAccessView { cursor: tape.landing(map.cursor), ..map };
        let seen = tape.after_peek(map.cursor);
        match tape.peeked(map.cursor) {
            Ok(EventView::StartElement(element)) => if map.is_content(element.qname()) {
                KeyStep {
                    key: Ok(Some(KeyView::Content)),
                    map: MapAccessView { content: false, ..landed },
                    tape: seen,
                }
            } else {
                KeyStep {
                    key: Ok(Some(KeyView::Element(element.qname()))),
                    map: landed,
                    tape: seen,
                }
            },
            Ok(EventView::Text(_)) => KeyStep {
                key: Ok(Some(KeyView::Text)),
                map: landed,
                tape: seen,
            },
            Ok(_) => KeyStep { key: Ok(None), map: landed, tape: seen },
            Err(error) => KeyStep { key: Err(error), map: landed, tape: seen },
        }
    }
}

/// Where the value that comes next is read from. An attribute that is left gives its text
/// and leaves the list. Behind the attributes the next event decides: the start of an
/// element is read by a reader of its own, which is told the name of the element, or,
/// where `key` stands for the unclaimed children, reads all that is left of the parent
/// without a name; character data is consumed here and handed on as text. Anything else
/// holds no value: it is reported as found in the place of one, and nothing is consumed.
pub open spec fn value_for(map: MapAccessView, tape: Tape, key: KeyView) -> ValueStep {
    if map.attributes.len() > 0 {
        ValueStep {
            source: Ok(ValueSourceView::Plain(map.attributes[0].value)),
            map: MapAccessView { attributes: map.attributes.skip(1), ..map },
            tape,
        }
    } else {
        let landed = MapAccessView { cursor: tape.landing(map.cursor), ..map };
        let seen = tape.after_peek(map.cursor);
        match tape.peeked(map.cursor) {
            Ok(EventView::StartElement(element)) => ValueStep {
                source: Ok(
                    ValueSourceView::Child(
                        ChildView {
                            cursor: landed.cursor,
                            overlapping: map.overlapping,
                            name: if key is Content {
                                None
                            } else {
                                Some(element.qname())
                            },
                        },
                    ),
                ),
                map: landed,
                tape: seen,
            },
            Ok(EventView::Text(text)) => ValueStep {
                source: Ok(ValueSourceView::Plain(text)),
                map: landed,
                tape: tape.after_next(map.cursor),
            },
            Ok(event) => ValueStep {
                source: Err(unexpected_view("start of element or text"@, event)),
                map: landed,
                tape: seen,
            },
            Err(error) => ValueStep { source: Err(error), map: landed, tape: seen },
        }
    }
}

/// The views of the attributes from `from` on.
pub open spec fn attributes_from(attributes: Seq<Attribute>, from: int) -> Seq<AttributeView> {
    attributes.map_values(|a: Attribute| a@).skip(from)
}

/// The names as sequences of characters.
pub open spec fn names_view(names: Seq<String>) -> Seq<Seq<char>> {
    names.map_values(|name: String| name@)
}

/// Whether one of `names` is `name`.
pub fn contains_name(names: &Vec<String>, name: &str) -> (found: bool)
    ensures
        found == names_view(names@).contains(name@),
{
    let mut i: usize = 0;
    while i < names.len()
        invariant
            i <= names.len(),
            forall|j: int| 0 <= j < i ==> names_view(names@)[j] != name@,
        decreases names.len() - i,
    {
        if text_eq(names[i].as_str(), name) {
            assert(names_view(names@)[i as int] == name@);
            return true;
        }
        i = i + 1;
    }
    false
}

impl View for MapAccess {
    type V = MapAccessView;

    closed spec fn view(&self) -> MapAccessView {
        MapAccessView {
            cursor: self.reader.cursor as int,
            overlapping: self.reader.overlapping_sequences,
            attributes: attributes_from(self.attributes@, self.next_attribute as int),
            fields: names_view(self.fields@),
            content: self.content,
        }
    }
}

impl MapAccess {
    /// Whether the access is in a state that its own operations leave it in.
    pub closed spec fn well_formed(&self) -> bool {
        self.next_attribute <= self.attributes.len()
    }

    /// The keys and values of a map: all that `reader` has before it, with no attributes
    /// and no field names.
    pub fn new_map(reader: ChildReader) -> (map: Self)
        ensures
            map.well_formed(),
            map@ == (MapAccessView {
                cursor: reader.cursor as int,
                overlapping: reader.overlapping_sequences,
                attributes: Seq::empty(),
                fields: Seq::empty(),
                content: false,
            }),
    {
        let map = Self {
            reader,
            attributes: Vec::new(),
            next_attribute: 0,
            fields: Vec::new(),
            content: false,
        };
        assert(map@.attributes =~= Seq::empty());
        assert(map@.fields =~= Seq::empty());
        map
    }

    /// The keys and values of a record: the attributes of its opening tag, then what
    /// `reader` has before it. `fields` are the names of the fields that the record declares.
    pub fn new_struct(reader: ChildReader, attributes: Vec<Attribute>, fields: Vec<String>) -> (map:
        Self)
        ensures
            map.well_formed(),
            map@ == (MapAccessView {
                cursor: reader.cursor as int,
                overlapping: reader.overlapping_sequences,
                attributes: attributes@.map_values(|a: Attribute| a@),
                fields: names_view(fields@),
                content: names_view(fields@).contains("#content"@),
            }),
    {
        let content = contains_name(&fields, "#content");
        let map = Self { reader, attributes, next_attribute: 0, fields, content };
        assert(map@.attributes =~= attributes@.map_values(|a: Attribute| a@));
        map
    }

    /// How many attributes have not been offered yet.
    pub fn attributes_left(&self) -> (left: usize)
        requires
            self.well_formed(),
        ensures
            left == self@.attributes.len(),
    {
        self.attributes.len() - self.next_attribute
    }

    /// Whether an element of this name goes to the field for unclaimed children.
    pub fn is_content(&self, element_name: &str) -> (r: bool)
        ensures
            r == self@.is_content(element_name@),
    {
        self.content && !contains_name(&self.fields, element_name)
    }

    /// Offers the next key, if there is one.
    pub fn next_key(&mut self, root: &mut RootReader) -> (r: Result<Option<Key>, XmlError>)
        requires
            old(self).well_formed(),
        ensures
            final(self).well_formed(),
            final(self)@ == next_key(old(self)@, old(root).tape()).map,
            final(root).tape() == next_key(old(self)@, old(root).tape()).tape,
            final(root).overlapping() == old(root).overlapping(),
            match r {
                Ok(Some(key)) => next_key(old(self)@, old(root).tape()).key == Ok::<
                    Option<KeyView>,
                    XmlErrorView,
                >(Some(key@)),
                Ok(None) => next_key(old(self)@, old(root).tape()).key == Ok::<
                    Option<KeyView>,
                    XmlErrorView,
                >(None),
                Err(error) => next_key(old(self)@, old(root).tape()).key == Err::<
                    Option<KeyView>,
                    XmlErrorView,
                >(error@),
            },
    {
        if self.next_attribute < self.attributes.len() {
            let name = self.attributes[self.next_attribute].qname();
            Ok(Some(Key::Attribute(name)))
        } else {
            // The name of the element that starts next, or nothing for character data.
            let found: Result<Option<Option<String>>, XmlError> = match self.reader.peek(root) {
                Ok(event) => match event {
                    Event::StartElement(element) => Ok(Some(Some(element.qname()))),
                    Event::Text(_) => Ok(Some(None)),
                    _ => Ok(None),
                },
                Err(error) => Err(error),
            };
            match found {
                Ok(Some(Some(name))) => {
                    if self.is_content(name.as_str()) {
                        self.content = false;
                        Ok(Some(Key::Content))
                    } else {
                        Ok(Some(Key::Element(name)))
                    }
                },
                Ok(Some(None)) => Ok(Some(Key::Text)),
                Ok(None) => Ok(None),
                Err(error) => Err(error),
            }
        }
    }

    /// Says where the value that comes next is to be read from. The key tells only whether
    /// a child element goes to the field for the unclaimed children.
    pub fn value_for(&mut self, root: &mut RootReader, key: &Key) -> (r: Result<
        ValueSource,
        XmlError,
    >)
        requires
            old(self).well_formed(),
        ensures
            final(self).well_formed(),
            final(self)@ == value_for(old(self)@, old(root).tape(), key@).map,
            final(root).tape() == value_for(old(self)@, old(root).tape(), key@).tape,
            final(root).overlapping() == old(root).overlapping(),
            match r {
                Ok(source) => value_for(old(self)@, old(root).tape(), key@).source == Ok::<
                    ValueSourceView,
                    XmlErrorView,
                >(source@),
                Err(error) => value_for(old(self)@, old(root).tape(), key@).source == Err::<
                    ValueSourceView,
                    XmlErrorView,
                >(error@),
            },
            old(self)@.attributes.len() == 0 && (old(root).tape().peeked(
                old(self)@.cursor,
            ) matches Ok(event) && !(event is StartElement) && !(event is Text)) ==> {
                &&& r matches Err(error) && error@ == unexpected_view(
                    "start of element or text"@,
                    old(root).tape().peeked(old(self)@.cursor)->Ok_0,
                )
                &&& final(root).tape().taken == old(root).tape().taken
            },
    {
        if self.next_attribute < self.attributes.len() {
            let value = self.attributes[self.next_attribute].value.clone();
            self.next_attribute = self.next_attribute + 1;
            assert(self@.attributes =~= old(self)@.attributes.skip(1));
            return Ok(ValueSource::Plain(value));
        }
        // The name of the element that starts next, or nothing for character data.
        let found: Result<Option<String>, XmlError> = match self.reader.peek(root) {
            Ok(event) => match event {
                Event::StartElement(element) => Ok(Some(element.qname())),
                Event::Text(_) => Ok(None),
                other => Err(unexpected("start of element or text", other)),
            },
            Err(error) => Err(error),
        };
        proof {
            lemma_after_peek(old(root).tape(), old(self)@.cursor);
        }
        match found {
            Ok(Some(name)) => match key {
                Key::Content => Ok(ValueSource::Child(ChildDeserializer::new(self.reader.child()))),
                _ => Ok(
                    ValueSource::Child(
                        ChildDeserializer::new_with_element_name(self.reader.child(), name),
                    ),
                ),
            },
            Ok(None) => match self.reader.chars(root) {
                Ok(text) => Ok(ValueSource::Plain(text)),
                Err(error) => Err(error),
            },
            Err(error) => Err(error),
        }
    }
}

} // verus!
