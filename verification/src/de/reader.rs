use crate::error::{outcome, XmlError, XmlErrorView};
use crate::text::text_eq;
use vstd::prelude::*;
use vstd::string::StringExecFns;

verus! {

/// One attribute of an element, as the tokenizer found it.
#[derive(Clone, Debug, PartialEq, Eq)]
pub struct Attribute {
    pub prefix: Option<String>,
    pub name: String,
    pub value: String,
}

/// The opening tag of an element: its name and its attributes in document order.
#[derive(Clone, Debug, PartialEq, Eq)]
pub struct Element {
    pub prefix: Option<String>,
    pub name: String,
    pub attributes: Vec<Attribute>,
}

/// What the event source hands out: the four kinds of event that matter to a reader.
#[derive(Clone, Debug, PartialEq, Eq)]
pub enum Event {
    StartElement(Element),
    Text(String),
    EndElement,
    Eof,
}

pub struct AttributeView {
    pub prefix: Option<Seq<char>>,
    pub name: Seq<char>,
    pub value: Seq<char>,
}

pub struct ElementView {
    pub prefix: Option<Seq<char>>,
    pub name: Seq<char>,
    pub attributes: Seq<AttributeView>,
}

pub enum EventView {
    StartElement(ElementView),
    Text(Seq<char>),
    EndElement,
    Eof,
}

/// A name with its prefix in front of it, if it has one, and a colon between the two.
pub open spec fn qualified(prefix: Option<Seq<char>>, name: Seq<char>) -> Seq<char> {
    match prefix {
        Some(p) => p + ":"@ + name,
        None => name,
    }
}

pub open spec fn prefix_view(prefix: Option<String>) -> Option<Seq<char>> {
    match prefix {
        Some(p) => Some(p@),
        None => None,
    }
}

impl View for Attribute {
    type V = AttributeView;

    open spec fn view(&self) -> AttributeView {
        AttributeView { prefix: prefix_view(self.prefix), name: self.name@, value: self.value@ }
    }
}

impl View for Element {
    type V = ElementView;

    open spec fn view(&self) -> ElementView {
        ElementView {
            prefix: prefix_view(self.prefix),
            name: self.name@,
            attributes: self.attributes@.map_values(|a: Attribute| a@),
        }
    }
}

impl View for Event {
    type V = EventView;

    open spec fn view(&self) -> EventView {
        match self {
            Event::StartElement(element) => EventView::StartElement(element@),
            Event::Text(text) => EventView::Text(text@),
            Event::EndElement => EventView::EndElement,
            Event::Eof => EventView::Eof,
        }
    }
}

impl AttributeView {
    pub open spec fn qname(self) -> Seq<char> {
        qualified(self.prefix, self.name)
    }

    /// The attribute as it is shown in a message: its name, `=`, and its value in quotes.
    pub open spec fn describe(self) -> Seq<char> {
        self.qname() + "=\""@ + self.value + "\""@
    }
}

/// The attributes from `from` on as they are shown in a message, a space before each.
pub open spec fn describe_attributes(attributes: Seq<AttributeView>, from: int) -> Seq<char>
    decreases attributes.len() - from,
{
    if 0 <= from < attributes.len() {
        " "@ + attributes[from].describe() + describe_attributes(attributes, from + 1)
    } else {
        Seq::empty()
    }
}

impl ElementView {
    pub open spec fn qname(self) -> Seq<char> {
        qualified(self.prefix, self.name)
    }

    pub open spec fn describe(self) -> Seq<char> {
        "element "@ + self.qname() + " [attributes"@ + describe_attributes(self.attributes, 0)
            + "]"@
    }
}

impl EventView {
    pub open spec fn describe(self) -> Seq<char> {
        match self {
            EventView::StartElement(element) => "start of "@ + element.describe(),
            EventView::Text(_) => "text"@,
            EventView::EndElement => "end of element"@,
            EventView::Eof => "end of input"@,
        }
    }
}

/// A name with its prefix in front of it, if it has one, and a colon between the two.
pub fn qualify(prefix: &Option<String>, name: &String) -> (qname: String)
    ensures
        qname@ == qualified(prefix_view(*prefix), name@),
{
    match prefix {
        Some(p) => {
            let mut qname = p.clone();
            qname.append(":");
            qname.append(name.as_str());
            qname
        },
        None => name.clone(),
    }
}

impl Attribute {
    /// The attribute's name as the document wrote it, prefix included.
    pub fn qname(&self) -> (qname: String)
        ensures
            qname@ == self@.qname(),
    {
        qualify(&self.prefix, &self.name)
    }

    /// The attribute as a message shows it.
    pub fn describe(&self) -> (text: String)
        ensures
            text@ == self@.describe(),
    {
        let mut text = self.qname();
        text.append("=\"");
        text.append(self.value.as_str());
        text.append("\"");
        text
    }
}

impl Element {
    /// The element's name as the document wrote it, prefix included.
    pub fn qname(&self) -> (qname: String)
        ensures
            qname@ == self@.qname(),
    {
        qualify(&self.prefix, &self.name)
    }

    /// The element as a message shows it.
    pub fn describe(&self) -> (text: String)
        ensures
            text@ == self@.describe(),
    {
        let mut text = String::from_str("element ");
        let qname = self.qname();
        text.append(qname.as_str());
        text.append(" [attributes");
        let ghost head = text@;
        let mut listed = String::new();
        let mut i: usize = self.attributes.len();
        while i > 0
            invariant
                i <= self.attributes.len(),
                listed@ == describe_attributes(self@.attributes, i as int),
            decreases i,
        {
            i = i - 1;
            let mut item = String::from_str(" ");
            let shown = self.attributes[i].describe();
            item.append(shown.as_str());
            item.append(listed.as_str());
            assert(self@.attributes[i as int] == self.attributes@[i as int]@);
            listed = item;
        }
        text.append(listed.as_str());
        text.append("]");
        text
    }
}

impl Event {
    /// The event as a message shows it.
    pub fn describe(&self) -> (text: String)
        ensures
            text@ == self@.describe(),
    {
        match self {
            Event::StartElement(element) => {
                let mut text = String::from_str("start of ");
                let shown = element.describe();
                text.append(shown.as_str());
                text
            },
            Event::Text(_) => String::from_str("text"),
            Event::EndElement => String::from_str("end of element"),
            Event::Eof => String::from_str("end of input"),
        }
    }
}

/// What a text says as a boolean: `true` and `1` are true, `false` and `0` are false, and
/// nothing else is a boolean.
pub open spec fn xml_bool(text: Seq<char>) -> Option<bool> {
    if text == "true"@ || text == "1"@ {
        Some(true)
    } else if text == "false"@ || text == "0"@ {
        Some(false)
    } else {
        None
    }
}

/// Reads a boolean: `true` and `1`, `false` and `0`, compared as they stand. Any other
/// text is no boolean, and the error holds it.
pub fn parse_xml_bool(text: &str) -> (r: Result<bool, XmlError>)
    ensures
        outcome(r) == match xml_bool(text@) {
            Some(b) => Ok::<bool, XmlErrorView>(b),
            None => Err(XmlErrorView::ParseBool(text@)),
        },
{
    if text_eq(text, "true") || text_eq(text, "1") {
        Ok(true)
    } else if text_eq(text, "false") || text_eq(text, "0") {
        Ok(false)
    } else {
        Err(XmlError::ParseBool(text.to_owned()))
    }
}

} // verus!
