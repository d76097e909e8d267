use crate::config::Namespaces;
use crate::error::{outcome, XmlError, XmlErrorView};
use vstd::prelude::*;

verus! {

#[verifier::external_type_specification]
#[verifier::external_body]
pub struct ExEmitterConfig(xml::writer::EmitterConfig);

#[verifier::external_type_specification]
#[verifier::external_body]
#[verifier::reject_recursive_types(W)]
pub struct ExEventWriter<W>(xml::writer::EventWriter<W>);

/// An attribute that is to be written on an opening tag.
#[derive(Clone, Debug, PartialEq, Eq)]
pub struct Attribute {
    pub name: String,
    pub value: String,
}

/// One event of a document that is being written.
#[derive(Clone, Debug, PartialEq, Eq)]
pub enum WriteEvent {
    /// An opening tag with its attributes and with the namespaces that it declares.
    StartElement { name: String, attributes: Vec<Attribute>, namespaces: Vec<(String, String)> },
    /// The closing tag of the innermost open element.
    EndElement,
    /// Character data.
    Characters(String),
}

pub enum WriteEventView {
    StartElement {
        name: Seq<char>,
        attributes: Seq<(Seq<char>, Seq<char>)>,
        namespaces: Seq<(Seq<char>, Seq<char>)>,
    },
    EndElement,
    Characters(Seq<char>),
}

/// Attributes as pairs of name and value.
pub open spec fn attributes_view(attributes: Seq<Attribute>) -> Seq<(Seq<char>, Seq<char>)> {
    attributes.map_values(|a: Attribute| (a.name@, a.value@))
}

/// Pairs of texts as pairs of sequences of characters.
pub open spec fn pairs_view(pairs: Seq<(String, String)>) -> Seq<(Seq<char>, Seq<char>)> {
    pairs.map_values(|pair: (String, String)| (pair.0@, pair.1@))
}

impl View for WriteEvent {
    type V = WriteEventView;

    open spec fn view(&self) -> WriteEventView {
        match self {
            WriteEvent::StartElement { name, attributes, namespaces } => {
                WriteEventView::StartElement {
                    name: name@,
                    attributes: attributes_view(attributes@),
                    namespaces: pairs_view(namespaces@),
                }
            },
            WriteEvent::EndElement => WriteEventView::EndElement,
            WriteEvent::Characters(text) => WriteEventView::Characters(text@),
        }
    }
}

/// The writer of a document: it takes the events of the document in order, and puts the
/// namespaces of its table on the first opening tag, which is that of the outermost element.
pub struct Writer {
    events: Vec<WriteEvent>,
    namespaces: Namespaces,
    opened: bool,
}

pub struct WriterView {
    /// The events that have been written so far.
    pub events: Seq<WriteEventView>,
    /// The namespaces that the outermost element declares.
    pub namespaces: Seq<(Seq<char>, Seq<char>)>,
    /// Whether the opening tag of the outermost element has been written.
    pub opened: bool,
}

impl WriterView {
    /// The writer after an opening tag.
    pub open spec fn start(self, name: Seq<char>, attributes: Seq<(Seq<char>, Seq<char>)>) -> WriterView {
        WriterView {
            events: self.events.push(
                WriteEventView::StartElement {
                    name,
                    attributes,
                    namespaces: if self.opened {
                        Seq::empty()
                    } else {
                        self.namespaces
                    },
                },
            ),
            opened: true,
            ..self
        }
    }

    /// The writer after a closing tag.
    pub open spec fn end(self) -> WriterView {
        WriterView { events: self.events.push(WriteEventView::EndElement), ..self }
    }

    /// The writer after character data.
    pub open spec fn characters(self, text: Seq<char>) -> WriterView {
        WriterView { events: self.events.push(WriteEventView::Characters(text)), ..self }
    }

    /// The writer after the opening tag of a value, if the value has an element of its own.
    pub open spec fn maybe_start(self, name: Option<Seq<char>>) -> WriterView {
        match name {
            Some(name) => self.start(name, Seq::empty()),
            None => self,
        }
    }

    /// The writer after the closing tag of a value, if the value has an element of its own.
    pub open spec fn maybe_end(self, name: Option<Seq<char>>) -> WriterView {
        match name {
            Some(_) => self.end(),
            None => self,
        }
    }
}

pub open spec fn events_view(events: Seq<WriteEvent>) -> Seq<WriteEventView> {
    events.map_values(|event: WriteEvent| event@)
}

impl View for Writer {
    type V = WriterView;

    closed spec fn view(&self) -> WriterView {
        WriterView {
            events: events_view(self.events@),
            namespaces: self.namespaces.entries(),
            opened: self.opened,
        }
    }
}

impl Writer {
    /// A writer that has written nothing yet.
    pub fn new(namespaces: Namespaces) -> (writer: Self)
        ensures
            writer@ == (WriterView {
                events: Seq::empty(),
                namespaces: namespaces.entries(),
                opened: false,
            }),
    {
        let writer = Writer { events: Vec::new(), namespaces, opened: false };
        assert(writer@.events =~= Seq::empty());
        writer
    }

    /// Writes an opening tag without attributes.
    pub fn start_element(&mut self, name: &str)
        ensures
            final(self)@ == old(self)@.start(name@, Seq::empty()),
    {
        let attributes: Vec<Attribute> = Vec::new();
        assert(attributes_view(attributes@) =~= Seq::empty());
        self.start_element_with_attributes(name, attributes)
    }

    /// Writes an opening tag. The first one of the document declares the namespaces.
    pub fn start_element_with_attributes(&mut self, name: &str, attributes: Vec<Attribute>)
        ensures
            final(self)@ == old(self)@.start(name@, attributes_view(attributes@)),
    {
        let namespaces = if self.opened {
            let none: Vec<(String, String)> = Vec::new();
            assert(pairs_view(none@) =~= Seq::empty());
            none
        } else {
            self.namespaces.declarations()
        };
        let ghost before = self.events@;
        let event = WriteEvent::StartElement { name: name.to_owned(), attributes, namespaces };
        self.events.push(event);
        self.opened = true;
        assert(events_view(self.events@) =~= events_view(before).push(event@));
    }

    /// Writes the closing tag of the innermost open element.
    pub fn end_element(&mut self)
        ensures
            final(self)@ == old(self)@.end(),
    {
        let ghost before = self.events@;
        self.events.push(WriteEvent::EndElement);
        assert(events_view(self.events@) =~= events_view(before).push(WriteEventView::EndElement));
    }

    /// Writes character data.
    pub fn characters(&mut self, text: &str)
        ensures
            final(self)@ == old(self)@.characters(text@),
    {
        let ghost before = self.events@;
        self.events.push(WriteEvent::Characters(text.to_owned()));
        assert(events_view(self.events@) =~= events_view(before).push(
            WriteEventView::Characters(text@),
        ));
    }

    /// Writes the opening tag of a value, if the value has an element of its own.
    pub fn maybe_start_element(&mut self, name: &Option<String>)
        ensures
            final(self)@ == old(self)@.maybe_start(crate::de::reader::prefix_view(*name)),
    {
        match name {
            Some(name) => self.start_element(name.as_str()),
            None => {},
        }
    }

    /// Writes the closing tag of a value, if the value has an element of its own.
    pub fn maybe_end_element(&mut self, name: &Option<String>)
        ensures
            final(self)@ == old(self)@.maybe_end(crate::de::reader::prefix_view(*name)),
    {
        match name {
            Some(_) => self.end_element(),
            None => {},
        }
    }

    /// The events that have been written, in order.
    pub fn into_events(self) -> (events: Vec<WriteEvent>)
        ensures
            events_view(events@) == self@.events,
    {
        self.events
    }
}

/// The settings that `EmitterConfig::new` gives when these two are set on them: whether
/// the document is indented, and whether it begins with its declaration.
pub uninterp spec fn emitter_settings(
    perform_indent: bool,
    write_document_declaration: bool,
) -> xml::writer::EmitterConfig;

/// The settings that the emitter was made with.
pub uninterp spec fn settings_of(
    emitter: xml::writer::EventWriter<Vec<u8>>,
) -> xml::writer::EmitterConfig;

/// The events that the emitter has taken since it was made, in order.
pub uninterp spec fn taken_by(emitter: xml::writer::EventWriter<Vec<u8>>) -> Seq<WriteEventView>;

/// What `EventWriter::write` returns for `event` from an emitter that was made with the
/// settings `config` over a buffer in memory and has taken the events `before`.
pub uninterp spec fn write_result(
    config: xml::writer::EmitterConfig,
    before: Seq<WriteEventView>,
    event: WriteEventView,
) -> Result<(), xml::writer::Error>;

/// The bytes that an emitter has written which was made with the settings `config` over an
/// empty buffer in memory and has taken `events`.
pub uninterp spec fn emitted(
    config: xml::writer::EmitterConfig,
    events: Seq<WriteEventView>,
) -> Seq<u8>;

/// `EmitterConfig::new`, and on its result the setters `perform_indent` and
/// `write_document_declaration`, each with the flag of its name.
#[verifier::external_body]
pub(crate) fn configure_emitter(perform_indent: bool, write_document_declaration: bool) -> (config:
    xml::writer::EmitterConfig)
    ensures
        config == emitter_settings(perform_indent, write_document_declaration),
{
    xml::writer::EmitterConfig::new()
        .perform_indent(perform_indent)
        .write_document_declaration(write_document_declaration)
}

/// `EmitterConfig::create_writer` over an empty buffer in memory: an emitter with these
/// settings that has taken no event.
#[verifier::external_body]
fn create_emitter(config: xml::writer::EmitterConfig) -> (emitter: xml::writer::EventWriter<
    Vec<u8>,
>)
    ensures
        settings_of(emitter) == config,
        taken_by(emitter) == Seq::<WriteEventView>::empty(),
{
    config.create_writer(Vec::new())
}

/// `EventWriter::write` with the start of an element, built by `XmlEvent::start_element`,
/// `StartElementBuilder::ns` and `StartElementBuilder::attr`. What the emitter answers
/// follows from its settings, from the events it has taken and from this event, and is
/// named, not stated; an emitter that answers `Ok` has taken the event.
#[verifier::external_body]
fn emit_start(
    emitter: &mut xml::writer::EventWriter<Vec<u8>>,
    name: &str,
    namespaces: &Vec<(String, String)>,
    attributes: &Vec<Attribute>,
) -> (r: Result<(), xml::writer::Error>)
    ensures
        r == write_result(
            settings_of(*old(emitter)),
            taken_by(*old(emitter)),
            start_view(name@, attributes@, namespaces@),
        ),
        settings_of(*final(emitter)) == settings_of(*old(emitter)),
        r is Ok ==> taken_by(*final(emitter)) == taken_by(*old(emitter)).push(
            start_view(name@, attributes@, namespaces@),
        ),
{
    let mut element = xml::writer::XmlEvent::start_element(name);
    for (prefix, uri) in namespaces {
        element = element.ns(prefix.as_str(), uri.as_str());
    }
    for attribute in attributes {
        element = element.attr(attribute.name.as_str(), attribute.value.as_str());
    }
    emitter.write(element)
}

/// `EventWriter::write` with the end of the innermost open element, built by
/// `XmlEvent::end_element`. The answer is named as for the start of an element.
#[verifier::external_body]
fn emit_end(emitter: &mut xml::writer::EventWriter<Vec<u8>>) -> (r: Result<(), xml::writer::Error>)
    ensures
        r == write_result(
            settings_of(*old(emitter)),
            taken_by(*old(emitter)),
            WriteEventView::EndElement,
        ),
        settings_of(*final(emitter)) == settings_of(*old(emitter)),
        r is Ok ==> taken_by(*final(emitter)) == taken_by(*old(emitter)).push(
            WriteEventView::EndElement,
        ),
{
    emitter.write(xml::writer::XmlEvent::end_element())
}

/// `EventWriter::write` with character data. The answer is named as for the start of an
/// element.
#[verifier::external_body]
fn emit_characters(emitter: &mut xml::writer::EventWriter<Vec<u8>>, text: &str) -> (r: Result<
    (),
    xml::writer::Error,
>)
    ensures
        r == write_result(
            settings_of(*old(emitter)),
            taken_by(*old(emitter)),
            WriteEventView::Characters(text@),
        ),
        settings_of(*final(emitter)) == settings_of(*old(emitter)),
        r is Ok ==> taken_by(*final(emitter)) == taken_by(*old(emitter)).push(
            WriteEventView::Characters(text@),
        ),
{
    emitter.write(xml::writer::XmlEvent::Characters(text))
}

/// `EventWriter::into_inner`: the buffer, which holds the bytes that the emitter has
/// written for the events it has taken.
#[verifier::external_body]
fn emitted_bytes(emitter: xml::writer::EventWriter<Vec<u8>>) -> (bytes: Vec<u8>)
    ensures
        bytes@ == emitted(settings_of(emitter), taken_by(emitter)),
{
    emitter.into_inner()
}

/// The start of an element as an event.
pub open spec fn start_view(
    name: Seq<char>,
    attributes: Seq<Attribute>,
    namespaces: Seq<(String, String)>,
) -> WriteEventView {
    WriteEventView::StartElement {
        name,
        attributes: attributes_view(attributes),
        namespaces: pairs_view(namespaces),
    }
}

/// What comes of handing the events from `from` on to an emitter with the settings
/// `config` that has taken the events before: the error of the first event that it
/// refuses, or the bytes that it has written for all of them.
pub open spec fn emission(
    config: xml::writer::EmitterConfig,
    events: Seq<WriteEventView>,
    from: int,
) -> Result<Seq<u8>, XmlErrorView>
    decreases events.len() - from,
{
    if from < 0 || from >= events.len() {
        Ok(emitted(config, events))
    } else {
        match write_result(config, events.take(from), events[from]) {
            Ok(()) => emission(config, events, from + 1),
            Err(cause) => Err(XmlErrorView::Writer(cause)),
        }
    }
}

/// Hands the events to the emitter, one after the other, and gives the bytes that it has
/// written for them. The first event that the emitter refuses ends the writing.
pub fn emit_events(config: xml::writer::EmitterConfig, events: &Vec<WriteEvent>) -> (r: Result<
    Vec<u8>,
    XmlError,
>)
    ensures
        outcome(r) == emission(config, events_view(events@), 0),
{
    let mut emitter = create_emitter(config);
    let mut i: usize = 0;
    while i < events.len()
        invariant
            i <= events.len(),
            settings_of(emitter) == config,
            taken_by(emitter) == events_view(events@).take(i as int),
            emission(config, events_view(events@), 0) == emission(
                config,
                events_view(events@),
                i as int,
            ),
        decreases events.len() - i,
    {
        assert(events_view(events@)[i as int] == events@[i as int]@);
        let written = match &events[i] {
            WriteEvent::StartElement { name, attributes, namespaces } => emit_start(
                &mut emitter,
                name.as_str(),
                namespaces,
                attributes,
            ),
            WriteEvent::EndElement => emit_end(&mut emitter),
            WriteEvent::Characters(text) => emit_characters(&mut emitter, text.as_str()),
        };
        if let Err(cause) = written {
            return Err(XmlError::Writer(cause));
        }
        assert(events_view(events@).take(i as int).push(events_view(events@)[i as int])
            =~= events_view(events@).take(i + 1));
        i = i + 1;
    }
    assert(events_view(events@).take(i as int) =~= events_view(events@));
    Ok(emitted_bytes(emitter))
}

} // verus!
