use crate::de::reader::{
    prefix_view, qualified, qualify, Attribute, Element, Event, EventView,
};
use crate::text::text_eq;
use crate::error::{XmlError, XmlErrorView};
use std::collections::VecDeque;
use vstd::prelude::*;
use xml::reader::XmlEvent;

verus! {

#[verifier::external_type_specification]
#[verifier::external_body]
pub struct ExParserConfig(xml::reader::ParserConfig);

/// One event of the tokenizer, with the parts that a reader looks at.
#[derive(Clone, Debug, PartialEq, Eq)]
pub enum RawEvent {
    StartDocument,
    EndDocument,
    ProcessingInstruction,
    StartElement(Element),
    EndElement { prefix: Option<String>, name: String },
    CData(String),
    Comment,
    Characters(String),
    Whitespace,
}

/// The tokenizer of the `xml` crate over a document held in memory.
#[verifier::external_body]
pub struct Tokenizer<'a> {
    inner: xml::reader::EventReader<&'a [u8]>,
}

/// What successive calls of `EventReader::next` on this tokenizer return, up to and
/// including the first result that ends the document.
pub uninterp spec fn pending(tokenizer: Tokenizer) -> Seq<Result<RawEvent, xml::reader::Error>>;

/// What `pending` is of a tokenizer that `ParserConfig::create_reader` has just made over
/// `source`.
pub uninterp spec fn tokens(config: xml::reader::ParserConfig, source: Seq<u8>) -> Seq<
    Result<RawEvent, xml::reader::Error>,
>;

/// The settings that `ParserConfig::new` gives when these five are set on them.
pub uninterp spec fn parser_settings(
    trim_whitespace: bool,
    whitespace_to_characters: bool,
    cdata_to_characters: bool,
    ignore_comments: bool,
    coalesce_characters: bool,
) -> xml::reader::ParserConfig;

/// `ParserConfig::new`, and on its result the setters `trim_whitespace`,
/// `whitespace_to_characters`, `cdata_to_characters`, `ignore_comments` and
/// `coalesce_characters`, each with the flag of its name.
#[verifier::external_body]
pub(crate) fn configure_parser(
    trim_whitespace: bool,
    whitespace_to_characters: bool,
    cdata_to_characters: bool,
    ignore_comments: bool,
    coalesce_characters: bool,
) -> (config: xml::reader::ParserConfig)
    ensures
        config == parser_settings(
            trim_whitespace,
            whitespace_to_characters,
            cdata_to_characters,
            ignore_comments,
            coalesce_characters,
        ),
{
    xml::reader::ParserConfig::new()
        .trim_whitespace(trim_whitespace)
        .whitespace_to_characters(whitespace_to_characters)
        .cdata_to_characters(cdata_to_characters)
        .ignore_comments(ignore_comments)
        .coalesce_characters(coalesce_characters)
}

/// `ParserConfig::create_reader` over a byte slice. Nothing is read yet; what the tokenizer
/// will return is named by `tokens`.
#[verifier::external_body]
fn create_tokenizer<'a>(config: xml::reader::ParserConfig, source: &'a [u8]) -> (tokenizer:
    Tokenizer<'a>)
    ensures
        pending(tokenizer) == tokens(config, source@),
{
    Tokenizer { inner: config.create_reader(source) }
}

/// `EventReader::next`: hands out the first pending result. Once the result is an error or
/// the end of the document, the same result comes again on every later call, as the
/// method's documentation says; every other result is followed by more.
#[verifier::external_body]
fn pull(tokenizer: &mut Tokenizer) -> (r: Result<RawEvent, xml::reader::Error>)
    ensures
        pending(*old(tokenizer)).len() > 0,
        r == pending(*old(tokenizer))[0],
        pending(*old(tokenizer)).len() == 1 <==> (r is Err || r matches Ok(
            RawEvent::EndDocument,
        )),
        pending(*final(tokenizer)) == if pending(*old(tokenizer)).len() == 1 {
            pending(*old(tokenizer))
        } else {
            pending(*old(tokenizer)).skip(1)
        },
{
    Ok(match tokenizer.inner.next()? {
        XmlEvent::StartDocument { .. } => RawEvent::StartDocument,
        XmlEvent::EndDocument => RawEvent::EndDocument,
        XmlEvent::ProcessingInstruction { .. } => RawEvent::ProcessingInstruction,
        XmlEvent::StartElement { name, attributes, .. } => RawEvent::StartElement(Element {
            prefix: name.prefix, name: name.local_name, attributes: attributes.into_iter().map(|a|
                Attribute { prefix: a.name.prefix, name: a.name.local_name, value: a.value }).collect(),
        }),
        XmlEvent::EndElement { name } => RawEvent::EndElement { prefix: name.prefix, name: name.local_name },
        XmlEvent::CData(text) => RawEvent::CData(text),
        XmlEvent::Comment(_) => RawEvent::Comment,
        XmlEvent::Characters(text) => RawEvent::Characters(text),
        XmlEvent::Whitespace(_) => RawEvent::Whitespace,
    })
}

impl<'a> Tokenizer<'a> {
    /// A tokenizer over the bytes of `source`, with the settings of `config`.
    pub fn new(config: xml::reader::ParserConfig, source: &'a str) -> (tokenizer: Self)
        ensures
            pending(tokenizer) == tokens(config, vstd::utf8::encode_utf8(source@)),
    {
        create_tokenizer(config, source.as_bytes())
    }
}

/// The events among `results` that come before the one that ends the document.
pub open spec fn events_before_end(results: Seq<Result<RawEvent, xml::reader::Error>>) -> Seq<
    RawEvent,
>
    decreases results.len(),
{
    if results.len() <= 1 {
        Seq::empty()
    } else {
        match results[0] {
            Ok(event) => seq![event] + events_before_end(results.skip(1)),
            Err(_) => Seq::empty(),
        }
    }
}

/// The error with which `results` end the document, if they end it with one.
pub open spec fn error_at_end(results: Seq<Result<RawEvent, xml::reader::Error>>) -> Option<
    xml::reader::Error,
>
    decreases results.len(),
{
    if results.len() == 0 {
        None
    } else {
        match results[0] {
            Ok(_) => if results.len() == 1 {
                None
            } else {
                error_at_end(results.skip(1))
            },
            Err(error) => Some(error),
        }
    }
}

/// The event that a reader sees in place of a tokenizer event, if it sees one at all: the
/// start and the end of the document's prologue, processing instructions, comments and runs
/// of whitespace are passed over.
pub open spec fn logical(raw: RawEvent) -> Option<EventView> {
    match raw {
        RawEvent::StartElement(element) => Some(EventView::StartElement(element@)),
        RawEvent::EndElement { .. } => Some(EventView::EndElement),
        RawEvent::Characters(text) => Some(EventView::Text(text@)),
        RawEvent::CData(text) => Some(EventView::Text(text@)),
        RawEvent::EndDocument => Some(EventView::Eof),
        _ => None,
    }
}

/// The error for a closing tag that does not carry the name of the element that is open.
pub open spec fn end_tag_mismatch(expected: Seq<char>, found: Seq<char>) -> XmlErrorView {
    XmlErrorView::EndTagMismatch { expected, found }
}

/// The names of the elements that are open behind a tokenizer event, given those that
/// were open before it.
pub open spec fn open_behind(raw: RawEvent, open: Seq<Seq<char>>) -> Seq<Seq<char>> {
    match raw {
        RawEvent::StartElement(element) => open.push(element@.qname()),
        RawEvent::EndElement { .. } => if open.len() > 0 {
            open.drop_last()
        } else {
            open
        },
        _ => open,
    }
}

/// Whether a tokenizer event is a closing tag that does not carry the name of the
/// innermost element that is open. A closing tag that comes when nothing is open is let
/// pass.
pub open spec fn mismatched(raw: RawEvent, open: Seq<Seq<char>>) -> bool {
    raw matches RawEvent::EndElement { prefix, name } && open.len() > 0 && open.last()
        != qualified(prefix_view(prefix), name@)
}

/// The events that a reader sees of `raw`, in order, up to the first closing tag that does
/// not match; `open` holds the names of the elements that are open at the beginning.
pub open spec fn significant(raw: Seq<RawEvent>, open: Seq<Seq<char>>) -> Seq<EventView>
    decreases raw.len(),
{
    if raw.len() == 0 || mismatched(raw[0], open) {
        Seq::empty()
    } else {
        match logical(raw[0]) {
            Some(event) => seq![event] + significant(raw.skip(1), open_behind(raw[0], open)),
            None => significant(raw.skip(1), open_behind(raw[0], open)),
        }
    }
}

/// The error for the first closing tag of `raw` that does not match, if there is one.
pub open spec fn mismatch(raw: Seq<RawEvent>, open: Seq<Seq<char>>) -> Option<XmlErrorView>
    decreases raw.len(),
{
    if raw.len() == 0 {
        None
    } else if mismatched(raw[0], open) {
        Some(
            end_tag_mismatch(
                open.last(),
                qualified(prefix_view(raw[0]->EndElement_prefix), raw[0]->EndElement_name@),
            ),
        )
    } else {
        mismatch(raw.skip(1), open_behind(raw[0], open))
    }
}

/// The error with which a reader's events end: that of the first closing tag that does not
/// match, or else that of the tokenizer.
pub open spec fn ending(
    raw: Seq<RawEvent>,
    open: Seq<Seq<char>>,
    failure: Option<xml::reader::Error>,
) -> Option<XmlErrorView> {
    match mismatch(raw, open) {
        Some(error) => Some(error),
        None => match failure {
            Some(cause) => Some(XmlErrorView::Reader(cause)),
            None => None,
        },
    }
}

/// The names as sequences of characters.
pub open spec fn open_view(open: Seq<String>) -> Seq<Seq<char>> {
    open.map_values(|name: String| name@)
}

/// Where the events of a document come from: a tokenizer, or a list of events that were
/// prepared beforehand, or the list first and then the tokenizer. The source checks that
/// each closing tag carries the name of the element that it closes.
pub struct EventSource<'a> {
    replay: VecDeque<RawEvent>,
    tokenizer: Option<Tokenizer<'a>>,
    open: Vec<String>,
    failed: Option<(String, String)>,
}

impl<'a> EventSource<'a> {
    /// The tokenizer events that are still to come before the document ends.
    pub closed spec fn upcoming(&self) -> Seq<RawEvent> {
        self.replay@ + match self.tokenizer {
            Some(tokenizer) => events_before_end(pending(tokenizer)),
            None => Seq::empty(),
        }
    }

    /// The error with which the tokenizer ends the document, if it ends it with one.
    pub closed spec fn tokenizer_failure(&self) -> Option<xml::reader::Error> {
        match self.tokenizer {
            Some(tokenizer) => error_at_end(pending(tokenizer)),
            None => None,
        }
    }

    /// The events that a reader will see before the document ends.
    pub closed spec fn events(&self) -> Seq<EventView> {
        if self.failed is Some {
            Seq::empty()
        } else {
            significant(self.upcoming(), open_view(self.open@))
        }
    }

    /// The error with which the events end, if they end with one.
    pub closed spec fn failure(&self) -> Option<XmlErrorView> {
        match self.failed {
            Some((expected, found)) => Some(end_tag_mismatch(expected@, found@)),
            None => ending(self.upcoming(), open_view(self.open@), self.tokenizer_failure()),
        }
    }

    /// A source that draws on a tokenizer.
    pub fn new(tokenizer: Tokenizer<'a>) -> (source: Self)
        ensures
            source.events() == significant(events_before_end(pending(tokenizer)), Seq::empty()),
            source.failure() == ending(
                events_before_end(pending(tokenizer)),
                Seq::empty(),
                error_at_end(pending(tokenizer)),
            ),
    {
        let source = EventSource {
            replay: VecDeque::new(),
            tokenizer: Some(tokenizer),
            open: Vec::new(),
            failed: None,
        };
        assert(open_view(source.open@) =~= Seq::empty());
        assert(source.upcoming() =~= events_before_end(pending(tokenizer)));
        source
    }

    /// A source that hands out `events` and then reports the end of the document for ever.
    pub fn replaying(events: Vec<RawEvent>) -> (source: Self)
        ensures
            source.events() == significant(events@, Seq::empty()),
            source.failure() == ending(events@, Seq::empty(), None),
    {
        let mut events = events;
        let ghost all = events@;
        let mut replay: VecDeque<RawEvent> = VecDeque::new();
        while events.len() > 0
            invariant
                events@ + replay@ == all,
            decreases events.len(),
        {
            let ghost before = events@;
            let last = events.pop().unwrap();
            assert(before == events@.push(last));
            replay.push_front(last);
            assert(events@ + replay@ =~= all);
        }
        assert(replay@ =~= all);
        let source = EventSource { replay, tokenizer: None, open: Vec::new(), failed: None };
        assert(open_view(source.open@) =~= Seq::empty());
        assert(source.upcoming() =~= all);
        source
    }

    /// The next event of the tokenizer, whatever its kind.
    fn next_raw(&mut self) -> (r: Result<RawEvent, xml::reader::Error>)
        ensures
            final(self).tokenizer_failure() == old(self).tokenizer_failure(),
            final(self).open == old(self).open,
            final(self).failed == old(self).failed,
            match r {
                Ok(event) => if old(self).upcoming().len() > 0 {
                    &&& event == old(self).upcoming()[0]
                    &&& final(self).upcoming() == old(self).upcoming().skip(1)
                } else {
                    &&& event is EndDocument
                    &&& old(self).tokenizer_failure() is None
                    &&& final(self).upcoming() == old(self).upcoming()
                },
                Err(error) => {
                    &&& old(self).upcoming().len() == 0
                    &&& old(self).tokenizer_failure() == Some(error)
                    &&& final(self).upcoming() == old(self).upcoming()
                },
            },
    {
        match self.replay.pop_front() {
            Some(event) => {
                assert(self.upcoming() =~= old(self).upcoming().skip(1));
                Ok(event)
            },
            None => match &mut self.tokenizer {
                Some(tokenizer) => {
                    let ghost before = pending(*tokenizer);
                    let r = pull(tokenizer);
                    proof {
                        if before.len() > 1 {
                            assert(events_before_end(before) =~= seq![r->Ok_0] + events_before_end(
                                before.skip(1),
                            ));
                            assert((seq![r->Ok_0] + events_before_end(before.skip(1))).skip(1)
                                =~= events_before_end(before.skip(1)));
                        }
                    }
                    r
                },
                None => Ok(RawEvent::EndDocument),
            },
        }
    }

    /// The next event that matters to a reader. Once the document has ended, the end of
    /// input comes again on every call, or the error with which it ended.
    pub fn next(&mut self) -> (r: Result<Event, XmlError>)
        ensures
            final(self).failure() == old(self).failure(),
            match r {
                Ok(event) => if old(self).events().len() > 0 {
                    &&& event@ == old(self).events()[0]
                    &&& final(self).events() == old(self).events().skip(1)
                } else {
                    &&& event is Eof
                    &&& old(self).failure() is None
                    &&& final(self).events().len() == 0
                },
                Err(error) => {
                    &&& old(self).events().len() == 0
                    &&& old(self).failure() == Some(error@)
                    &&& final(self).events().len() == 0
                },
            },
    {
        if let Some((expected, found)) = &self.failed {
            return Err(
                XmlError::EndTagMismatch { expected: expected.clone(), found: found.clone() },
            );
        }
        loop
            invariant
                self.failed is None,
                self.failure() == old(self).failure(),
                self.events() == old(self).events(),
            decreases self.upcoming().len(),
        {
            let ghost before = self.upcoming();
            let ghost open = open_view(self.open@);
            match self.next_raw() {
                Ok(raw) => {
                    proof {
                        if before.len() > 0 {
                            assert(raw == before[0]);
                        } else {
                            assert(significant(before, open) =~= Seq::empty());
                            assert(mismatch(before, open) is None);
                        }
                    }
                    match raw {
                        RawEvent::StartElement(element) => {
                            self.open.push(element.qname());
                            proof {
                                assert(open_view(self.open@) =~= open.push(element@.qname()));
                                if before.len() > 0 {
                                    assert((seq![EventView::StartElement(element@)] + significant(
                                        before.skip(1),
                                        open_behind(raw, open),
                                    )).skip(1) =~= significant(
                                        before.skip(1),
                                        open_behind(raw, open),
                                    ));
                                }
                            }
                            return Ok(Event::StartElement(element));
                        },
                        RawEvent::EndElement { prefix, name } => {
                            let closed = qualify(&prefix, &name);
                            match self.open.pop() {
                                Some(expected) => {
                                    proof {
                                        assert(open_view(self.open@) =~= open.drop_last());
                                        assert(open.last() == expected@);
                                    }
                                    if !text_eq(expected.as_str(), closed.as_str()) {
                                        self.failed = Some((expected.clone(), closed.clone()));
                                        return Err(
                                            XmlError::EndTagMismatch { expected, found: closed },
                                        );
                                    }
                                },
                                None => {
                                    assert(open_view(self.open@) =~= open);
                                },
                            }
                            proof {
                                if before.len() > 0 {
                                    assert((seq![EventView::EndElement] + significant(
                                        before.skip(1),
                                        open_behind(raw, open),
                                    )).skip(1) =~= significant(
                                        before.skip(1),
                                        open_behind(raw, open),
                                    ));
                                }
                            }
                            return Ok(Event::EndElement);
                        },
                        RawEvent::Characters(text) => {
                            proof {
                                if before.len() > 0 {
                                    assert((seq![EventView::Text(text@)] + significant(
                                        before.skip(1),
                                        open_behind(raw, open),
                                    )).skip(1) =~= significant(
                                        before.skip(1),
                                        open_behind(raw, open),
                                    ));
                                }
                            }
                            return Ok(Event::Text(text));
                        },
                        RawEvent::CData(text) => {
                            proof {
                                if before.len() > 0 {
                                    assert((seq![EventView::Text(text@)] + significant(
                                        before.skip(1),
                                        open_behind(raw, open),
                                    )).skip(1) =~= significant(
                                        before.skip(1),
                                        open_behind(raw, open),
                                    ));
                                }
                            }
                            return Ok(Event::Text(text));
                        },
                        RawEvent::EndDocument => {
                            proof {
                                if before.len() > 0 {
                                    assert((seq![EventView::Eof] + significant(
                                        before.skip(1),
                                        open_behind(raw, open),
                                    )).skip(1) =~= significant(
                                        before.skip(1),
                                        open_behind(raw, open),
                                    ));
                                }
                            }
                            return Ok(Event::Eof);
                        },
                        _ => {},
                    }
                },
                Err(cause) => {
                    proof {
                        assert(significant(before, open) =~= Seq::empty());
                        assert(mismatch(before, open) is None);
                    }
                    return Err(XmlError::Reader(cause));
                },
            }
        }
    }
}

} // verus!
