use crate::de::buffer::{ChildReader, RootReader, Tape};
use crate::de::reader::{prefix_view, Event, EventView};
use crate::error::{outcome, XmlError, XmlErrorView};
use vstd::prelude::*;

verus! {

/// A reader for one value among the children of an element. With an element name, the value
/// is the content of one element, whose tags the reader consumes around it; without one,
/// the value begins at the reader's next event.
#[derive(Debug)]
pub struct ChildDeserializer {
    pub reader: ChildReader,
    pub element_name: Option<String>,
}

/// What stands before a reader of an optional value.
enum Next {
    /// The start of an element without attributes.
    BareStart,
    /// The start of an element with attributes.
    Start,
    /// The end of an element.
    End,
    /// Anything else.
    Other,
}

pub struct ChildView {
    pub cursor: int,
    pub overlapping: bool,
    pub name: Option<Seq<char>>,
}

impl View for ChildDeserializer {
    type V = ChildView;

    open spec fn view(&self) -> ChildView {
        ChildView {
            cursor: self.reader.cursor as int,
            overlapping: self.reader.overlapping_sequences,
            name: prefix_view(self.element_name),
        }
    }
}

impl Tape {
    /// What the opening tag of a value gives: where the value has an element of its own,
    /// the next event is consumed as the start of it.
    pub open spec fn opened(self, from: int, named: bool) -> Result<(), XmlErrorView> {
        if named {
            match self.started(from) {
                Ok(_) => Ok(()),
                Err(error) => Err(error),
            }
        } else {
            Ok(())
        }
    }

    /// What the closing tag of a value gives: where the value has an element of its own,
    /// the next event is consumed as the end of it.
    pub open spec fn closed(self, from: int, named: bool) -> Result<(), XmlErrorView> {
        if named {
            self.ended(from)
        } else {
            Ok(())
        }
    }

    /// The tape after the opening or the closing tag of a value.
    pub open spec fn after_tag(self, from: int, named: bool) -> Tape {
        if named {
            self.after_next(from)
        } else {
            self
        }
    }

    /// What a reader of an optional value finds at `from`: whether a value is present, the
    /// tape that the look leaves, and where the reader stands. A value that has an element
    /// of its own is present where that element starts next and is not empty; an empty
    /// element, without attributes and without content, is consumed and stands for the
    /// absent value. A value without an element of its own is absent only where the
    /// element around it ends.
    pub open spec fn presence(self, from: int, named: bool) -> (
        Result<bool, XmlErrorView>,
        Tape,
        int,
    ) {
        match self.peeked(from) {
            Ok(event) => {
                let seen = self.after_peek(from);
                let at = self.landing(from);
                if named {
                    if event is StartElement {
                        let looked = seen.after_peek(at + 1);
                        if self.empty_element(from) {
                            let inside = looked.after_next(at);
                            let behind = looked.landing(at);
                            match looked.started(at) {
                                Ok(_) => match inside.ended(behind) {
                                    Ok(()) => (
                                        Ok(false),
                                        inside.after_next(behind),
                                        inside.landing(behind),
                                    ),
                                    Err(error) => (
                                        Err(error),
                                        inside.after_next(behind),
                                        inside.landing(behind),
                                    ),
                                },
                                Err(error) => (Err(error), inside, behind),
                            }
                        } else {
                            (Ok(true), looked, at)
                        }
                    } else {
                        (Ok(false), seen, at)
                    }
                } else {
                    (Ok(!(event is EndElement)), seen, at)
                }
            },
            Err(error) => (Err(error), self, self.landing(from)),
        }
    }

    /// Where the reader stands after the opening or the closing tag of a value.
    pub open spec fn behind_tag(self, from: int, named: bool) -> int {
        if named {
            self.landing(from)
        } else {
            from
        }
    }
}

impl ChildDeserializer {
    /// A reader for a value that begins at the next event of `reader`.
    pub fn new(reader: ChildReader) -> (child: Self)
        ensures
            child.reader == reader,
            child.element_name is None,
    {
        Self { reader, element_name: None }
    }

    /// A reader for a value that is the content of the next element of `reader`.
    pub fn new_with_element_name(reader: ChildReader, element_name: String) -> (child: Self)
        ensures
            child.reader == reader,
            child.element_name == Some(element_name),
    {
        Self { reader, element_name: Some(element_name) }
    }

    /// Consumes the start of the value's element, if it has one of its own.
    pub fn maybe_start_element(&mut self, root: &mut RootReader) -> (r: Result<(), XmlError>)
        ensures
            outcome(r) == old(root).tape().opened(old(self)@.cursor, old(self)@.name is Some),
            final(root).tape() == old(root).tape().after_tag(
                old(self)@.cursor,
                old(self)@.name is Some,
            ),
            final(root).overlapping() == old(root).overlapping(),
            final(self)@ == (ChildView {
                cursor: old(root).tape().behind_tag(old(self)@.cursor, old(self)@.name is Some),
                ..old(self)@
            }),
            final(self).element_name == old(self).element_name,
    {
        if self.element_name.is_some() {
            match self.reader.start_element(root) {
                Ok(_) => Ok(()),
                Err(error) => Err(error),
            }
        } else {
            Ok(())
        }
    }

    /// Looks whether the optional value that the reader has before it is present. An empty
    /// element that stands for the absent value is consumed.
    pub fn optional(&mut self, root: &mut RootReader) -> (r: Result<bool, XmlError>)
        ensures
            (outcome(r), final(root).tape(), final(self)@.cursor) == old(root).tape().presence(
                old(self)@.cursor,
                old(self)@.name is Some,
            ),
            final(root).overlapping() == old(root).overlapping(),
            final(self)@.overlapping == old(self)@.overlapping,
            final(self).element_name == old(self).element_name,
    {
        let named = self.element_name.is_some();
        let next = match self.reader.peek(root) {
            Ok(event) => match event {
                Event::StartElement(element) => if element.attributes.len() == 0 {
                    Next::BareStart
                } else {
                    Next::Start
                },
                Event::EndElement => Next::End,
                _ => Next::Other,
            },
            Err(error) => {
                return Err(error);
            },
        };
        if !named {
            return Ok(
                match next {
                    Next::End => false,
                    _ => true,
                },
            );
        }
        let bare = match next {
            Next::BareStart => true,
            Next::Start => false,
            _ => {
                return Ok(false);
            },
        };
        let mut ahead = ChildReader {
            cursor: self.reader.cursor + 1,
            overlapping_sequences: self.reader.overlapping_sequences,
        };
        let closes = match ahead.peek(root) {
            Ok(event) => match event {
                Event::EndElement => true,
                _ => false,
            },
            Err(_) => false,
        };
        if !(bare && closes) {
            return Ok(true);
        }
        if let Err(error) = self.reader.start_element(root) {
            return Err(error);
        }
        match self.reader.end_element(root) {
            Ok(()) => Ok(false),
            Err(error) => Err(error),
        }
    }

    /// Consumes the end of the value's element, if it has one of its own.
    pub fn maybe_end_element(&mut self, root: &mut RootReader) -> (r: Result<(), XmlError>)
        ensures
            outcome(r) == old(root).tape().closed(old(self)@.cursor, old(self)@.name is Some),
            final(root).tape() == old(root).tape().after_tag(
                old(self)@.cursor,
                old(self)@.name is Some,
            ),
            final(root).overlapping() == old(root).overlapping(),
            final(self)@ == (ChildView {
                cursor: old(root).tape().behind_tag(old(self)@.cursor, old(self)@.name is Some),
                ..old(self)@
            }),
            final(self).element_name == old(self).element_name,
    {
        if self.element_name.is_some() {
            self.reader.end_element(root)
        } else {
            Ok(())
        }
    }
}

} // verus!
