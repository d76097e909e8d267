use crate::de::buffer::{unexpected, unexpected_view, ChildReader, RootReader, Tape};
use crate::de::child::{ChildDeserializer, ChildView};
use crate::de::map::{MapAccess, MapAccessView};
use crate::de::map::names_view;
use crate::de::reader::{Event, EventView};
use crate::error::{outcome, XmlError, XmlErrorView};
use vstd::prelude::*;

verus! {

/// A tagged union among the children of an element: the next event names the variant.
pub struct EnumAccess {
    reader: ChildReader,
}

/// The value of a variant whose tag has been read.
pub struct VariantAccess {
    reader: ChildReader,
    element_name: String,
    text: bool,
}

pub struct VariantAccessView {
    pub cursor: int,
    pub overlapping: bool,
    /// The tag that named the variant.
    pub name: Seq<char>,
    /// Whether the tag was character data rather than the name of an element.
    pub text: bool,
}

impl View for VariantAccess {
    type V = VariantAccessView;

    closed spec fn view(&self) -> VariantAccessView {
        VariantAccessView {
            cursor: self.reader.cursor as int,
            overlapping: self.reader.overlapping_sequences,
            name: self.element_name@,
            text: self.text,
        }
    }
}

impl Tape {
    /// The tag of the variant that a reader at `from` has before it: the name of the element
    /// that starts there, or the character data that stands there.
    pub open spec fn variant_tag(self, from: int) -> Result<(Seq<char>, bool), XmlErrorView> {
        match self.peeked(from) {
            Ok(EventView::StartElement(element)) => Ok((element.qname(), false)),
            Ok(EventView::Text(text)) => Ok((text, true)),
            Ok(event) => Err(unexpected_view("start of element"@, event)),
            Err(error) => Err(error),
        }
    }

    /// What reading a variant without a value gives: an element that is started and ended,
    /// or the character data of the tag.
    pub open spec fn unit_variant(self, from: int, text: bool) -> Result<(), XmlErrorView> {
        if text {
            match self.chars(from) {
                Ok(_) => Ok(()),
                Err(error) => Err(error),
            }
        } else {
            match self.started(from) {
                Ok(_) => self.after_next(from).ended(self.landing(from)),
                Err(error) => Err(error),
            }
        }
    }

    /// The tape after a variant without a value has been read.
    pub open spec fn after_unit_variant(self, from: int, text: bool) -> Tape {
        if text || self.started(from) is Err {
            self.after_next(from)
        } else {
            self.after_next(from).after_next(self.landing(from))
        }
    }

    /// The text that holds the members of a tuple: the character data of the element that
    /// starts at the next event.
    pub open spec fn tuple_text(self, from: int) -> Result<Seq<char>, XmlErrorView> {
        match self.started(from) {
            Ok(_) => self.after_next(from).chars(self.landing(from)),
            Err(error) => Err(error),
        }
    }

    /// The tape after the text of a tuple has been read.
    pub open spec fn after_tuple_text(self, from: int) -> Tape {
        if self.started(from) is Err {
            self.after_next(from)
        } else {
            self.after_next(from).after_next(self.landing(from))
        }
    }
}

impl EnumAccess {
    /// Where the access reads.
    pub closed spec fn cursor(&self) -> int {
        self.reader.cursor as int
    }

    /// Whether sequences under this access look behind siblings of other names.
    pub closed spec fn overlapping(&self) -> bool {
        self.reader.overlapping_sequences
    }

    pub fn new(reader: ChildReader) -> (access: Self)
        ensures
            access.cursor() == reader.cursor,
            access.overlapping() == reader.overlapping_sequences,
    {
        Self { reader }
    }

    /// Reads the tag of the variant, and consumes nothing.
    pub fn variant(self, root: &mut RootReader) -> (r: Result<(String, VariantAccess), XmlError>)
        ensures
            final(root).tape() == old(root).tape().after_peek(self.cursor()),
            final(root).overlapping() == old(root).overlapping(),
            match r {
                Ok((name, access)) => {
                    &&& old(root).tape().variant_tag(self.cursor()) == Ok::<
                        (Seq<char>, bool),
                        XmlErrorView,
                    >((name@, access@.text))
                    &&& access@ == (VariantAccessView {
                        cursor: old(root).tape().landing(self.cursor()),
                        overlapping: self.overlapping(),
                        name: name@,
                        text: access@.text,
                    })
                },
                Err(error) => old(root).tape().variant_tag(self.cursor()) == Err::<
                    (Seq<char>, bool),
                    XmlErrorView,
                >(error@),
            },
    {
        let mut reader = self.reader;
        let tag: Result<(String, bool), XmlError> = match reader.peek(root) {
            Ok(event) => match event {
                Event::StartElement(element) => Ok((element.qname(), false)),
                Event::Text(text) => Ok((text.clone(), true)),
                other => Err(unexpected("start of element", other)),
            },
            Err(error) => Err(error),
        };
        match tag {
            Ok((name, text)) => {
                let element_name = name.clone();
                Ok((name, VariantAccess { reader, element_name, text }))
            },
            Err(error) => Err(error),
        }
    }
}

impl VariantAccess {
    /// Whether the tag was character data rather than the name of an element.
    pub fn is_text(&self) -> (text: bool)
        ensures
            text == self@.text,
    {
        self.text
    }

    /// Reads a variant that carries no value.
    pub fn unit_variant(self, root: &mut RootReader) -> (r: Result<(), XmlError>)
        ensures
            outcome(r) == old(root).tape().unit_variant(self@.cursor, self@.text),
            final(root).tape() == old(root).tape().after_unit_variant(self@.cursor, self@.text),
            final(root).overlapping() == old(root).overlapping(),
    {
        let mut reader = self.reader;
        if self.text {
            match reader.chars(root) {
                Ok(_) => Ok(()),
                Err(error) => Err(error),
            }
        } else {
            match reader.start_element(root) {
                Ok(_) => reader.end_element(root),
                Err(error) => Err(error),
            }
        }
    }

    /// The reader for the value of a variant that carries one value: the content of the
    /// element whose name was the tag.
    pub fn newtype_variant(self) -> (r: Result<ChildDeserializer, XmlError>)
        ensures
            match r {
                Ok(child) => !self@.text && child@ == (ChildView {
                    cursor: self@.cursor,
                    overlapping: self@.overlapping,
                    name: Some(self@.name),
                }),
                Err(error) => self@.text && error@ == XmlErrorView::Unsupported(
                    "newtype variant in text"@,
                ),
            },
    {
        if self.text {
            Err(XmlError::Unsupported("newtype variant in text"))
        } else {
            Ok(ChildDeserializer::new_with_element_name(self.reader, self.element_name))
        }
    }

    /// Consumes the start of the variant's element and its character data, which hold the
    /// members of a tuple.
    pub fn tuple_variant(&mut self, root: &mut RootReader) -> (r: Result<String, XmlError>)
        requires
            !old(self)@.text,
        ensures
            outcome(r) == old(root).tape().tuple_text(old(self)@.cursor),
            final(root).tape() == old(root).tape().after_tuple_text(old(self)@.cursor),
            final(root).overlapping() == old(root).overlapping(),
            final(self)@.overlapping == old(self)@.overlapping,
            r is Ok ==> final(self)@.cursor == old(root).tape().after_next(
                old(self)@.cursor,
            ).landing(old(root).tape().landing(old(self)@.cursor)),
    {
        match self.reader.start_element(root) {
            Ok(_) => self.reader.chars(root),
            Err(error) => Err(error),
        }
    }

    /// Consumes the start of the variant's element and hands out the keys and values that
    /// it holds, for a variant that is a record with the fields `fields`.
    pub fn struct_variant(&mut self, root: &mut RootReader, fields: Vec<String>) -> (r: Result<
        MapAccess,
        XmlError,
    >)
        requires
            !old(self)@.text,
        ensures
            final(root).tape() == old(root).tape().after_next(old(self)@.cursor),
            final(root).overlapping() == old(root).overlapping(),
            final(self)@ == (VariantAccessView {
                cursor: old(root).tape().landing(old(self)@.cursor),
                ..old(self)@
            }),
            match r {
                Ok(map) => {
                    &&& old(root).tape().started(old(self)@.cursor) matches Ok(element)
                    &&& map.well_formed()
                    &&& map@ == (MapAccessView {
                        cursor: final(self)@.cursor,
                        overlapping: old(self)@.overlapping,
                        attributes: element.attributes,
                        fields: names_view(fields@),
                        content: names_view(fields@).contains("#content"@),
                    })
                },
                Err(error) => old(root).tape().started(old(self)@.cursor) == Err::<
                    crate::de::reader::ElementView,
                    XmlErrorView,
                >(error@),
            },
    {
        match self.reader.start_element(root) {
            Ok(element) => Ok(MapAccess::new_struct(self.reader.child(), element.attributes, fields)),
            Err(error) => Err(error),
        }
    }

    /// Consumes the end of the variant's element.
    pub fn end(self, root: &mut RootReader) -> (r: Result<(), XmlError>)
        ensures
            outcome(r) == old(root).tape().ended(self@.cursor),
            final(root).tape() == old(root).tape().after_next(self@.cursor),
            final(root).overlapping() == old(root).overlapping(),
    {
        let mut reader = self.reader;
        reader.end_element(root)
    }
}

} // verus!
