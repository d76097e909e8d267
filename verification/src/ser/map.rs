use crate::de::reader::prefix_view;
use crate::error::{XmlError, XmlErrorView};
use crate::ser::writer::{attributes_view, Attribute, Writer, WriterView};
use crate::text::text_eq;
use vstd::prelude::*;

verus! {

/// The writer of a record. The opening tag of the record's element waits until the first
/// field that is no attribute, or the end of the record, so that it can carry the
/// attributes; once it is written, no attribute can follow.
pub struct StructSerializer {
    name: String,
    parent_name: Option<String>,
    attributes: Vec<Attribute>,
    parent_element_written: bool,
    start_element_written: bool,
}

pub struct StructSerializerView {
    /// The name of the record's element.
    pub name: Seq<char>,
    /// The name of the element that is written around the record's own, if there is one.
    pub parent: Option<Seq<char>>,
    /// The attributes that wait for the opening tag.
    pub attributes: Seq<(Seq<char>, Seq<char>)>,
    pub parent_written: bool,
    pub start_written: bool,
}

/// Where a field of a record goes.
#[derive(Debug)]
pub enum FieldSlot {
    /// Onto the opening tag, as the attribute of this name.
    Attribute(String),
    /// Into the character data of the record's element.
    Text,
    /// Among the children of the record's element, without an element of its own.
    Content,
    /// Into a child element of this name.
    Element(String),
}

pub enum FieldSlotView {
    Attribute(Seq<char>),
    Text,
    Content,
    Element(Seq<char>),
}

impl View for FieldSlot {
    type V = FieldSlotView;

    open spec fn view(&self) -> FieldSlotView {
        match self {
            FieldSlot::Attribute(name) => FieldSlotView::Attribute(name@),
            FieldSlot::Text => FieldSlotView::Text,
            FieldSlot::Content => FieldSlotView::Content,
            FieldSlot::Element(name) => FieldSlotView::Element(name@),
        }
    }
}

/// Whether a key names an attribute.
pub open spec fn is_attribute_key(key: Seq<char>) -> bool {
    key.len() > 0 && key[0] == '@'
}

/// Where the field under `key` goes.
pub open spec fn slot_of(key: Seq<char>) -> FieldSlotView {
    if is_attribute_key(key) {
        FieldSlotView::Attribute(key.skip(1))
    } else if key == "#text"@ {
        FieldSlotView::Text
    } else if key == "#content"@ {
        FieldSlotView::Content
    } else {
        FieldSlotView::Element(key)
    }
}

/// The error for an attribute that comes when the opening tag has been written.
pub open spec fn attribute_too_late(element_name: Seq<char>, key: Seq<char>) -> XmlErrorView {
    XmlErrorView::AttributesMustComeBeforeElements { element_name, attribute_name: key }
}

impl StructSerializerView {
    /// Whether the record is in a state that its own operations leave it in: its opening
    /// tag is not written before that of the element around it.
    pub open spec fn valid(self) -> bool {
        self.start_written ==> self.parent is None || self.parent_written
    }

    /// The record after the element around it has been opened, if it has one.
    pub open spec fn with_parent(self) -> StructSerializerView {
        StructSerializerView { parent_written: self.parent_written || self.parent is Some, ..self }
    }

    /// The record after its own element has been opened: the attributes that waited for
    /// the opening tag are on it.
    pub open spec fn with_start(self) -> StructSerializerView {
        StructSerializerView {
            start_written: true,
            attributes: if self.start_written {
                self.attributes
            } else {
                Seq::empty()
            },
            ..self.with_parent()
        }
    }

    /// The writer after the element around the record has been opened, if it has one and
    /// it was not open yet.
    pub open spec fn parent_opened(self, writer: WriterView) -> WriterView {
        match self.parent {
            Some(parent) => if self.parent_written {
                writer
            } else {
                writer.start(parent, Seq::empty())
            },
            None => writer,
        }
    }

    /// The writer after the record's own element has been opened with the attributes that
    /// waited for it, if it was not open yet.
    pub open spec fn start_opened(self, writer: WriterView) -> WriterView {
        let around = self.parent_opened(writer);
        if self.start_written {
            around
        } else {
            around.start(self.name, self.attributes)
        }
    }

    /// Whether the field under `key` can still be written.
    pub open spec fn takes(self, key: Seq<char>) -> bool {
        !(is_attribute_key(key) && self.start_written)
    }

    /// The record after a field under `key` has been begun.
    pub open spec fn begun(self, key: Seq<char>) -> StructSerializerView {
        if is_attribute_key(key) {
            self.with_parent()
        } else {
            self.with_start()
        }
    }

    /// The writer after a field under `key` has been begun.
    pub open spec fn begun_writer(self, writer: WriterView, key: Seq<char>) -> WriterView {
        if is_attribute_key(key) {
            self.parent_opened(writer)
        } else {
            self.start_opened(writer)
        }
    }

    /// The writer after the record has been ended: its element is opened if it was not,
    /// and closed, and so is the element around it.
    pub open spec fn ended(self, writer: WriterView) -> WriterView {
        let closed = self.start_opened(writer).end();
        if self.parent is Some {
            closed.end()
        } else {
            closed
        }
    }
}

impl View for StructSerializer {
    type V = StructSerializerView;

    closed spec fn view(&self) -> StructSerializerView {
        StructSerializerView {
            name: self.name@,
            parent: prefix_view(self.parent_name),
            attributes: attributes_view(self.attributes@),
            parent_written: self.parent_element_written,
            start_written: self.start_element_written,
        }
    }
}

impl StructSerializer {
    /// Whether the record is in a state that its own operations leave it in.
    pub open spec fn well_formed(&self) -> bool {
        self@.valid()
    }

    /// The writer of a record whose element is called `name`.
    pub fn new(name: String) -> (record: Self)
        ensures
            record.well_formed(),
            record@ == (StructSerializerView {
                name: name@,
                parent: None,
                attributes: Seq::empty(),
                parent_written: false,
                start_written: false,
            }),
    {
        Self::new_variant(None, name)
    }

    /// The writer of a variant that is a record: its element is called `name`, and where
    /// `parent_name` is given, an element of that name is written around it.
    pub fn new_variant(parent_name: Option<String>, name: String) -> (record: Self)
        ensures
            record.well_formed(),
            record@ == (StructSerializerView {
                name: name@,
                parent: prefix_view(parent_name),
                attributes: Seq::empty(),
                parent_written: false,
                start_written: false,
            }),
    {
        let record = Self {
            name,
            parent_name,
            attributes: Vec::new(),
            parent_element_written: false,
            start_element_written: false,
        };
        assert(record@.attributes =~= Seq::empty());
        record
    }

    fn ensure_parent_element_written(&mut self, writer: &mut Writer)
        ensures
            final(self)@ == old(self)@.with_parent(),
            final(writer)@ == old(self)@.parent_opened(old(writer)@),
    {
        if let Some(parent_name) = &self.parent_name {
            if !self.parent_element_written {
                writer.start_element(parent_name.as_str());
                self.parent_element_written = true;
            }
        }
    }

    fn ensure_start_element_written(&mut self, writer: &mut Writer)
        requires
            old(self)@.parent is Some ==> old(self)@.parent_written,
        ensures
            final(self)@ == old(self)@.with_start(),
            final(writer)@ == old(self)@.start_opened(old(writer)@),
    {
        if !self.start_element_written {
            let mut attributes: Vec<Attribute> = Vec::new();
            std::mem::swap(&mut attributes, &mut self.attributes);
            writer.start_element_with_attributes(self.name.as_str(), attributes);
            self.start_element_written = true;
            assert(self@.attributes =~= Seq::empty());
        }
    }

    /// Begins the field under `key`, and says where it goes. An attribute that comes when
    /// the opening tag has been written is refused: nothing is written for it, and the
    /// record stays as it was. An attribute that comes before waits for the opening tag.
    /// Any other field has the opening tag written before it, with the attributes that
    /// were held back for it.
    pub fn begin_field(&mut self, writer: &mut Writer, key: &str) -> (r: Result<
        FieldSlot,
        XmlError,
    >)
        requires
            old(self).well_formed(),
        ensures
            final(self).well_formed(),
            match r {
                Ok(slot) => {
                    &&& old(self)@.takes(key@)
                    &&& slot@ == slot_of(key@)
                    &&& final(self)@ == old(self)@.with_parent().begun(key@)
                    &&& final(writer)@ == old(self)@.begun_writer(old(writer)@, key@)
                },
                Err(error) => {
                    &&& !old(self)@.takes(key@)
                    &&& error@ == attribute_too_late(old(self)@.name, key@)
                    &&& final(self)@ == old(self)@
                    &&& final(writer)@ == old(writer)@
                },
            },
    {
        self.ensure_parent_element_written(writer);
        let len = key.unicode_len();
        if len > 0 && key.get_char(0) == '@' {
            if self.start_element_written {
                Err(
                    XmlError::AttributesMustComeBeforeElements {
                        element_name: self.name.clone(),
                        attribute_name: key.to_owned(),
                    },
                )
            } else {
                Ok(FieldSlot::Attribute(key.substring_char(1, len).to_owned()))
            }
        } else {
            self.ensure_start_element_written(writer);
            if text_eq(key, "#text") {
                Ok(FieldSlot::Text)
            } else if text_eq(key, "#content") {
                Ok(FieldSlot::Content)
            } else {
                Ok(FieldSlot::Element(key.to_owned()))
            }
        }
    }

    /// Holds an attribute back for the opening tag.
    pub fn push_attribute(&mut self, name: String, value: String)
        ensures
            final(self).well_formed() == old(self).well_formed(),
            final(self)@ == (StructSerializerView {
                attributes: old(self)@.attributes.push((name@, value@)),
                ..old(self)@
            }),
    {
        self.attributes.push(Attribute { name, value });
        assert(self@.attributes =~= old(self)@.attributes.push((name@, value@)));
    }

    /// Ends the record: writes its opening tag if that is still to come, and closes it, and
    /// the element around it.
    pub fn end(self, writer: &mut Writer)
        ensures
            final(writer)@ == self@.ended(old(writer)@),
    {
        let mut record = self;
        record.ensure_parent_element_written(writer);
        record.ensure_start_element_written(writer);
        writer.end_element();
        if record.parent_name.is_some() {
            writer.end_element();
        }
    }
}

/// The writer of a map: each entry is written as an element that is called as the key
/// says, or, under the key `#text`, as character data.
#[derive(Debug)]
pub struct MapSerializer {
    element_name: String,
    should_end_element: bool,
}

impl MapSerializer {
    /// The key that waits for its value.
    pub closed spec fn key(&self) -> Seq<char> {
        self.element_name@
    }

    /// Whether the map has an element of its own, which is closed with it.
    pub closed spec fn ends_element(&self) -> bool {
        self.should_end_element
    }

    pub fn new(should_end_element: bool) -> (map: Self)
        ensures
            map.key() == Seq::<char>::empty(),
            map.ends_element() == should_end_element,
    {
        Self { element_name: String::new(), should_end_element }
    }

    /// Takes the key of the next entry.
    pub fn serialize_key(&mut self, key: String)
        ensures
            final(self).key() == key@,
            final(self).ends_element() == old(self).ends_element(),
    {
        self.element_name = key;
    }

    /// Says where the value of the entry goes, and forgets the key: into character data
    /// for the key `#text`, into an element of the key's name for any other.
    pub fn serialize_value(&mut self) -> (name: Option<String>)
        ensures
            final(self).key() == Seq::<char>::empty(),
            final(self).ends_element() == old(self).ends_element(),
            match name {
                Some(name) => name@ == old(self).key() && old(self).key() != "#text"@,
                None => old(self).key() == "#text"@,
            },
    {
        let mut name = String::new();
        std::mem::swap(&mut name, &mut self.element_name);
        if text_eq(name.as_str(), "#text") {
            None
        } else {
            Some(name)
        }
    }

    /// Closes the map's element, if it has one of its own.
    pub fn end(self, writer: &mut Writer)
        ensures
            final(writer)@ == if self.ends_element() {
                old(writer)@.end()
            } else {
                old(writer)@
            },
    {
        if self.should_end_element {
            writer.end_element();
        }
    }
}

} // verus!
