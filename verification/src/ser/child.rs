use crate::de::reader::prefix_view;
use crate::ser::writer::Writer;
use vstd::prelude::*;

verus! {

/// The writer of one value among the children of an element. With an element name the
/// value gets an element of its own; without one it is written where the writer stands.
#[derive(Debug)]
pub struct ChildSerializer {
    pub element_name: Option<String>,
    pub newtype_struct: bool,
}

pub struct ChildSerializerView {
    pub name: Option<Seq<char>>,
    /// Whether the value stands inside a newtype, which gives it the element.
    pub newtype: bool,
}

impl View for ChildSerializer {
    type V = ChildSerializerView;

    open spec fn view(&self) -> ChildSerializerView {
        ChildSerializerView { name: prefix_view(self.element_name), newtype: self.newtype_struct }
    }
}

impl ChildSerializer {
    pub fn new(element_name: Option<String>) -> (child: Self)
        ensures
            child.element_name == element_name,
            !child.newtype_struct,
    {
        Self { element_name, newtype_struct: false }
    }

    /// The writer for the value inside a newtype, whose element carries `element_name`.
    pub fn for_newtype_struct(element_name: String) -> (child: Self)
        ensures
            child.element_name == Some(element_name),
            child.newtype_struct,
    {
        Self { element_name: Some(element_name), newtype_struct: true }
    }

    /// Writes the opening tag of the value, if it has an element of its own, and says
    /// whether it has.
    pub fn maybe_start_element(&self, writer: &mut Writer) -> (started: bool)
        ensures
            started == (self@.name is Some),
            final(writer)@ == old(writer)@.maybe_start(self@.name),
    {
        writer.maybe_start_element(&self.element_name);
        self.element_name.is_some()
    }

    /// Writes the closing tag of the value, if it has an element of its own.
    pub fn maybe_end_element(&self, writer: &mut Writer)
        ensures
            final(writer)@ == old(writer)@.maybe_end(self@.name),
    {
        writer.maybe_end_element(&self.element_name);
    }
}

} // verus!
