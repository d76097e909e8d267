use crate::de::reader::prefix_view;
use crate::ser::child::{ChildSerializer, ChildSerializerView};
use vstd::prelude::*;

verus! {

/// The writer of a sequence whose members are elements: each member is written as an
/// element of the same name, or, without a name, as it writes itself.
#[derive(Debug)]
pub struct SequenceSerializer {
    element_name: Option<String>,
}

impl SequenceSerializer {
    /// The name that each member's element gets.
    pub closed spec fn name(&self) -> Option<Seq<char>> {
        prefix_view(self.element_name)
    }

    pub fn new(element_name: Option<String>) -> (sequence: Self)
        ensures
            sequence.name() == prefix_view(element_name),
    {
        Self { element_name }
    }

    /// The writer for the next member.
    pub fn serialize_element(&self) -> (child: ChildSerializer)
        ensures
            child@ == (ChildSerializerView { name: self.name(), newtype: false }),
    {
        ChildSerializer::new(self.element_name.clone())
    }
}

} // verus!
