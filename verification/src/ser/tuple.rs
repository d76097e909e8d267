use crate::ser::plain::{joined, PlainTextSeqSerializer};
use crate::ser::writer::{Writer, WriterView};
use vstd::prelude::*;

verus! {

/// The writer of a tuple: its members are written as one run of character data, a single
/// space between each two of them.
pub struct TupleSerializer {
    buffer: PlainTextSeqSerializer,
    should_end_element: bool,
}

impl TupleSerializer {
    /// The texts of the members that have been written so far.
    pub closed spec fn words(&self) -> Seq<Seq<char>> {
        self.buffer.words()
    }

    /// Whether the tuple has an element of its own, which is closed with it.
    pub closed spec fn ends_element(&self) -> bool {
        self.should_end_element
    }

    pub fn new(should_end_element: bool) -> (tuple: Self)
        ensures
            tuple.words() == Seq::<Seq<char>>::empty(),
            tuple.ends_element() == should_end_element,
    {
        Self { buffer: PlainTextSeqSerializer::new(), should_end_element }
    }

    /// Takes the text of the next member; a member that is absent leaves no trace.
    pub fn serialize_element(&mut self, text: Option<String>)
        ensures
            final(self).ends_element() == old(self).ends_element(),
            final(self).words() == match text {
                Some(word) => old(self).words().push(word@),
                None => old(self).words(),
            },
    {
        self.buffer.serialize_element(text);
    }

    /// Writes the members, and closes the tuple's element if it has one of its own.
    pub fn end(self, writer: &mut Writer)
        ensures
            final(writer)@ == if self.ends_element() {
                old(writer)@.characters(joined(self.words())).end()
            } else {
                old(writer)@.characters(joined(self.words()))
            },
    {
        let text = self.buffer.end();
        writer.characters(text.as_str());
        if self.should_end_element {
            writer.end_element();
        }
    }

    /// Writes the members of a variant that carries a tuple, closes the variant's element,
    /// and the element around it if there is one.
    pub fn end_variant(self, writer: &mut Writer)
        ensures
            final(writer)@ == if self.ends_element() {
                old(writer)@.characters(joined(self.words())).end().end()
            } else {
                old(writer)@.characters(joined(self.words())).end()
            },
    {
        let text = self.buffer.end();
        writer.characters(text.as_str());
        writer.end_element();
        if self.should_end_element {
            writer.end_element();
        }
    }
}

} // verus!
