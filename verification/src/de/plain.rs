use crate::de::reader::{parse_xml_bool, xml_bool};
use crate::error::{outcome, XmlError, XmlErrorView};
use crate::text::{
    after_first_word, first_word, integer_in, lemma_position_of, parse_integer, split_word,
};
use crate::value::{
    find_variant, lemma_values_view, lemma_variant_index, values_view, variant_index, Payload,
    Shape, Value, ValueView,
};
use vstd::prelude::*;

verus! {

/// The error for a tag that names no variant of the union.
pub open spec fn unknown_variant(tag: Seq<char>) -> XmlErrorView {
    XmlErrorView::Unexpected { expected: "variant"@, but_got: tag }
}

/// The value that a text holds for a shape. A sequence and a tuple have their members one
/// after the other with a single space between them; a union is named by its variant.
pub open spec fn plain_value(shape: Shape, text: Seq<char>) -> Result<ValueView, XmlErrorView>
    decreases shape, text.len(),
{
    match shape {
        Shape::Bool => match xml_bool(text) {
            Some(b) => Ok(ValueView::Bool(b)),
            None => Err(XmlErrorView::ParseBool(text)),
        },
        Shape::Integer(kind) => match integer_in(text, kind.spec_min(), kind.spec_max()) {
            Some(v) => Ok(ValueView::Integer(v)),
            None => Err(XmlErrorView::ParseInt(text)),
        },
        Shape::Char => if text.len() == 1 {
            Ok(ValueView::Char(text[0]))
        } else {
            Err(XmlErrorView::ParseChar(text))
        },
        Shape::Text => Ok(ValueView::Text(text)),
        Shape::Unit => Ok(ValueView::Unit),
        Shape::Optional(inner) => match plain_value(*inner, text) {
            Ok(value) => Ok(ValueView::Present(Box::new(value))),
            Err(error) => Err(error),
        },
        Shape::Newtype(_, inner) => plain_value(*inner, text),
        Shape::Sequence(item) => match plain_items(*item, text) {
            Ok(items) => Ok(ValueView::Sequence(items)),
            Err(error) => Err(error),
        },
        Shape::Tuple(members) => match plain_members(members@, 0, text) {
            Ok(items) => Ok(ValueView::Sequence(items)),
            Err(error) => Err(error),
        },
        Shape::Dictionary(_) => Err(XmlErrorView::Unsupported("map in text"@)),
        Shape::Record(_, _) => Err(XmlErrorView::Unsupported("struct in text"@)),
        Shape::Union(_, variants) => match variant_index(variants@, text) {
            Some(i) => if 0 <= i < variants@.len() {
                match variants@[i].payload {
                    Payload::Unit => Ok(ValueView::Variant(i, Seq::empty())),
                    Payload::Newtype(inner) => match plain_value(inner, text) {
                        Ok(value) => Ok(ValueView::Variant(i, seq![value])),
                        Err(error) => Err(error),
                    },
                    Payload::Tuple(_) => Err(XmlErrorView::Unsupported("tuple variant in text"@)),
                    Payload::Record(_) => Err(
                        XmlErrorView::Unsupported("struct variant in text"@),
                    ),
                }
            } else {
                Err(unknown_variant(text))
            },
            None => Err(unknown_variant(text)),
        },
    }
}

/// The members of a sequence that a text holds: one for each word, until nothing is left.
pub open spec fn plain_items(item: Shape, text: Seq<char>) -> Result<
    Seq<ValueView>,
    XmlErrorView,
>
    decreases item, text.len() + 1,
{
    if text.len() == 0 {
        Ok(Seq::empty())
    } else {
        proof {
            lemma_position_of(text, ' ');
        }
        match plain_value(item, first_word(text)) {
            Ok(value) => match plain_items(item, after_first_word(text)) {
                Ok(rest) => Ok(seq![value] + rest),
                Err(error) => Err(error),
            },
            Err(error) => Err(error),
        }
    }
}

/// The members of a tuple from `from` on that a text holds: one word for each; what is left
/// behind the last is not looked at.
pub open spec fn plain_members(members: Seq<Shape>, from: int, text: Seq<char>) -> Result<
    Seq<ValueView>,
    XmlErrorView,
>
    decreases members, members.len() - from,
{
    if 0 <= from < members.len() {
        if text.len() == 0 {
            Err(XmlErrorView::Custom("missing tuple member"@))
        } else {
            match plain_value(members[from], first_word(text)) {
                Ok(value) => match plain_members(members, from + 1, after_first_word(text)) {
                    Ok(rest) => Ok(seq![value] + rest),
                    Err(error) => Err(error),
                },
                Err(error) => Err(error),
            }
        }
    } else {
        Ok(Seq::empty())
    }
}

/// A reader of values that are written as plain text: attribute values and character data.
pub struct PlainTextDeserializer<'a> {
    text: &'a str,
}

impl<'a> PlainTextDeserializer<'a> {
    /// The text that is left to read.
    pub closed spec fn remaining(&self) -> Seq<char> {
        self.text@
    }

    pub fn new(text: &'a str) -> (reader: Self)
        ensures
            reader.remaining() == text@,
    {
        Self { text }
    }

    /// The text that is left to read.
    pub fn text(&self) -> (text: &'a str)
        ensures
            text@ == self.remaining(),
    {
        self.text
    }

    /// Takes the next word off the text, for the next member of a sequence: the part before
    /// the first space. With no text left there is no member.
    pub fn next_element(&mut self) -> (word: Option<String>)
        ensures
            match word {
                Some(w) => {
                    &&& old(self).remaining().len() > 0
                    &&& w@ == first_word(old(self).remaining())
                    &&& final(self).remaining() == after_first_word(old(self).remaining())
                    &&& final(self).remaining().len() < old(self).remaining().len()
                },
                None => old(self).remaining().len() == 0 && final(self).remaining().len() == 0,
            },
    {
        let len = self.text.unicode_len();
        if len == 0 {
            return None;
        }
        let at = crate::text::find_char(self.text, ' ');
        proof {
            lemma_position_of(self.text@, ' ');
        }
        let word = self.text.substring_char(0, at).to_owned();
        if at < len {
            self.text = self.text.substring_char(at + 1, len);
        } else {
            self.text = self.text.substring_char(len, len);
        }
        Some(word)
    }

    /// Reads the text as a value of `shape`.
    pub fn decode(self, shape: &Shape) -> (r: Result<Value, XmlError>)
        ensures
            outcome(r) == plain_value(*shape, self.remaining()),
    {
        decode_plain(self.text, shape)
    }
}

/// Reads `text` as a value of `shape`.
pub fn decode_plain(text: &str, shape: &Shape) -> (r: Result<Value, XmlError>)
    ensures
        outcome(r) == plain_value(*shape, text@),
    decreases shape, text@.len(),
{
    match shape {
        Shape::Bool => match parse_xml_bool(text) {
            Ok(b) => Ok(Value::Bool(b)),
            Err(error) => Err(error),
        },
        Shape::Integer(kind) => match parse_integer(text, kind.min(), kind.max()) {
            Some(v) => Ok(Value::Integer(v)),
            None => Err(XmlError::ParseInt(text.to_owned())),
        },
        Shape::Char => if text.unicode_len() == 1 {
            Ok(Value::Char(text.get_char(0)))
        } else {
            Err(XmlError::ParseChar(text.to_owned()))
        },
        Shape::Text => Ok(Value::Text(text.to_owned())),
        Shape::Unit => Ok(Value::Unit),
        Shape::Optional(inner) => match decode_plain(text, inner) {
            Ok(value) => Ok(Value::Present(Box::new(value))),
            Err(error) => Err(error),
        },
        Shape::Newtype(_, inner) => decode_plain(text, inner),
        Shape::Sequence(item) => match decode_plain_items(text, item) {
            Ok(items) => Ok(Value::Sequence(items)),
            Err(error) => Err(error),
        },
        Shape::Tuple(members) => match decode_plain_members(text, members) {
            Ok(items) => Ok(Value::Sequence(items)),
            Err(error) => Err(error),
        },
        Shape::Dictionary(_) => Err(XmlError::Unsupported("map in text")),
        Shape::Record(_, _) => Err(XmlError::Unsupported("struct in text")),
        Shape::Union(_, variants) => {
            proof {
                lemma_variant_index(variants@, text@);
            }
            match find_variant(variants, text) {
                Some(i) => match &variants[i].payload {
                    Payload::Unit => {
                        let payload: Vec<Value> = Vec::new();
                        assert(values_view(payload@) =~= Seq::empty());
                        Ok(Value::Variant(i, payload))
                    },
                    Payload::Newtype(inner) => match decode_plain(text, inner) {
                        Ok(value) => {
                            let mut payload: Vec<Value> = Vec::new();
                            payload.push(value);
                            proof {
                                lemma_values_view(payload@);
                                assert(values_view(payload@) =~= seq![value@]);
                            }
                            Ok(Value::Variant(i, payload))
                        },
                        Err(error) => Err(error),
                    },
                    Payload::Tuple(_) => Err(XmlError::Unsupported("tuple variant in text")),
                    Payload::Record(_) => Err(XmlError::Unsupported("struct variant in text")),
                },
                None => Err(
                    XmlError::Unexpected { expected: "variant", but_got: text.to_owned() },
                ),
            }
        },
    }
}

/// Reads the words of `text` as the members of a sequence.
pub fn decode_plain_items(text: &str, item: &Shape) -> (r: Result<Vec<Value>, XmlError>)
    ensures
        match r {
            Ok(items) => plain_items(*item, text@) == Ok::<Seq<ValueView>, XmlErrorView>(
                values_view(items@),
            ),
            Err(error) => plain_items(*item, text@) == Err::<Seq<ValueView>, XmlErrorView>(error@),
        },
    decreases item, text@.len() + 1,
{
    let mut reader = PlainTextDeserializer::new(text);
    match reader.next_element() {
        None => {
            let items: Vec<Value> = Vec::new();
            assert(values_view(items@) =~= Seq::empty());
            Ok(items)
        },
        Some(word) => {
            proof {
                lemma_position_of(text@, ' ');
            }
            let value = decode_plain(word.as_str(), item)?;
            let rest = decode_plain_items(reader.text(), item)?;
            let mut items: Vec<Value> = Vec::new();
            items.push(value);
            let mut rest = rest;
            let ghost tail = rest@;
            items.append(&mut rest);
            proof {
                lemma_values_view(items@);
                lemma_values_view(tail);
                assert(values_view(items@) =~= seq![value@] + values_view(tail));
            }
            Ok(items)
        },
    }
}

/// Reads the words of `text` as the members of a tuple.
pub fn decode_plain_members(text: &str, members: &Vec<Shape>) -> (r: Result<
    Vec<Value>,
    XmlError,
>)
    ensures
        match r {
            Ok(items) => plain_members(members@, 0, text@) == Ok::<Seq<ValueView>, XmlErrorView>(
                values_view(items@),
            ),
            Err(error) => plain_members(members@, 0, text@) == Err::<
                Seq<ValueView>,
                XmlErrorView,
            >(error@),
        },
    decreases members, members.len(),
{
    let mut reader = PlainTextDeserializer::new(text);
    let mut items: Vec<Value> = Vec::new();
    let mut i: usize = 0;
    assert(values_view(items@) =~= Seq::empty());
    while i < members.len()
        invariant
            i <= members.len(),
            items@.len() == i,
            match plain_members(members@, i as int, reader.remaining()) {
                Ok(rest) => plain_members(members@, 0, text@) == Ok::<
                    Seq<ValueView>,
                    XmlErrorView,
                >(values_view(items@) + rest),
                Err(error) => plain_members(members@, 0, text@) == Err::<
                    Seq<ValueView>,
                    XmlErrorView,
                >(error),
            },
        decreases members.len() - i,
    {
        match reader.next_element() {
            None => {
                return Err(XmlError::Custom("missing tuple member".to_owned()));
            },
            Some(word) => match decode_plain(word.as_str(), &members[i]) {
                Ok(value) => {
                    let ghost before = items@;
                    items.push(value);
                    proof {
                        assert(items@.drop_last() =~= before);
                        match plain_members(members@, i + 1, reader.remaining()) {
                            Ok(rest) => {
                                assert(values_view(before) + (seq![value@] + rest)
                                    =~= values_view(items@) + rest);
                            },
                            Err(_) => {},
                        }
                    }
                },
                Err(error) => {
                    return Err(error);
                },
            },
        }
        i = i + 1;
    }
    assert(values_view(items@) + Seq::empty() =~= values_view(items@));
    Ok(items)
}

} // verus!
