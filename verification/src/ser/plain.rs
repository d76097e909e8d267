use crate::error::{XmlError, XmlErrorView};
use crate::text::{char_text, format_integer, integer_text};
use crate::value::{lemma_values_view, values_view, Payload, Shape, Value, ValueView};
use vstd::prelude::*;
use vstd::string::StringExecFns;

verus! {

/// The error for a value that is not of the shape that it is written as.
pub open spec fn misfit() -> XmlErrorView {
    XmlErrorView::Custom("value does not fit shape"@)
}

/// The error for a value that is not of the shape that it is written as.
pub fn misfit_error() -> (error: XmlError)
    ensures
        error@ == misfit(),
{
    XmlError::Custom(String::from_str("value does not fit shape"))
}

/// The words with a single space between each two of them.
pub open spec fn joined(words: Seq<Seq<char>>) -> Seq<char>
    decreases words.len(),
{
    if words.len() == 0 {
        Seq::empty()
    } else if words.len() == 1 {
        words[0]
    } else {
        joined(words.drop_last()) + " "@ + words.last()
    }
}

/// A value as plain text, for an attribute or for character data; `None` for a value that
/// is absent. The members of a sequence and of a tuple are written one after the other with
/// a single space between them, those that are absent left out; a variant without a value
/// is written as its name.
pub open spec fn plain_text(shape: Shape, value: ValueView) -> Result<
    Option<Seq<char>>,
    XmlErrorView,
>
    decreases shape, 0nat,
{
    match shape {
        Shape::Bool => match value {
            ValueView::Bool(b) => Ok(
                Some(
                    if b {
                        "true"@
                    } else {
                        "false"@
                    },
                ),
            ),
            _ => Err(misfit()),
        },
        Shape::Integer(kind) => match value {
            ValueView::Integer(v) => if kind.spec_min() <= v <= kind.spec_max() {
                Ok(Some(integer_text(v)))
            } else {
                Err(misfit())
            },
            _ => Err(misfit()),
        },
        Shape::Char => match value {
            ValueView::Char(c) => Ok(Some(seq![c])),
            _ => Err(misfit()),
        },
        Shape::Text => match value {
            ValueView::Text(text) => Ok(Some(text)),
            _ => Err(misfit()),
        },
        Shape::Unit => match value {
            ValueView::Unit => Ok(Some(Seq::empty())),
            _ => Err(misfit()),
        },
        Shape::Optional(inner) => match value {
            ValueView::Absent => Ok(None),
            ValueView::Present(held) => plain_text(*inner, *held),
            _ => Err(misfit()),
        },
        Shape::Newtype(_, inner) => plain_text(*inner, value),
        Shape::Sequence(item) => match value {
            ValueView::Sequence(items) => match plain_words(*item, items, 0) {
                Ok(words) => Ok(Some(joined(words))),
                Err(error) => Err(error),
            },
            _ => Err(misfit()),
        },
        Shape::Tuple(members) => match value {
            ValueView::Sequence(items) => if items.len() == members@.len() {
                match plain_member_words(members@, items, 0) {
                    Ok(words) => Ok(Some(joined(words))),
                    Err(error) => Err(error),
                }
            } else {
                Err(misfit())
            },
            _ => Err(misfit()),
        },
        Shape::Dictionary(_) => Err(XmlErrorView::Unsupported("map in text"@)),
        Shape::Record(_, _) => Err(XmlErrorView::Unsupported("struct in text"@)),
        Shape::Union(_, variants) => match value {
            ValueView::Variant(i, _) => if 0 <= i < variants@.len() {
                match variants@[i].payload {
                    Payload::Unit => Ok(Some(variants@[i].name@)),
                    Payload::Newtype(_) => Err(
                        XmlErrorView::Unsupported("newtype variant in text"@),
                    ),
                    Payload::Tuple(_) => Err(XmlErrorView::Unsupported("tuple variant in text"@)),
                    Payload::Record(_) => Err(
                        XmlErrorView::Unsupported("struct variant in text"@),
                    ),
                }
            } else {
                Err(misfit())
            },
            _ => Err(misfit()),
        },
    }
}

/// The texts of the members of a sequence from `from` on.
pub open spec fn plain_words(item: Shape, items: Seq<ValueView>, from: int) -> Result<
    Seq<Seq<char>>,
    XmlErrorView,
>
    decreases item, items.len() - from + 1,
{
    if 0 <= from < items.len() {
        match plain_text(item, items[from]) {
            Ok(word) => match plain_words(item, items, from + 1) {
                Ok(rest) => Ok(
                    match word {
                        Some(word) => seq![word] + rest,
                        None => rest,
                    },
                ),
                Err(error) => Err(error),
            },
            Err(error) => Err(error),
        }
    } else {
        Ok(Seq::empty())
    }
}

/// The texts of the members of a tuple from `from` on.
pub open spec fn plain_member_words(members: Seq<Shape>, items: Seq<ValueView>, from: int) -> Result<
    Seq<Seq<char>>,
    XmlErrorView,
>
    decreases members, members.len() - from,
{
    if 0 <= from < members.len() && from < items.len() {
        match plain_text(members[from], items[from]) {
            Ok(word) => match plain_member_words(members, items, from + 1) {
                Ok(rest) => Ok(
                    match word {
                        Some(word) => seq![word] + rest,
                        None => rest,
                    },
                ),
                Err(error) => Err(error),
            },
            Err(error) => Err(error),
        }
    } else {
        Ok(Seq::empty())
    }
}

/// A result with a text that may be missing, seen through its view.
pub open spec fn plain_outcome(r: Result<Option<String>, XmlError>) -> Result<
    Option<Seq<char>>,
    XmlErrorView,
> {
    match r {
        Ok(Some(text)) => Ok(Some(text@)),
        Ok(None) => Ok(None),
        Err(error) => Err(error@),
    }
}

/// The texts as sequences of characters.
pub open spec fn words_view(words: Seq<String>) -> Seq<Seq<char>> {
    words.map_values(|word: String| word@)
}

/// The writer of the members of a sequence or a tuple as one text.
pub struct PlainTextSeqSerializer {
    buffer: Vec<String>,
}

impl PlainTextSeqSerializer {
    /// The texts of the members that have been written so far.
    pub closed spec fn words(&self) -> Seq<Seq<char>> {
        words_view(self.buffer@)
    }

    pub fn new() -> (writer: Self)
        ensures
            writer.words() == Seq::<Seq<char>>::empty(),
    {
        let writer = Self { buffer: Vec::new() };
        assert(writer.words() =~= Seq::<Seq<char>>::empty());
        writer
    }

    /// Takes the text of the next member; a member that is absent leaves no trace.
    pub fn serialize_element(&mut self, text: Option<String>)
        ensures
            final(self).words() == match text {
                Some(word) => old(self).words().push(word@),
                None => old(self).words(),
            },
    {
        if let Some(word) = text {
            self.buffer.push(word);
            assert(self.words() =~= old(self).words().push(word@));
        }
    }

    /// The text of all members, a single space between each two of them.
    pub fn end(self) -> (text: String)
        ensures
            text@ == joined(self.words()),
    {
        let mut text = String::new();
        let mut i: usize = 0;
        while i < self.buffer.len()
            invariant
                i <= self.buffer.len(),
                text@ == joined(self.words().subrange(0, i as int)),
            decreases self.buffer.len() - i,
        {
            let ghost before = self.words().subrange(0, i as int);
            let ghost now = self.words().subrange(0, i + 1);
            assert(now.drop_last() =~= before);
            assert(now.last() == self.buffer@[i as int]@);
            if i > 0 {
                text.append(" ");
            }
            text.append(self.buffer[i].as_str());
            proof {
                if i == 0 {
                    assert(text@ =~= now[0]);
                }
            }
            i = i + 1;
        }
        assert(self.words().subrange(0, i as int) =~= self.words());
        text
    }
}

/// The writer of values as plain text.
#[derive(Debug)]
pub struct PlainTextSerializer;

impl PlainTextSerializer {
    /// Writes `value`, which is of `shape`, as plain text.
    pub fn serialize(&self, shape: &Shape, value: &Value) -> (r: Result<Option<String>, XmlError>)
        ensures
            plain_outcome(r) == plain_text(*shape, value@),
    {
        encode_plain(shape, value)
    }
}

/// Writes `value`, which is of `shape`, as plain text.
pub fn encode_plain(shape: &Shape, value: &Value) -> (r: Result<Option<String>, XmlError>)
    ensures
        plain_outcome(r) == plain_text(*shape, value@),
    decreases shape, 0nat,
{
    match shape {
        Shape::Bool => match value {
            Value::Bool(b) => Ok(
                Some(
                    if *b {
                        String::from_str("true")
                    } else {
                        String::from_str("false")
                    },
                ),
            ),
            _ => Err(misfit_error()),
        },
        Shape::Integer(kind) => match value {
            Value::Integer(v) => if kind.min() <= *v && *v <= kind.max() {
                Ok(Some(format_integer(*v)))
            } else {
                Err(misfit_error())
            },
            _ => Err(misfit_error()),
        },
        Shape::Char => match value {
            Value::Char(c) => Ok(Some(char_text(*c))),
            _ => Err(misfit_error()),
        },
        Shape::Text => match value {
            Value::Text(text) => Ok(Some(text.clone())),
            _ => Err(misfit_error()),
        },
        Shape::Unit => match value {
            Value::Unit => Ok(Some(String::new())),
            _ => Err(misfit_error()),
        },
        Shape::Optional(inner) => match value {
            Value::Absent => Ok(None),
            Value::Present(held) => encode_plain(inner, held),
            _ => Err(misfit_error()),
        },
        Shape::Newtype(_, inner) => encode_plain(inner, value),
        Shape::Sequence(item) => match value {
            Value::Sequence(items) => {
                let mut words = PlainTextSeqSerializer::new();
                let mut i: usize = 0;
                assert(Seq::<Seq<char>>::empty() + plain_words(**item, value@->Sequence_0, 0)->Ok_0
                    =~= plain_words(**item, value@->Sequence_0, 0)->Ok_0);
                while i < items.len()
                    invariant
                        i <= items.len(),
                        value@ == ValueView::Sequence(values_view(items@)),
                        shape == Shape::Sequence(*item),
                        match plain_words(**item, values_view(items@), i as int) {
                            Ok(rest) => plain_words(**item, values_view(items@), 0) == Ok::<
                                Seq<Seq<char>>,
                                XmlErrorView,
                            >(words.words() + rest),
                            Err(error) => plain_words(**item, values_view(items@), 0) == Err::<
                                Seq<Seq<char>>,
                                XmlErrorView,
                            >(error),
                        },
                    decreases items.len() - i,
                {
                    proof {
                        lemma_values_view(items@);
                    }
                    let ghost before = words.words();
                    match encode_plain(item, &items[i]) {
                        Ok(word) => {
                            let ghost shown = plain_outcome(Ok(word))->Ok_0;
                            words.serialize_element(word);
                            proof {
                                match plain_words(**item, values_view(items@), i + 1) {
                                    Ok(rest) => {
                                        match shown {
                                            Some(w) => {
                                                assert(before + (seq![w] + rest) =~= words.words()
                                                    + rest);
                                            },
                                            None => {},
                                        }
                                    },
                                    Err(_) => {},
                                }
                            }
                        },
                        Err(error) => {
                            return Err(error);
                        },
                    }
                    i = i + 1;
                }
                proof {
                    lemma_values_view(items@);
                    assert(words.words() + Seq::<Seq<char>>::empty() =~= words.words());
                }
                Ok(Some(words.end()))
            },
            _ => Err(misfit_error()),
        },
        Shape::Tuple(members) => match value {
            Value::Sequence(items) => {
                proof {
                    lemma_values_view(items@);
                }
                if items.len() != members.len() {
                    return Err(misfit_error());
                }
                let mut words = PlainTextSeqSerializer::new();
                let mut i: usize = 0;
                assert(Seq::<Seq<char>>::empty() + plain_member_words(
                    members@,
                    value@->Sequence_0,
                    0,
                )->Ok_0 =~= plain_member_words(members@, value@->Sequence_0, 0)->Ok_0);
                while i < items.len()
                    invariant
                        i <= items.len(),
                        items.len() == members.len(),
                        value@ == ValueView::Sequence(values_view(items@)),
                        shape == Shape::Tuple(*members),
                        match plain_member_words(members@, values_view(items@), i as int) {
                            Ok(rest) => plain_member_words(members@, values_view(items@), 0)
                                == Ok::<Seq<Seq<char>>, XmlErrorView>(words.words() + rest),
                            Err(error) => plain_member_words(members@, values_view(items@), 0)
                                == Err::<Seq<Seq<char>>, XmlErrorView>(error),
                        },
                    decreases items.len() - i,
                {
                    proof {
                        lemma_values_view(items@);
                    }
                    let ghost before = words.words();
                    match encode_plain(&members[i], &items[i]) {
                        Ok(word) => {
                            let ghost shown = plain_outcome(Ok(word))->Ok_0;
                            words.serialize_element(word);
                            proof {
                                match plain_member_words(members@, values_view(items@), i + 1) {
                                    Ok(rest) => {
                                        match shown {
                                            Some(w) => {
                                                assert(before + (seq![w] + rest) =~= words.words()
                                                    + rest);
                                            },
                                            None => {},
                                        }
                                    },
                                    Err(_) => {},
                                }
                            }
                        },
                        Err(error) => {
                            return Err(error);
                        },
                    }
                    i = i + 1;
                }
                proof {
                    assert(words.words() + Seq::<Seq<char>>::empty() =~= words.words());
                }
                Ok(Some(words.end()))
            },
            _ => Err(misfit_error()),
        },
        Shape::Dictionary(_) => Err(XmlError::Unsupported("map in text")),
        Shape::Record(_, _) => Err(XmlError::Unsupported("struct in text")),
        Shape::Union(_, variants) => match value {
            Value::Variant(i, _) => if *i < variants.len() {
                match &variants[*i].payload {
                    Payload::Unit => Ok(Some(variants[*i].name.clone())),
                    Payload::Newtype(_) => Err(XmlError::Unsupported("newtype variant in text")),
                    Payload::Tuple(_) => Err(XmlError::Unsupported("tuple variant in text")),
                    Payload::Record(_) => Err(XmlError::Unsupported("struct variant in text")),
                }
            } else {
                Err(misfit_error())
            },
            _ => Err(misfit_error()),
        },
    }
}

} // verus!
