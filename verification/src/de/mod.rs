pub mod buffer;
pub mod child;
pub mod map;
pub mod plain;
pub mod reader;
pub mod seq;
pub mod source;
pub mod var;

use crate::config::SerdeXml;
use crate::de::buffer::{lemma_after_peek, unpulled, ChildReader, RootReader, Tape};
use crate::de::source::{
    ending, error_at_end, events_before_end, pending, significant, tokens,
    EventSource,
    RawEvent, Tokenizer,
};
use crate::de::child::{ChildDeserializer, ChildView};
use crate::de::map::{
    next_key, value_for, Key, KeyView, MapAccess, MapAccessView, ValueSource, ValueSourceView,
};
use crate::de::plain::{
    decode_plain, decode_plain_members, plain_members, plain_value, unknown_variant,
};
use crate::de::reader::{Event, EventView};
use crate::de::seq::{next_member, settle_member, MemberFate, SeqAccess, SeqAccessView};
use crate::de::var::{EnumAccess, VariantAccess};
use crate::error::{outcome, XmlError, XmlErrorView};
use crate::text::text_eq;
use crate::value::{
    entries_view, field_index, find_field, find_variant, lemma_field_index, lemma_values_view,
    lemma_variant_index, value_view, values_view, variant_index, Field, Payload, Shape, Value,
    ValueView, Variant,
};
use vstd::prelude::*;
use vstd::string::StringExecFns;

verus! {

/// How many events can still be counted as consumed from a tape.
pub open spec fn measure(tape: Tape) -> nat {
    if tape.taken < u64::MAX {
        (u64::MAX - tape.taken) as nat
    } else {
        0
    }
}

/// The error for a key that a record is offered a second time.
pub open spec fn duplicate_field(name: Seq<char>) -> XmlErrorView {
    XmlErrorView::Custom("duplicate field "@ + name)
}

/// The error for a field that the document does not hold and that cannot do without.
pub open spec fn missing_field(name: Seq<char>) -> XmlErrorView {
    XmlErrorView::Custom("missing field "@ + name)
}

/// The error for a value that was read without an event being consumed for it.
pub open spec fn stalled() -> XmlErrorView {
    XmlErrorView::Unsupported("a value that takes no event"@)
}

/// The names of the fields of a record.
pub open spec fn field_names(fields: Seq<Field>) -> Seq<Seq<char>> {
    fields.map_values(|field: Field| field.name@)
}

/// The keys and values of the element whose opening tag `element` has just been consumed.
pub open spec fn record_access(
    fields: Seq<Field>,
    attributes: Seq<crate::de::reader::AttributeView>,
    cursor: int,
    overlapping: bool,
) -> MapAccessView {
    MapAccessView {
        cursor,
        overlapping,
        attributes,
        fields: field_names(fields),
        content: field_names(fields).contains("#content"@),
    }
}

/// The value of a field for which the document holds nothing. An optional field is absent
/// and a sequence is empty; the field of the text is read from the empty text; any other
/// field is missed.
pub open spec fn without_key(field: Field) -> Result<ValueView, XmlErrorView> {
    match field.shape {
        Shape::Optional(_) => Ok(ValueView::Absent),
        Shape::Sequence(_) => Ok(ValueView::Sequence(Seq::empty())),
        _ => if field.name@ == "#text"@ {
            plain_value(field.shape, Seq::empty())
        } else {
            Err(missing_field(field.name@))
        },
    }
}

/// The values of the fields of a record from `from` on, once its keys are at an end.
pub open spec fn completed(fields: Seq<Field>, found: Seq<Option<ValueView>>, from: int) -> Result<
    Seq<ValueView>,
    XmlErrorView,
>
    decreases fields.len() - from,
{
    if 0 <= from < fields.len() && from < found.len() {
        let value = match found[from] {
            Some(value) => Ok(value),
            None => without_key(fields[from]),
        };
        match value {
            Ok(value) => match completed(fields, found, from + 1) {
                Ok(rest) => Ok(seq![value] + rest),
                Err(error) => Err(error),
            },
            Err(error) => Err(error),
        }
    } else {
        Ok(Seq::empty())
    }
}

/// The value that a reader finds for a shape among the children of an element, and the tape
/// that it leaves. An optional value that has an element of its own is absent where no such
/// element starts next, and also where that element is empty: without attributes and
/// without content.
pub open spec fn child_value(shape: Shape, tape: Tape, child: ChildView) -> (
    Result<ValueView, XmlErrorView>,
    Tape,
)
    decreases shape, 0nat,
{
    let named = child.name is Some;
    let from = child.cursor;
    match shape {
        Shape::Bool => framed_text(shape, tape, child),
        Shape::Integer(_) => framed_text(shape, tape, child),
        Shape::Tuple(_) => framed_text(shape, tape, child),
        Shape::Char => loose_text(shape, tape, child),
        Shape::Text => loose_text(shape, tape, child),
        Shape::Unit => match tape.opened(from, named) {
            Ok(()) => closing(
                ValueView::Unit,
                tape.after_tag(from, named),
                tape.behind_tag(from, named),
                named,
            ),
            Err(error) => (Err(error), tape.after_tag(from, named)),
        },
        Shape::Optional(inner) => match tape.presence(from, named) {
            (Ok(present), rest, at) => if present {
                match child_value(*inner, rest, ChildView { cursor: at, ..child }) {
                    (Ok(value), left) => (Ok(ValueView::Present(Box::new(value))), left),
                    (Err(error), left) => (Err(error), left),
                }
            } else {
                (Ok(ValueView::Absent), rest)
            },
            (Err(error), rest, _) => (Err(error), rest),
        },
        Shape::Newtype(_, inner) => child_value(*inner, tape, child),
        Shape::Sequence(item) => match items(
            *item,
            tape,
            SeqAccessView {
                cursor: from,
                overlapping: child.overlapping,
                name: child.name,
                max: None,
            },
        ) {
            (Ok(members), rest) => (Ok(ValueView::Sequence(members)), rest),
            (Err(error), rest) => (Err(error), rest),
        },
        Shape::Dictionary(value) => match tape.opened(from, named) {
            Ok(()) => {
                let at = tape.behind_tag(from, named);
                match entries(
                    *value,
                    tape.after_tag(from, named),
                    MapAccessView {
                        cursor: at,
                        overlapping: child.overlapping,
                        attributes: Seq::empty(),
                        fields: Seq::empty(),
                        content: false,
                    },
                ) {
                    (Ok(pairs), rest) => closing(ValueView::Dictionary(pairs), rest, at, named),
                    (Err(error), rest) => (Err(error), rest),
                }
            },
            Err(error) => (Err(error), tape.after_tag(from, named)),
        },
        Shape::Record(_, fields) => match tape.started(from) {
            Ok(element) => {
                let at = tape.landing(from);
                match record_values(
                    fields@,
                    tape.after_next(from),
                    record_access(fields@, element.attributes, at, child.overlapping),
                    Seq::new(fields@.len(), |i: int| None),
                ) {
                    (Ok(values), rest) => closing(ValueView::Record(values), rest, at, true),
                    (Err(error), rest) => (Err(error), rest),
                }
            },
            Err(error) => (Err(error), tape.after_next(from)),
        },
        Shape::Union(_, variants) => match tape.opened(from, named) {
            Ok(()) => {
                let at = tape.behind_tag(from, named);
                match variant_value(
                    variants@,
                    tape.after_tag(from, named),
                    at,
                    child.overlapping,
                ) {
                    (Ok(value), rest) => closing(value, rest, at, named),
                    (Err(error), rest) => (Err(error), rest),
                }
            },
            Err(error) => (Err(error), tape.after_tag(from, named)),
        },
    }
}

/// A value whose closing tag, if it has one, is still to be consumed.
pub open spec fn closing(value: ValueView, tape: Tape, from: int, named: bool) -> (
    Result<ValueView, XmlErrorView>,
    Tape,
) {
    match tape.closed(from, named) {
        Ok(()) => (Ok(value), tape.after_tag(from, named)),
        Err(error) => (Err(error), tape.after_tag(from, named)),
    }
}

/// A text, or a value that is read from a text which may be missing: the opening tag, if
/// the value has an element of its own, the character data if the next event is character
/// data, and the empty text if it is anything else, and the closing tag.
pub open spec fn loose_text(shape: Shape, tape: Tape, child: ChildView) -> (
    Result<ValueView, XmlErrorView>,
    Tape,
) {
    let named = child.name is Some;
    let from = child.cursor;
    match tape.opened(from, named) {
        Ok(()) => {
            let inside = tape.after_tag(from, named);
            let at = tape.behind_tag(from, named);
            match inside.peeked(at) {
                Ok(EventView::Text(text)) => match plain_value(shape, text) {
                    Ok(value) => closing(value, inside.after_next(at), inside.landing(at), named),
                    Err(error) => (Err(error), inside.after_next(at)),
                },
                Ok(_) => match plain_value(shape, Seq::empty()) {
                    Ok(value) => closing(value, inside.after_peek(at), inside.landing(at), named),
                    Err(error) => (Err(error), inside.after_peek(at)),
                },
                Err(error) => (Err(error), inside),
            }
        },
        Err(error) => (Err(error), tape.after_tag(from, named)),
    }
}

/// A value that is written as the character data of its element: the opening tag, if the
/// value has an element of its own, the text, which is read as plain text, and the closing
/// tag.
pub open spec fn framed_text(shape: Shape, tape: Tape, child: ChildView) -> (
    Result<ValueView, XmlErrorView>,
    Tape,
) {
    let named = child.name is Some;
    let from = child.cursor;
    match tape.opened(from, named) {
        Ok(()) => {
            let inside = tape.after_tag(from, named);
            let at = tape.behind_tag(from, named);
            match inside.chars(at) {
                Ok(text) => match plain_value(shape, text) {
                    Ok(value) => closing(value, inside.after_next(at), inside.landing(at), named),
                    Err(error) => (Err(error), inside.after_next(at)),
                },
                Err(error) => (Err(error), inside.after_next(at)),
            }
        },
        Err(error) => (Err(error), tape.after_tag(from, named)),
    }
}

/// The value of the variant that a reader has before it.
pub open spec fn variant_value(variants: Seq<Variant>, tape: Tape, from: int, overlapping: bool) -> (
    Result<ValueView, XmlErrorView>,
    Tape,
)
    decreases variants, 0nat,
{
    let seen = tape.after_peek(from);
    let at = tape.landing(from);
    match tape.variant_tag(from) {
        Ok((name, text)) => match variant_index(variants, name) {
            Some(i) => if 0 <= i < variants.len() {
                match variants[i].payload {
                    Payload::Unit => match seen.unit_variant(at, text) {
                        Ok(()) => (
                            Ok(ValueView::Variant(i, Seq::empty())),
                            seen.after_unit_variant(at, text),
                        ),
                        Err(error) => (Err(error), seen.after_unit_variant(at, text)),
                    },
                    Payload::Newtype(inner) => if text {
                        (Err(XmlErrorView::Unsupported("newtype variant in text"@)), seen)
                    } else {
                        match child_value(
                            inner,
                            seen,
                            ChildView { cursor: at, overlapping, name: Some(name) },
                        ) {
                            (Ok(value), rest) => (Ok(ValueView::Variant(i, seq![value])), rest),
                            (Err(error), rest) => (Err(error), rest),
                        }
                    },
                    Payload::Tuple(members) => if text {
                        (Err(XmlErrorView::Unsupported("tuple variant in text"@)), seen)
                    } else {
                        let rest = seen.after_tuple_text(at);
                        let end = seen.after_next(at).landing(seen.landing(at));
                        match seen.tuple_text(at) {
                            Ok(words) => match plain_members(members@, 0, words) {
                                Ok(values) => closing(ValueView::Variant(i, values), rest, end, true),
                                Err(error) => (Err(error), rest),
                            },
                            Err(error) => (Err(error), rest),
                        }
                    },
                    Payload::Record(fields) => if text {
                        (Err(XmlErrorView::Unsupported("struct variant in text"@)), seen)
                    } else {
                        match seen.started(at) {
                            Ok(element) => {
                                let inside = seen.landing(at);
                                match record_values(
                                    fields@,
                                    seen.after_next(at),
                                    record_access(fields@, element.attributes, inside, overlapping),
                                    Seq::new(fields@.len(), |i: int| None),
                                ) {
                                    (Ok(values), rest) => closing(
                                        ValueView::Variant(i, values),
                                        rest,
                                        inside,
                                        true,
                                    ),
                                    (Err(error), rest) => (Err(error), rest),
                                }
                            },
                            Err(error) => (Err(error), seen.after_next(at)),
                        }
                    },
                }
            } else {
                (Err(unknown_variant(name)), seen)
            },
            None => (Err(unknown_variant(name)), seen),
        },
        Err(error) => (Err(error), seen),
    }
}

/// The members of a sequence. A member for which no event was consumed ends the sequence
/// and is left out of it. Where the members are taken from all that is left, whatever
/// their names, an event that a member cannot use ends the sequence too.
pub open spec fn items(item: Shape, tape: Tape, seq: SeqAccessView) -> (
    Result<Seq<ValueView>, XmlErrorView>,
    Tape,
)
    decreases item, measure(tape) + 1,
{
    let step = next_member(seq, tape);
    match step.member {
        Ok(Some(child)) => match child_value(item, step.tape, child) {
            (Ok(value), rest) => if measure(rest) < measure(tape) {
                match items(item, rest, step.seq) {
                    (Ok(more), left) => (Ok(seq![value] + more), left),
                    (Err(error), left) => (Err(error), left),
                }
            } else {
                (Ok(Seq::empty()), rest)
            },
            (Err(error), rest) => if seq.name is None && error.ends_a_run() {
                (Ok(Seq::empty()), rest)
            } else {
                (Err(error), rest)
            },
        },
        Ok(None) => (Ok(Seq::empty()), step.tape),
        Err(error) => (Err(error), step.tape),
    }
}

/// What is read for a key from the place that the access names for it.
pub open spec fn source_tape(source: ValueSourceView, tape: Tape) -> (Result<(), XmlErrorView>, Tape) {
    match source {
        ValueSourceView::Plain(_) => (Ok(()), tape),
        ValueSourceView::Child(child) => match tape.ignored(child.cursor) {
            (Ok(_), rest) => (Ok(()), rest),
            (Err(error), rest) => (Err(error), rest),
        },
    }
}

/// The values of the fields of a record. Each key goes to the field of its name; a key
/// that comes twice for one field is an error, a key that no field takes is passed over
/// with its value. `found` holds the fields that have their value already.
pub open spec fn record_values(
    fields: Seq<Field>,
    tape: Tape,
    map: MapAccessView,
    found: Seq<Option<ValueView>>,
) -> (Result<Seq<ValueView>, XmlErrorView>, Tape)
    decreases fields, measure(tape) + map.attributes.len() + 1,
{
    let offered = next_key(map, tape);
    match offered.key {
        Ok(Some(key)) => {
            let place = field_index(fields, key.name());
            if place matches Some(i) && 0 <= i < found.len() && found[i] is Some {
                (Err(duplicate_field(key.name())), offered.tape)
            } else {
                let step = value_for(offered.map, offered.tape, key);
                match step.source {
                    Ok(source) => {
                        let read = match place {
                            Some(i) => if 0 <= i < fields.len() {
                                match source {
                                    ValueSourceView::Plain(text) => (
                                        plain_value(fields[i].shape, text),
                                        step.tape,
                                    ),
                                    ValueSourceView::Child(child) => child_value(
                                        fields[i].shape,
                                        step.tape,
                                        child,
                                    ),
                                }
                            } else {
                                (Ok(ValueView::Unit), step.tape)
                            },
                            None => match source_tape(source, step.tape) {
                                (Ok(()), rest) => (Ok(ValueView::Unit), rest),
                                (Err(error), rest) => (Err(error), rest),
                            },
                        };
                        match read {
                            (Ok(value), rest) => if measure(rest) + step.map.attributes.len()
                                < measure(tape) + map.attributes.len() {
                                record_values(
                                    fields,
                                    rest,
                                    step.map,
                                    match place {
                                        Some(i) => if 0 <= i < found.len() {
                                            found.update(i, Some(value))
                                        } else {
                                            found
                                        },
                                        None => found,
                                    },
                                )
                            } else {
                                (Err(stalled()), rest)
                            },
                            (Err(error), rest) => (Err(error), rest),
                        }
                    },
                    Err(error) => (Err(error), step.tape),
                }
            }
        },
        Ok(None) => (completed(fields, found, 0), offered.tape),
        Err(error) => (Err(error), offered.tape),
    }
}

/// The entries of a map: each key with the value that is read for it, in document order.
pub open spec fn entries(value: Shape, tape: Tape, map: MapAccessView) -> (
    Result<Seq<(Seq<char>, ValueView)>, XmlErrorView>,
    Tape,
)
    decreases value, measure(tape) + map.attributes.len() + 1,
{
    let offered = next_key(map, tape);
    match offered.key {
        Ok(Some(key)) => {
            let step = value_for(offered.map, offered.tape, key);
            match step.source {
                Ok(source) => {
                    let read = match source {
                        ValueSourceView::Plain(text) => (plain_value(value, text), step.tape),
                        ValueSourceView::Child(child) => child_value(value, step.tape, child),
                    };
                    match read {
                        (Ok(held), rest) => if measure(rest) + step.map.attributes.len() < measure(
                            tape,
                        ) + map.attributes.len() {
                            match entries(value, rest, step.map) {
                                (Ok(more), left) => (Ok(seq![(key.name(), held)] + more), left),
                                (Err(error), left) => (Err(error), left),
                            }
                        } else {
                            (Err(stalled()), rest)
                        },
                        (Err(error), rest) => (Err(error), rest),
                    }
                },
                Err(error) => (Err(error), step.tape),
            }
        },
        Ok(None) => (Ok(Seq::empty()), offered.tape),
        Err(error) => (Err(error), offered.tape),
    }
}

/// The value that a document holds for a shape. The outermost element of a document is a
/// record, a tagged union inside the element of its type, or a value inside the element of
/// its newtype; nothing else has a name to give to that element.
pub open spec fn root_value(shape: Shape, tape: Tape, overlapping: bool) -> (
    Result<ValueView, XmlErrorView>,
    Tape,
)
    decreases shape,
{
    let top = ChildView { cursor: 0, overlapping, name: None };
    match shape {
        Shape::Record(_, _) => child_value(shape, tape, top),
        Shape::Union(name, _) => child_value(shape, tape, ChildView { name: Some(name@), ..top }),
        Shape::Newtype(_, inner) => match tape.started(0) {
            Ok(_) => match child_value(
                *inner,
                tape.after_next(0),
                ChildView { cursor: tape.landing(0), ..top },
            ) {
                (Ok(value), rest) => closing(value, rest, tape.landing(0), true),
                (Err(error), rest) => (Err(error), rest),
            },
            Err(error) => (Err(error), tape.after_next(0)),
        },
        Shape::Optional(inner) => match tape.peeked(0) {
            Ok(EventView::EndElement) => (Ok(ValueView::Absent), tape.after_peek(0)),
            Ok(_) => match root_value(*inner, tape.after_peek(0), overlapping) {
                (Ok(value), rest) => (Ok(ValueView::Present(Box::new(value))), rest),
                (Err(error), rest) => (Err(error), rest),
            },
            Err(error) => (Err(error), tape),
        },
        Shape::Bool => (Err(XmlErrorView::Unsupported("bool in document root"@)), tape),
        Shape::Integer(_) => (Err(XmlErrorView::Unsupported("integer in document root"@)), tape),
        Shape::Char => (Err(XmlErrorView::Unsupported("char in document root"@)), tape),
        Shape::Text => (Err(XmlErrorView::Unsupported("string in document root"@)), tape),
        Shape::Unit => (Err(XmlErrorView::Unsupported("unit in document root"@)), tape),
        Shape::Sequence(_) => (Err(XmlErrorView::Unsupported("sequence in document root"@)), tape),
        Shape::Tuple(_) => (Err(XmlErrorView::Unsupported("tuple in document root"@)), tape),
        Shape::Dictionary(_) => (Err(XmlErrorView::Unsupported("map in document root"@)), tape),
    }
}

/// A result with a list of values, seen through their views.
pub open spec fn outcomes(r: Result<Vec<Value>, XmlError>) -> Result<Seq<ValueView>, XmlErrorView> {
    match r {
        Ok(values) => Ok(values_view(values@)),
        Err(error) => Err(error@),
    }
}

/// Consumes the closing tag of a value that has been read, if it has one.
fn close(root: &mut RootReader, child: &mut ChildDeserializer, value: Value) -> (r: Result<
    Value,
    XmlError,
>)
    ensures
        (outcome(r), final(root).tape()) == closing(
            value@,
            old(root).tape(),
            old(child)@.cursor,
            old(child)@.name is Some,
        ),
        final(root).overlapping() == old(root).overlapping(),
{
    match child.maybe_end_element(root) {
        Ok(()) => Ok(value),
        Err(error) => Err(error),
    }
}

/// Reads a value that is written as the character data of its element.
fn decode_framed_text(root: &mut RootReader, child: ChildDeserializer, shape: &Shape) -> (r: Result<
    Value,
    XmlError,
>)
    ensures
        (outcome(r), final(root).tape()) == framed_text(*shape, old(root).tape(), child@),
        final(root).overlapping() == old(root).overlapping(),
{
    let mut child = child;
    if let Err(error) = child.maybe_start_element(root) {
        return Err(error);
    }
    let text = match child.reader.chars(root) {
        Ok(text) => text,
        Err(error) => {
            return Err(error);
        },
    };
    match decode_plain(text.as_str(), shape) {
        Ok(value) => close(root, &mut child, value),
        Err(error) => Err(error),
    }
}

/// Reads a value from the character data of its element, or from the empty text where the
/// element holds none.
fn decode_loose_text(root: &mut RootReader, child: ChildDeserializer, shape: &Shape) -> (r: Result<
    Value,
    XmlError,
>)
    ensures
        (outcome(r), final(root).tape()) == loose_text(*shape, old(root).tape(), child@),
        final(root).overlapping() == old(root).overlapping(),
{
    let mut child = child;
    if let Err(error) = child.maybe_start_element(root) {
        return Err(error);
    }
    let ghost inside = root.tape();
    let ghost at = child@.cursor;
    let text = match child.reader.text_or_empty(root) {
        Ok(text) => text,
        Err(error) => {
            return Err(error);
        },
    };
    proof {
        lemma_after_peek(inside, at);
    }
    match decode_plain(text.as_str(), shape) {
        Ok(value) => close(root, &mut child, value),
        Err(error) => Err(error),
    }
}

/// Reads the value that `child` has before it as a value of `shape`.
pub fn decode_child(root: &mut RootReader, child: ChildDeserializer, shape: &Shape) -> (r: Result<
    Value,
    XmlError,
>)
    ensures
        (outcome(r), final(root).tape()) == child_value(*shape, old(root).tape(), child@),
        final(root).overlapping() == old(root).overlapping(),
    decreases shape, 0nat,
{
    let mut child = child;
    let ghost tape = old(root).tape();
    let ghost from = child@.cursor;
    match shape {
        Shape::Bool => decode_framed_text(root, child, shape),
        Shape::Integer(_) => decode_framed_text(root, child, shape),
        Shape::Tuple(_) => decode_framed_text(root, child, shape),
        Shape::Char => decode_loose_text(root, child, shape),
        Shape::Text => decode_loose_text(root, child, shape),
        Shape::Unit => {
            if let Err(error) = child.maybe_start_element(root) {
                return Err(error);
            }
            close(root, &mut child, Value::Unit)
        },
        Shape::Optional(inner) => match child.optional(root) {
            Ok(true) => match decode_child(root, child, inner) {
                Ok(value) => Ok(Value::Present(Box::new(value))),
                Err(error) => Err(error),
            },
            Ok(false) => Ok(Value::Absent),
            Err(error) => Err(error),
        },
        Shape::Newtype(_, inner) => decode_child(root, child, inner),
        Shape::Sequence(item) => {
            let seq = SeqAccess::new(child.reader.child(), child.element_name);
            match decode_items(root, seq, item) {
                Ok(members) => Ok(Value::Sequence(members)),
                Err(error) => Err(error),
            }
        },
        Shape::Dictionary(value) => {
            if let Err(error) = child.maybe_start_element(root) {
                return Err(error);
            }
            let map = MapAccess::new_map(child.reader.child());
            match decode_entries(root, map, value) {
                Ok(pairs) => close(root, &mut child, Value::Dictionary(pairs)),
                Err(error) => Err(error),
            }
        },
        Shape::Record(_, fields) => {
            let element = match child.reader.start_element(root) {
                Ok(element) => element,
                Err(error) => {
                    return Err(error);
                },
            };
            let map = MapAccess::new_struct(
                child.reader.child(),
                element.attributes,
                names_of(fields),
            );
            match decode_record(root, map, fields) {
                Ok(values) => match child.reader.end_element(root) {
                    Ok(()) => Ok(Value::Record(values)),
                    Err(error) => Err(error),
                },
                Err(error) => Err(error),
            }
        },
        Shape::Union(_, variants) => {
            if let Err(error) = child.maybe_start_element(root) {
                return Err(error);
            }
            let access = EnumAccess::new(child.reader.child());
            match decode_variant(root, access, variants) {
                Ok(value) => close(root, &mut child, value),
                Err(error) => Err(error),
            }
        },
    }
}

/// The names of the fields of a record, for the access that offers it its keys.
pub fn names_of(fields: &Vec<Field>) -> (names: Vec<String>)
    ensures
        crate::de::map::names_view(names@) == field_names(fields@),
{
    let mut names: Vec<String> = Vec::new();
    let mut i: usize = 0;
    while i < fields.len()
        invariant
            i <= fields.len(),
            names@.len() == i,
            forall|j: int| 0 <= j < i ==> names@[j]@ == fields@[j].name@,
        decreases fields.len() - i,
    {
        names.push(fields[i].name.clone());
        i = i + 1;
    }
    assert(crate::de::map::names_view(names@) =~= field_names(fields@));
    names
}

/// Reads the value of the variant that `access` has before it.
pub fn decode_variant(root: &mut RootReader, access: EnumAccess, variants: &Vec<Variant>) -> (r:
    Result<Value, XmlError>)
    ensures
        (outcome(r), final(root).tape()) == variant_value(
            variants@,
            old(root).tape(),
            access.cursor(),
            access.overlapping(),
        ),
        final(root).overlapping() == old(root).overlapping(),
    decreases variants, 0nat,
{
    let (name, access) = match access.variant(root) {
        Ok(found) => found,
        Err(error) => {
            return Err(error);
        },
    };
    proof {
        lemma_variant_index(variants@, name@);
    }
    let i = match find_variant(variants, name.as_str()) {
        Some(i) => i,
        None => {
            return Err(XmlError::Unexpected { expected: "variant", but_got: name });
        },
    };
    let mut access = access;
    match &variants[i].payload {
        Payload::Unit => match access.unit_variant(root) {
            Ok(()) => {
                let payload: Vec<Value> = Vec::new();
                assert(values_view(payload@) =~= Seq::empty());
                Ok(Value::Variant(i, payload))
            },
            Err(error) => Err(error),
        },
        Payload::Newtype(inner) => match access.newtype_variant() {
            Ok(child) => match decode_child(root, child, inner) {
                Ok(value) => {
                    let mut payload: Vec<Value> = Vec::new();
                    payload.push(value);
                    proof {
                        lemma_values_view(payload@);
                        assert(values_view(payload@) =~= seq![value@]);
                    }
                    Ok(Value::Variant(i, payload))
                },
                Err(error) => Err(error),
            },
            Err(error) => Err(error),
        },
        Payload::Tuple(members) => {
            if access.is_text() {
                return Err(XmlError::Unsupported("tuple variant in text"));
            }
            let words = match access.tuple_variant(root) {
                Ok(words) => words,
                Err(error) => {
                    return Err(error);
                },
            };
            match decode_plain_members(words.as_str(), members) {
                Ok(values) => match access.end(root) {
                    Ok(()) => Ok(Value::Variant(i, values)),
                    Err(error) => Err(error),
                },
                Err(error) => Err(error),
            }
        },
        Payload::Record(fields) => {
            if access.is_text() {
                return Err(XmlError::Unsupported("struct variant in text"));
            }
            let map = match access.struct_variant(root, names_of(fields)) {
                Ok(map) => map,
                Err(error) => {
                    return Err(error);
                },
            };
            match decode_record(root, map, fields) {
                Ok(values) => match access.end(root) {
                    Ok(()) => Ok(Value::Variant(i, values)),
                    Err(error) => Err(error),
                },
                Err(error) => Err(error),
            }
        },
    }
}

/// Reads the members of a sequence.
pub fn decode_items(root: &mut RootReader, seq: SeqAccess, item: &Shape) -> (r: Result<
    Vec<Value>,
    XmlError,
>)
    ensures
        (outcomes(r), final(root).tape()) == items(*item, old(root).tape(), seq@),
        final(root).overlapping() == old(root).overlapping(),
    decreases item, measure(old(root).tape()) + 1,
{
    let mut walk = seq;
    let mut members: Vec<Value> = Vec::new();
    let ghost whole = items(*item, old(root).tape(), seq@);
    assert(values_view(members@) =~= Seq::empty());
    loop
        invariant
            root.overlapping() == old(root).overlapping(),
            measure(root.tape()) <= measure(old(root).tape()),
            whole == items(*item, old(root).tape(), seq@),
            match items(*item, root.tape(), walk@) {
                (Ok(more), left) => whole == (
                    Ok::<Seq<ValueView>, XmlErrorView>(values_view(members@) + more),
                    left,
                ),
                (Err(error), left) => whole == (Err::<Seq<ValueView>, XmlErrorView>(error), left),
            },
        decreases measure(root.tape()),
    {
        let before = root.taken();
        let takes_all = walk.takes_all();
        let child = match walk.next_element(root) {
            Ok(Some(child)) => child,
            Ok(None) => {
                assert(values_view(members@) + Seq::empty() =~= values_view(members@));
                return Ok(members);
            },
            Err(error) => {
                return Err(error);
            },
        };
        let read = decode_child(root, child, item);
        let failure = match &read {
            Ok(_) => None,
            Err(error) => Some(error.ends_a_run()),
        };
        let fate = settle_member(takes_all, before, root.taken(), failure);
        match read {
            Ok(value) => match fate {
                MemberFate::Kept => {
                    let ghost held = members@;
                    members.push(value);
                    proof {
                        assert(members@.drop_last() =~= held);
                        match items(*item, root.tape(), walk@) {
                            (Ok(more), _) => {
                                assert(values_view(held) + (seq![value@] + more) =~= values_view(
                                    members@,
                                ) + more);
                            },
                            (Err(_), _) => {},
                        }
                    }
                },
                _ => {
                    assert(values_view(members@) + Seq::empty() =~= values_view(members@));
                    return Ok(members);
                },
            },
            Err(error) => match fate {
                MemberFate::Fails => {
                    return Err(error);
                },
                _ => {
                    assert(values_view(members@) + Seq::empty() =~= values_view(members@));
                    return Ok(members);
                },
            },
        }
    }
}

/// The values that the fields of a record have so far, seen through their views.
pub open spec fn found_view(found: Seq<Option<Value>>) -> Seq<Option<ValueView>> {
    found.map_values(
        |slot: Option<Value>|
            match slot {
                Some(value) => Some(value@),
                None => None,
            },
    )
}

/// The value of a field for which the document holds nothing.
fn default_value(field: &Field) -> (r: Result<Value, XmlError>)
    ensures
        outcome(r) == without_key(*field),
{
    match &field.shape {
        Shape::Optional(_) => Ok(Value::Absent),
        Shape::Sequence(_) => {
            let none: Vec<Value> = Vec::new();
            assert(values_view(none@) =~= Seq::empty());
            Ok(Value::Sequence(none))
        },
        shape => {
            if text_eq(field.name.as_str(), "#text") {
                proof {
                    reveal_strlit("");
                    assert(""@ =~= Seq::<char>::empty());
                }
                decode_plain("", shape)
            } else {
                let mut message = String::from_str("missing field ");
                message.append(field.name.as_str());
                Err(XmlError::Custom(message))
            }
        },
    }
}

/// Gives each field that the document did not hold the value that it has without one.
fn finish(fields: &Vec<Field>, found: Vec<Option<Value>>) -> (r: Result<Vec<Value>, XmlError>)
    requires
        found.len() == fields.len(),
    ensures
        outcomes(r) == completed(fields@, found_view(found@), 0),
{
    let ghost held = found_view(found@);
    let mut found = found;
    let mut values: Vec<Value> = Vec::new();
    let mut failed: Option<XmlError> = None;
    assert(values_view(values@) =~= Seq::empty());
    // From the last field to the first, so that the error of the first field that is
    // missed is the one that is kept.
    while found.len() > 0
        invariant
            found.len() <= fields.len(),
            held.len() == fields.len(),
            found_view(found@) == held.subrange(0, found.len() as int),
            match failed {
                Some(error) => completed(fields@, held, found.len() as int) == Err::<
                    Seq<ValueView>,
                    XmlErrorView,
                >(error@),
                None => completed(fields@, held, found.len() as int) == Ok::<
                    Seq<ValueView>,
                    XmlErrorView,
                >(values_view(values@)),
            },
        decreases found.len(),
    {
        let ghost before = found@;
        let ghost rest = values@;
        let at = found.len() - 1;
        let slot = found.pop().unwrap();
        assert(found_view(before)[at as int] == held[at as int]);
        let value = match slot {
            Some(value) => Ok(value),
            None => default_value(&fields[at]),
        };
        match value {
            Ok(value) => {
                if failed.is_none() {
                    values.insert(0, value);
                    proof {
                        lemma_values_view(values@);
                        lemma_values_view(rest);
                        assert(values_view(values@) =~= seq![value@] + values_view(rest));
                    }
                }
            },
            Err(error) => {
                failed = Some(error);
            },
        }
        proof {
            assert(found_view(found@) =~= held.subrange(0, found.len() as int));
        }
    }
    match failed {
        Some(error) => Err(error),
        None => Ok(values),
    }
}

/// Reads the values of the fields of a record from the keys and values that `map` offers.
pub fn decode_record(root: &mut RootReader, map: MapAccess, fields: &Vec<Field>) -> (r: Result<
    Vec<Value>,
    XmlError,
>)
    requires
        map.well_formed(),
    ensures
        (outcomes(r), final(root).tape()) == record_values(
            fields@,
            old(root).tape(),
            map@,
            Seq::new(fields@.len(), |i: int| None),
        ),
        final(root).overlapping() == old(root).overlapping(),
    decreases fields, measure(old(root).tape()) + map@.attributes.len() + 1,
{
    let mut access = map;
    let ghost whole = record_values(
        fields@,
        old(root).tape(),
        map@,
        Seq::new(fields@.len(), |i: int| None),
    );
    let mut found: Vec<Option<Value>> = Vec::new();
    while found.len() < fields.len()
        invariant
            found.len() <= fields.len(),
            forall|j: int| 0 <= j < found.len() ==> found@[j] is None,
        decreases fields.len() - found.len(),
    {
        found.push(None);
    }
    assert(found_view(found@) =~= Seq::new(fields@.len(), |i: int| None));
    loop
        invariant
            access.well_formed(),
            found.len() == fields.len(),
            root.overlapping() == old(root).overlapping(),
            measure(root.tape()) + access@.attributes.len() <= measure(old(root).tape())
                + map@.attributes.len(),
            whole == record_values(fields@, root.tape(), access@, found_view(found@)),
            whole == record_values(
                fields@,
                old(root).tape(),
                map@,
                Seq::new(fields@.len(), |i: int| None),
            ),
        decreases measure(root.tape()) + access@.attributes.len(),
    {
        let taken_before = root.taken();
        let left_before = access.attributes_left();
        let ghost held = found_view(found@);
        let key = match access.next_key(root) {
            Ok(Some(key)) => key,
            Ok(None) => {
                return finish(fields, found);
            },
            Err(error) => {
                return Err(error);
            },
        };
        let name = key.name();
        proof {
            lemma_field_index(fields@, name@);
        }
        let place = find_field(fields, name.as_str());
        if let Some(i) = place {
            assert(held[i as int] is Some == found@[i as int] is Some);
            if found[i].is_some() {
                let mut message = String::from_str("duplicate field ");
                message.append(name.as_str());
                return Err(XmlError::Custom(message));
            }
        }
        let source = match access.value_for(root, &key) {
            Ok(source) => source,
            Err(error) => {
                return Err(error);
            },
        };
        let read = match place {
            Some(i) => match source {
                ValueSource::Plain(text) => decode_plain(text.as_str(), &fields[i].shape),
                ValueSource::Child(child) => decode_child(root, child, &fields[i].shape),
            },
            None => match source {
                ValueSource::Plain(_) => Ok(Value::Unit),
                ValueSource::Child(child) => {
                    let mut reader = child.reader;
                    match reader.ignore(root) {
                        Ok(()) => Ok(Value::Unit),
                        Err(error) => Err(error),
                    }
                },
            },
        };
        let value = match read {
            Ok(value) => value,
            Err(error) => {
                return Err(error);
            },
        };
        let left_now: u128 = (u64::MAX - root.taken()) as u128 + access.attributes_left() as u128;
        let left_then: u128 = (u64::MAX - taken_before) as u128 + left_before as u128;
        if left_now >= left_then {
            return Err(XmlError::Unsupported("a value that takes no event"));
        }
        if let Some(i) = place {
            found.set(i, Some(value));
            assert(found_view(found@) =~= held.update(i as int, Some(value@)));
        }
    }
}

/// A result with a list of entries, seen through their views.
pub open spec fn outcome_entries(r: Result<Vec<(String, Value)>, XmlError>) -> Result<
    Seq<(Seq<char>, ValueView)>,
    XmlErrorView,
> {
    match r {
        Ok(pairs) => Ok(entries_view(pairs@)),
        Err(error) => Err(error@),
    }
}

/// Reads the entries of a map from the keys and values that `map` offers.
pub fn decode_entries(root: &mut RootReader, map: MapAccess, value: &Shape) -> (r: Result<
    Vec<(String, Value)>,
    XmlError,
>)
    requires
        map.well_formed(),
    ensures
        (outcome_entries(r), final(root).tape()) == entries(*value, old(root).tape(), map@),
        final(root).overlapping() == old(root).overlapping(),
    decreases value, measure(old(root).tape()) + map@.attributes.len() + 1,
{
    let mut access = map;
    let mut pairs: Vec<(String, Value)> = Vec::new();
    let ghost whole = entries(*value, old(root).tape(), map@);
    assert(entries_view(pairs@) =~= Seq::empty());
    loop
        invariant
            access.well_formed(),
            root.overlapping() == old(root).overlapping(),
            measure(root.tape()) + access@.attributes.len() <= measure(old(root).tape())
                + map@.attributes.len(),
            whole == entries(*value, old(root).tape(), map@),
            match entries(*value, root.tape(), access@) {
                (Ok(more), left) => whole == (
                    Ok::<Seq<(Seq<char>, ValueView)>, XmlErrorView>(entries_view(pairs@) + more),
                    left,
                ),
                (Err(error), left) => whole == (
                    Err::<Seq<(Seq<char>, ValueView)>, XmlErrorView>(error),
                    left,
                ),
            },
        decreases measure(root.tape()) + access@.attributes.len(),
    {
        let taken_before = root.taken();
        let left_before = access.attributes_left();
        let key = match access.next_key(root) {
            Ok(Some(key)) => key,
            Ok(None) => {
                assert(entries_view(pairs@) + Seq::empty() =~= entries_view(pairs@));
                return Ok(pairs);
            },
            Err(error) => {
                return Err(error);
            },
        };
        let source = match access.value_for(root, &key) {
            Ok(source) => source,
            Err(error) => {
                return Err(error);
            },
        };
        let read = match source {
            ValueSource::Plain(text) => decode_plain(text.as_str(), value),
            ValueSource::Child(child) => decode_child(root, child, value),
        };
        let held = match read {
            Ok(held) => held,
            Err(error) => {
                return Err(error);
            },
        };
        let left_now: u128 = (u64::MAX - root.taken()) as u128 + access.attributes_left() as u128;
        let left_then: u128 = (u64::MAX - taken_before) as u128 + left_before as u128;
        if left_now >= left_then {
            return Err(XmlError::Unsupported("a value that takes no event"));
        }
        let name = key.name();
        let ghost before = pairs@;
        pairs.push((name, held));
        proof {
            assert(pairs@.drop_last() =~= before);
            match entries(*value, root.tape(), access@) {
                (Ok(more), _) => {
                    assert(entries_view(before) + (seq![(key@.name(), held@)] + more)
                        =~= entries_view(pairs@) + more);
                },
                (Err(_), _) => {},
            }
        }
    }
}

/// Reads the value of the document as a value of `shape`.
pub fn decode_root(root: &mut RootReader, shape: &Shape) -> (r: Result<Value, XmlError>)
    ensures
        (outcome(r), final(root).tape()) == root_value(
            *shape,
            old(root).tape(),
            old(root).overlapping(),
        ),
        final(root).overlapping() == old(root).overlapping(),
    decreases shape,
{
    let mut reader = root.child();
    match shape {
        Shape::Record(_, _) => decode_child(root, ChildDeserializer::new(reader), shape),
        Shape::Union(name, _) => decode_child(
            root,
            ChildDeserializer::new_with_element_name(reader, name.clone()),
            shape,
        ),
        Shape::Newtype(_, inner) => {
            if let Err(error) = reader.start_element(root) {
                return Err(error);
            }
            let mut child = ChildDeserializer::new_with_element_name(reader.child(), String::new());
            match decode_child(root, ChildDeserializer::new(reader.child()), inner) {
                Ok(value) => close(root, &mut child, value),
                Err(error) => Err(error),
            }
        },
        Shape::Optional(inner) => {
            let absent = match reader.peek(root) {
                Ok(event) => match event {
                    Event::EndElement => true,
                    _ => false,
                },
                Err(error) => {
                    return Err(error);
                },
            };
            if absent {
                Ok(Value::Absent)
            } else {
                match decode_root(root, inner) {
                    Ok(value) => Ok(Value::Present(Box::new(value))),
                    Err(error) => Err(error),
                }
            }
        },
        Shape::Bool => Err(XmlError::Unsupported("bool in document root")),
        Shape::Integer(_) => Err(XmlError::Unsupported("integer in document root")),
        Shape::Char => Err(XmlError::Unsupported("char in document root")),
        Shape::Text => Err(XmlError::Unsupported("string in document root")),
        Shape::Unit => Err(XmlError::Unsupported("unit in document root")),
        Shape::Sequence(_) => Err(XmlError::Unsupported("sequence in document root")),
        Shape::Tuple(_) => Err(XmlError::Unsupported("tuple in document root")),
        Shape::Dictionary(_) => Err(XmlError::Unsupported("map in document root")),
    }
}

/// The tape of a document of which nothing has been read yet: what the tokenizer of the
/// `xml` crate makes of `source` under `config`, as far as it matters to a reader.
pub open spec fn document_tape(config: xml::reader::ParserConfig, source: Seq<u8>) -> Tape {
    results_tape(tokens(config, source))
}

/// The tape for the results that a tokenizer has yet to give.
pub open spec fn results_tape(results: Seq<Result<RawEvent, xml::reader::Error>>) -> Tape {
    Tape {
        slots: unpulled(significant(events_before_end(results), Seq::empty())),
        failure: ending(events_before_end(results), Seq::empty(), error_at_end(results)),
        taken: 0,
    }
}

/// The tape of a list of events that were prepared beforehand.
pub open spec fn events_tape(events: Seq<RawEvent>) -> Tape {
    Tape {
        slots: unpulled(significant(events, Seq::empty())),
        failure: ending(events, Seq::empty(), None),
        taken: 0,
    }
}

/// The reader of one document.
pub struct Deserializer<'a> {
    reader: RootReader<'a>,
}

impl<'a> Deserializer<'a> {
    /// The rest of the document.
    pub closed spec fn tape(&self) -> Tape {
        self.reader.tape()
    }

    /// Whether sequences look for their members behind siblings of other names.
    pub closed spec fn overlapping(&self) -> bool {
        self.reader.overlapping()
    }

    /// A reader that draws on `tokenizer`, with sequences whose members stand together.
    pub fn new(tokenizer: Tokenizer<'a>) -> (deserializer: Self)
        ensures
            deserializer.tape() == results_tape(pending(tokenizer)),
            !deserializer.overlapping(),
    {
        Self { reader: RootReader::new(EventSource::new(tokenizer), false) }
    }

    /// A reader of `source` with the settings of `config`.
    pub fn from_config(config: SerdeXml, source: &'a str) -> (deserializer: Self)
        ensures
            deserializer.tape() == document_tape(config.parser_config(), vstd::utf8::encode_utf8(source@)),
            deserializer.overlapping() == config.overlaps(),
    {
        let overlapping_sequences = config.overlapping();
        let tokenizer = Tokenizer::new(config.into_parser(), source);
        Self { reader: RootReader::new(EventSource::new(tokenizer), overlapping_sequences) }
    }

    /// A reader of a document whose events were prepared beforehand.
    pub fn from_events(events: Vec<RawEvent>, overlapping_sequences: bool) -> (deserializer: Self)
        ensures
            deserializer.tape() == events_tape(events@),
            deserializer.overlapping() == overlapping_sequences,
    {
        Self { reader: RootReader::new(EventSource::replaying(events), overlapping_sequences) }
    }

    /// Reads the document as a value of `shape`.
    pub fn deserialize(&mut self, shape: &Shape) -> (r: Result<Value, XmlError>)
        ensures
            (outcome(r), final(self).tape()) == root_value(
                *shape,
                old(self).tape(),
                old(self).overlapping(),
            ),
            final(self).overlapping() == old(self).overlapping(),
    {
        decode_root(&mut self.reader, shape)
    }
}

/// Reads `text` as a document that holds a value of `shape`, with the settings that a new
/// configuration has.
pub fn from_str(text: &str, shape: &Shape) -> (r: Result<Value, XmlError>)
    ensures
        outcome(r) == root_value(
            *shape,
            document_tape(SerdeXml::default_parser(), vstd::utf8::encode_utf8(text@)),
            false,
        ).0,
{
    SerdeXml::new().from_str(text, shape)
}

/// Reads a list of events that were prepared beforehand as a document that holds a value
/// of `shape`.
pub fn from_events(events: Vec<RawEvent>, shape: &Shape, overlapping_sequences: bool) -> (r: Result<
    Value,
    XmlError,
>)
    ensures
        outcome(r) == root_value(*shape, events_tape(events@), overlapping_sequences).0,
{
    let mut deserializer = Deserializer::from_events(events, overlapping_sequences);
    deserializer.deserialize(shape)
}

} // verus!
