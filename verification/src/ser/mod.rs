pub mod child;
pub mod map;
pub mod plain;
pub mod seq;
pub mod tuple;
pub mod writer;

use crate::config::{Namespaces, SerdeXml};
use crate::error::{outcome, XmlError, XmlErrorView};
use crate::ser::child::{ChildSerializer, ChildSerializerView};
use crate::ser::map::{
    attribute_too_late, slot_of, FieldSlot, FieldSlotView, MapSerializer, StructSerializer,
    StructSerializerView,
};
use crate::ser::plain::{
    encode_plain, joined, misfit, misfit_error, plain_member_words, plain_text,
};
use crate::ser::seq::SequenceSerializer;
use crate::ser::tuple::TupleSerializer;
use crate::ser::writer::{
    emission, events_view, WriteEvent, Writer, WriterView,
};
use crate::value::{
    entries_view, lemma_values_view, values_view, Field, Payload, Shape, Value, ValueView, Variant,
};
use vstd::prelude::*;

verus! {

/// A value that is written as the character data of its element.
pub open spec fn text_written(
    shape: Shape,
    value: ValueView,
    writer: WriterView,
    name: Option<Seq<char>>,
) -> (Result<(), XmlErrorView>, WriterView) {
    match plain_text(shape, value) {
        Ok(Some(text)) => (Ok(()), writer.maybe_start(name).characters(text).maybe_end(name)),
        Ok(None) => (Ok(()), writer.maybe_start(name).maybe_end(name)),
        Err(error) => (Err(error), writer),
    }
}

/// The record that a writer begins for an element called `name`, inside an element called
/// `parent` if one is given.
pub open spec fn new_record(name: Seq<char>, parent: Option<Seq<char>>) -> StructSerializerView {
    StructSerializerView {
        name,
        parent,
        attributes: Seq::empty(),
        parent_written: false,
        start_written: false,
    }
}

/// What writing a value among the children of an element gives, and the writer after it.
pub open spec fn child_written(
    shape: Shape,
    value: ValueView,
    writer: WriterView,
    child: ChildSerializerView,
) -> (Result<(), XmlErrorView>, WriterView)
    decreases shape, 0nat,
{
    let name = child.name;
    match shape {
        Shape::Bool => text_written(shape, value, writer, name),
        Shape::Integer(_) => text_written(shape, value, writer, name),
        Shape::Char => text_written(shape, value, writer, name),
        Shape::Text => text_written(shape, value, writer, name),
        Shape::Unit => match value {
            ValueView::Unit => (Ok(()), writer.maybe_start(name).maybe_end(name)),
            _ => (Err(misfit()), writer),
        },
        Shape::Optional(inner) => match value {
            ValueView::Absent => (
                Ok(()),
                if child.newtype {
                    writer.maybe_start(name).maybe_end(name)
                } else {
                    writer
                },
            ),
            ValueView::Present(held) => child_written(*inner, *held, writer, child),
            _ => (Err(misfit()), writer),
        },
        Shape::Newtype(_, inner) => child_written(
            *inner,
            value,
            writer,
            ChildSerializerView { newtype: true, ..child },
        ),
        Shape::Sequence(item) => match value {
            ValueView::Sequence(items) => items_written(
                *item,
                items,
                0,
                writer,
                if child.newtype {
                    None
                } else {
                    name
                },
            ),
            _ => (Err(misfit()), writer),
        },
        Shape::Tuple(members) => match value {
            ValueView::Sequence(items) => if items.len() == members@.len() {
                let begun = writer.maybe_start(name);
                match plain_member_words(members@, items, 0) {
                    Ok(words) => (Ok(()), begun.characters(joined(words)).maybe_end(name)),
                    Err(error) => (Err(error), begun),
                }
            } else {
                (Err(misfit()), writer)
            },
            _ => (Err(misfit()), writer),
        },
        Shape::Dictionary(held) => match value {
            ValueView::Dictionary(pairs) => match entries_written(
                *held,
                pairs,
                0,
                writer.maybe_start(name),
            ) {
                (Ok(()), rest) => (Ok(()), rest.maybe_end(name)),
                (Err(error), rest) => (Err(error), rest),
            },
            _ => (Err(misfit()), writer),
        },
        Shape::Record(own, fields) => match value {
            ValueView::Record(values) => if values.len() == fields@.len() {
                record_written(
                    fields@,
                    values,
                    0,
                    writer,
                    new_record(
                        match name {
                            Some(name) => name,
                            None => own@,
                        },
                        None,
                    ),
                )
            } else {
                (Err(misfit()), writer)
            },
            _ => (Err(misfit()), writer),
        },
        Shape::Union(_, variants) => match value {
            ValueView::Variant(i, payload) => if 0 <= i < variants@.len() {
                variant_written(variants@[i], payload, writer, name)
            } else {
                (Err(misfit()), writer)
            },
            _ => (Err(misfit()), writer),
        },
    }
}

/// What writing a variant gives. The variant's element is called as the variant; where the
/// union has an element of its own, that is written around it.
pub open spec fn variant_written(
    variant: Variant,
    payload: Seq<ValueView>,
    writer: WriterView,
    name: Option<Seq<char>>,
) -> (Result<(), XmlErrorView>, WriterView)
    decreases variant, 0nat,
{
    match variant.payload {
        Payload::Unit => (
            Ok(()),
            writer.maybe_start(name).start(variant.name@, Seq::empty()).end().maybe_end(name),
        ),
        Payload::Newtype(inner) => if payload.len() == 1 {
            match child_written(
                inner,
                payload[0],
                writer.maybe_start(name),
                ChildSerializerView { name: Some(variant.name@), newtype: false },
            ) {
                (Ok(()), rest) => (Ok(()), rest.maybe_end(name)),
                (Err(error), rest) => (Err(error), rest),
            }
        } else {
            (Err(misfit()), writer)
        },
        Payload::Tuple(members) => if payload.len() == members@.len() {
            let begun = writer.maybe_start(name).start(variant.name@, Seq::empty());
            match plain_member_words(members@, payload, 0) {
                Ok(words) => (Ok(()), begun.characters(joined(words)).end().maybe_end(name)),
                Err(error) => (Err(error), begun),
            }
        } else {
            (Err(misfit()), writer)
        },
        Payload::Record(fields) => if payload.len() == fields@.len() {
            record_written(fields@, payload, 0, writer, new_record(variant.name@, name))
        } else {
            (Err(misfit()), writer)
        },
    }
}

/// What writing the members of a sequence from `from` on gives: each is written as an
/// element called `name`, or, without a name, as it writes itself.
pub open spec fn items_written(
    item: Shape,
    items: Seq<ValueView>,
    from: int,
    writer: WriterView,
    name: Option<Seq<char>>,
) -> (Result<(), XmlErrorView>, WriterView)
    decreases item, items.len() - from + 1,
{
    if 0 <= from < items.len() {
        match child_written(
            item,
            items[from],
            writer,
            ChildSerializerView { name, newtype: false },
        ) {
            (Ok(()), rest) => items_written(item, items, from + 1, rest, name),
            (Err(error), rest) => (Err(error), rest),
        }
    } else {
        (Ok(()), writer)
    }
}

/// What writing the entries of a map from `from` on gives.
pub open spec fn entries_written(
    held: Shape,
    pairs: Seq<(Seq<char>, ValueView)>,
    from: int,
    writer: WriterView,
) -> (Result<(), XmlErrorView>, WriterView)
    decreases held, pairs.len() - from + 1,
{
    if 0 <= from < pairs.len() {
        let written = if pairs[from].0 == "#text"@ {
            match plain_text(held, pairs[from].1) {
                Ok(Some(text)) => (Ok(()), writer.characters(text)),
                Ok(None) => (Ok(()), writer),
                Err(error) => (Err(error), writer),
            }
        } else {
            child_written(
                held,
                pairs[from].1,
                writer,
                ChildSerializerView { name: Some(pairs[from].0), newtype: false },
            )
        };
        match written {
            (Ok(()), rest) => entries_written(held, pairs, from + 1, rest),
            (Err(error), rest) => (Err(error), rest),
        }
    } else {
        (Ok(()), writer)
    }
}

/// What writing the fields of a record from `from` on, and then its end, gives.
pub open spec fn record_written(
    fields: Seq<Field>,
    values: Seq<ValueView>,
    from: int,
    writer: WriterView,
    record: StructSerializerView,
) -> (Result<(), XmlErrorView>, WriterView)
    decreases fields, fields.len() - from + 1,
{
    if 0 <= from < fields.len() && from < values.len() {
        let key = fields[from].name@;
        let shape = fields[from].shape;
        if record.takes(key) {
            let begun = record.begun_writer(writer, key);
            let state = record.with_parent().begun(key);
            match slot_of(key) {
                FieldSlotView::Attribute(name) => match plain_text(shape, values[from]) {
                    Ok(Some(text)) => record_written(
                        fields,
                        values,
                        from + 1,
                        begun,
                        StructSerializerView {
                            attributes: state.attributes.push((name, text)),
                            ..state
                        },
                    ),
                    Ok(None) => record_written(fields, values, from + 1, begun, state),
                    Err(error) => (Err(error), begun),
                },
                FieldSlotView::Text => match plain_text(shape, values[from]) {
                    Ok(Some(text)) => record_written(
                        fields,
                        values,
                        from + 1,
                        begun.characters(text),
                        state,
                    ),
                    Ok(None) => record_written(fields, values, from + 1, begun, state),
                    Err(error) => (Err(error), begun),
                },
                FieldSlotView::Content => match child_written(
                    shape,
                    values[from],
                    begun,
                    ChildSerializerView { name: None, newtype: false },
                ) {
                    (Ok(()), rest) => record_written(fields, values, from + 1, rest, state),
                    (Err(error), rest) => (Err(error), rest),
                },
                FieldSlotView::Element(name) => match child_written(
                    shape,
                    values[from],
                    begun,
                    ChildSerializerView { name: Some(name), newtype: false },
                ) {
                    (Ok(()), rest) => record_written(fields, values, from + 1, rest, state),
                    (Err(error), rest) => (Err(error), rest),
                },
            }
        } else {
            (Err(attribute_too_late(record.name, key)), writer)
        }
    } else {
        (Ok(()), record.ended(writer))
    }
}

/// What writing a value as a document gives. The outermost element is that of a record, of
/// the type of a tagged union, or of a newtype; nothing else has a name to give to it.
pub open spec fn root_written(shape: Shape, value: ValueView, writer: WriterView) -> (
    Result<(), XmlErrorView>,
    WriterView,
)
    decreases shape,
{
    match shape {
        Shape::Record(_, _) => child_written(
            shape,
            value,
            writer,
            ChildSerializerView { name: None, newtype: false },
        ),
        Shape::Union(name, _) => child_written(
            shape,
            value,
            writer,
            ChildSerializerView { name: Some(name@), newtype: false },
        ),
        Shape::Newtype(name, inner) => child_written(
            *inner,
            value,
            writer,
            ChildSerializerView { name: Some(name@), newtype: true },
        ),
        Shape::Optional(inner) => match value {
            ValueView::Absent => (Ok(()), writer),
            ValueView::Present(held) => root_written(*inner, *held, writer),
            _ => (Err(misfit()), writer),
        },
        Shape::Bool => (Err(XmlErrorView::Unsupported("bool in document root"@)), writer),
        Shape::Integer(_) => (Err(XmlErrorView::Unsupported("integer in document root"@)), writer),
        Shape::Char => (Err(XmlErrorView::Unsupported("char in document root"@)), writer),
        Shape::Text => (Err(XmlErrorView::Unsupported("string in document root"@)), writer),
        Shape::Unit => (Err(XmlErrorView::Unsupported("unit in document root"@)), writer),
        Shape::Sequence(_) => (
            Err(XmlErrorView::Unsupported("sequence in document root"@)),
            writer,
        ),
        Shape::Tuple(_) => (Err(XmlErrorView::Unsupported("tuple in document root"@)), writer),
        Shape::Dictionary(_) => (Err(XmlErrorView::Unsupported("map in document root"@)), writer),
    }
}

/// A result without a value, with its error seen through its view.
pub open spec fn done(r: Result<(), XmlError>) -> Result<(), XmlErrorView> {
    match r {
        Ok(()) => Ok(()),
        Err(error) => Err(error@),
    }
}

/// Writes a value as the character data of its element.
fn encode_text(writer: &mut Writer, child: &ChildSerializer, shape: &Shape, value: &Value) -> (r:
    Result<(), XmlError>)
    ensures
        (done(r), final(writer)@) == text_written(*shape, value@, old(writer)@, child@.name),
{
    match encode_plain(shape, value) {
        Ok(text) => {
            child.maybe_start_element(writer);
            if let Some(text) = text {
                writer.characters(text.as_str());
            }
            child.maybe_end_element(writer);
            Ok(())
        },
        Err(error) => Err(error),
    }
}

/// Hands the members of a tuple to its writer, as plain texts.
fn encode_members(tuple: &mut TupleSerializer, members: &Vec<Shape>, items: &Vec<Value>) -> (r:
    Result<(), XmlError>)
    requires
        items.len() == members.len(),
        old(tuple).words() == Seq::<Seq<char>>::empty(),
    ensures
        final(tuple).ends_element() == old(tuple).ends_element(),
        match r {
            Ok(()) => plain_member_words(members@, values_view(items@), 0) == Ok::<
                Seq<Seq<char>>,
                XmlErrorView,
            >(final(tuple).words()),
            Err(error) => plain_member_words(members@, values_view(items@), 0) == Err::<
                Seq<Seq<char>>,
                XmlErrorView,
            >(error@),
        },
{
    let mut i: usize = 0;
    proof {
        match plain_member_words(members@, values_view(items@), 0) {
            Ok(rest) => {
                assert(tuple.words() + rest =~= rest);
            },
            Err(_) => {},
        }
    }
    while i < items.len()
        invariant
            i <= items.len(),
            items.len() == members.len(),
            tuple.ends_element() == old(tuple).ends_element(),
            match plain_member_words(members@, values_view(items@), i as int) {
                Ok(rest) => plain_member_words(members@, values_view(items@), 0) == Ok::<
                    Seq<Seq<char>>,
                    XmlErrorView,
                >(tuple.words() + rest),
                Err(error) => plain_member_words(members@, values_view(items@), 0) == Err::<
                    Seq<Seq<char>>,
                    XmlErrorView,
                >(error),
            },
        decreases items.len() - i,
    {
        proof {
            lemma_values_view(items@);
        }
        let ghost before = tuple.words();
        match encode_plain(&members[i], &items[i]) {
            Ok(word) => {
                let ghost shown = crate::ser::plain::plain_outcome(Ok(word))->Ok_0;
                tuple.serialize_element(word);
                proof {
                    match plain_member_words(members@, values_view(items@), i + 1) {
                        Ok(rest) => {
                            match shown {
                                Some(w) => {
                                    assert(before + (seq![w] + rest) =~= tuple.words() + rest);
                                },
                                None => {},
                            }
                        },
                        Err(_) => {},
                    }
                }
            },
            Err(error) => {
                return Err(error);
            },
        }
        i = i + 1;
    }
    proof {
        assert(tuple.words() + Seq::<Seq<char>>::empty() =~= tuple.words());
    }
    Ok(())
}

/// Writes `value`, which is of `shape`, among the children of an element.
pub fn encode_child(writer: &mut Writer, child: ChildSerializer, shape: &Shape, value: &Value) -> (r:
    Result<(), XmlError>)
    ensures
        (done(r), final(writer)@) == child_written(*shape, value@, old(writer)@, child@),
    decreases shape, 0nat,
{
    match shape {
        Shape::Bool => encode_text(writer, &child, shape, value),
        Shape::Integer(_) => encode_text(writer, &child, shape, value),
        Shape::Char => encode_text(writer, &child, shape, value),
        Shape::Text => encode_text(writer, &child, shape, value),
        Shape::Unit => match value {
            Value::Unit => {
                child.maybe_start_element(writer);
                child.maybe_end_element(writer);
                Ok(())
            },
            _ => Err(misfit_error()),
        },
        Shape::Optional(inner) => match value {
            Value::Absent => {
                if child.newtype_struct {
                    child.maybe_start_element(writer);
                    child.maybe_end_element(writer);
                }
                Ok(())
            },
            Value::Present(held) => encode_child(writer, child, inner, held),
            _ => Err(misfit_error()),
        },
        Shape::Newtype(_, inner) => {
            let mut child = child;
            child.newtype_struct = true;
            encode_child(writer, child, inner, value)
        },
        Shape::Sequence(item) => match value {
            Value::Sequence(items) => {
                let sequence = if child.newtype_struct {
                    SequenceSerializer::new(None)
                } else {
                    SequenceSerializer::new(child.element_name)
                };
                encode_items(writer, sequence, item, items)
            },
            _ => Err(misfit_error()),
        },
        Shape::Tuple(members) => match value {
            Value::Sequence(items) => {
                proof {
                    lemma_values_view(items@);
                }
                if items.len() != members.len() {
                    return Err(misfit_error());
                }
                let should_end_element = child.maybe_start_element(writer);
                let mut tuple = TupleSerializer::new(should_end_element);
                match encode_members(&mut tuple, members, items) {
                    Ok(()) => {
                        tuple.end(writer);
                        Ok(())
                    },
                    Err(error) => Err(error),
                }
            },
            _ => Err(misfit_error()),
        },
        Shape::Dictionary(held) => match value {
            Value::Dictionary(pairs) => {
                let should_end_element = child.maybe_start_element(writer);
                let map = MapSerializer::new(should_end_element);
                encode_entries(writer, map, held, pairs)
            },
            _ => Err(misfit_error()),
        },
        Shape::Record(own, fields) => match value {
            Value::Record(values) => {
                proof {
                    lemma_values_view(values@);
                }
                if values.len() != fields.len() {
                    return Err(misfit_error());
                }
                let name = match child.element_name {
                    Some(name) => name,
                    None => own.clone(),
                };
                encode_record(writer, StructSerializer::new(name), fields, values)
            },
            _ => Err(misfit_error()),
        },
        Shape::Union(_, variants) => match value {
            Value::Variant(i, payload) => {
                if *i < variants.len() {
                    encode_variant(writer, child.element_name, &variants[*i], payload)
                } else {
                    Err(misfit_error())
                }
            },
            _ => Err(misfit_error()),
        },
    }
}

/// Writes a variant of a tagged union; `name` is the name of the union's own element, if
/// it has one.
pub fn encode_variant(
    writer: &mut Writer,
    name: Option<String>,
    variant: &Variant,
    payload: &Vec<Value>,
) -> (r: Result<(), XmlError>)
    ensures
        (done(r), final(writer)@) == variant_written(
            *variant,
            values_view(payload@),
            old(writer)@,
            crate::de::reader::prefix_view(name),
        ),
    decreases variant, 0nat,
{
    proof {
        lemma_values_view(payload@);
    }
    match &variant.payload {
        Payload::Unit => {
            writer.maybe_start_element(&name);
            writer.start_element(variant.name.as_str());
            writer.end_element();
            writer.maybe_end_element(&name);
            Ok(())
        },
        Payload::Newtype(inner) => {
            if payload.len() != 1 {
                return Err(misfit_error());
            }
            writer.maybe_start_element(&name);
            match encode_child(
                writer,
                ChildSerializer::new(Some(variant.name.clone())),
                inner,
                &payload[0],
            ) {
                Ok(()) => {
                    writer.maybe_end_element(&name);
                    Ok(())
                },
                Err(error) => Err(error),
            }
        },
        Payload::Tuple(members) => {
            if payload.len() != members.len() {
                return Err(misfit_error());
            }
            writer.maybe_start_element(&name);
            writer.start_element(variant.name.as_str());
            let mut tuple = TupleSerializer::new(name.is_some());
            match encode_members(&mut tuple, members, payload) {
                Ok(()) => {
                    tuple.end_variant(writer);
                    Ok(())
                },
                Err(error) => Err(error),
            }
        },
        Payload::Record(fields) => {
            if payload.len() != fields.len() {
                return Err(misfit_error());
            }
            encode_record(
                writer,
                StructSerializer::new_variant(name, variant.name.clone()),
                fields,
                payload,
            )
        },
    }
}

/// Writes the members of a sequence.
pub fn encode_items(
    writer: &mut Writer,
    sequence: SequenceSerializer,
    item: &Shape,
    items: &Vec<Value>,
) -> (r: Result<(), XmlError>)
    ensures
        (done(r), final(writer)@) == items_written(
            *item,
            values_view(items@),
            0,
            old(writer)@,
            sequence.name(),
        ),
    decreases item, items.len() + 1,
{
    let ghost whole = items_written(*item, values_view(items@), 0, old(writer)@, sequence.name());
    let mut i: usize = 0;
    proof {
        lemma_values_view(items@);
    }
    while i < items.len()
        invariant
            i <= items.len(),
            values_view(items@).len() == items.len(),
            whole == items_written(*item, values_view(items@), 0, old(writer)@, sequence.name()),
            whole == items_written(*item, values_view(items@), i as int, writer@, sequence.name()),
        decreases items.len() - i,
    {
        proof {
            lemma_values_view(items@);
        }
        match encode_child(writer, sequence.serialize_element(), item, &items[i]) {
            Ok(()) => {},
            Err(error) => {
                return Err(error);
            },
        }
        i = i + 1;
    }
    Ok(())
}

/// Writes the entries of a map, and closes the map's element if it has one of its own.
pub fn encode_entries(
    writer: &mut Writer,
    map: MapSerializer,
    held: &Shape,
    pairs: &Vec<(String, Value)>,
) -> (r: Result<(), XmlError>)
    ensures
        match entries_written(*held, entries_view(pairs@), 0, old(writer)@) {
            (Ok(()), rest) => r is Ok && final(writer)@ == if map.ends_element() {
                rest.end()
            } else {
                rest
            },
            (Err(error), rest) => done(r) == Err::<(), XmlErrorView>(error) && final(writer)@
                == rest,
        },
    decreases held, pairs.len() + 1,
{
    let mut walk = map;
    let ghost whole = entries_written(*held, entries_view(pairs@), 0, old(writer)@);
    let mut i: usize = 0;
    proof {
        crate::value::lemma_entries_view(pairs@);
    }
    while i < pairs.len()
        invariant
            i <= pairs.len(),
            entries_view(pairs@).len() == pairs.len(),
            walk.ends_element() == map.ends_element(),
            whole == entries_written(*held, entries_view(pairs@), 0, old(writer)@),
            whole == entries_written(*held, entries_view(pairs@), i as int, writer@),
        decreases pairs.len() - i,
    {
        proof {
            crate::value::lemma_entries_view(pairs@);
        }
        walk.serialize_key(pairs[i].0.clone());
        let written = match walk.serialize_value() {
            None => match encode_plain(held, &pairs[i].1) {
                Ok(Some(text)) => {
                    writer.characters(text.as_str());
                    Ok(())
                },
                Ok(None) => Ok(()),
                Err(error) => Err(error),
            },
            Some(name) => encode_child(writer, ChildSerializer::new(Some(name)), held, &pairs[i].1),
        };
        if let Err(error) = written {
            return Err(error);
        }
        i = i + 1;
    }
    walk.end(writer);
    Ok(())
}

/// Writes the fields of a record, and its end.
pub fn encode_record(
    writer: &mut Writer,
    record: StructSerializer,
    fields: &Vec<Field>,
    values: &Vec<Value>,
) -> (r: Result<(), XmlError>)
    requires
        values.len() == fields.len(),
        record.well_formed(),
    ensures
        (done(r), final(writer)@) == record_written(
            fields@,
            values_view(values@),
            0,
            old(writer)@,
            record@,
        ),
    decreases fields, fields.len() + 1,
{
    let mut state = record;
    let ghost whole = record_written(fields@, values_view(values@), 0, old(writer)@, record@);
    let mut i: usize = 0;
    proof {
        lemma_values_view(values@);
    }
    while i < fields.len()
        invariant
            i <= fields.len(),
            values.len() == fields.len(),
            values_view(values@).len() == values.len(),
            whole == record_written(fields@, values_view(values@), 0, old(writer)@, record@),
            whole == record_written(fields@, values_view(values@), i as int, writer@, state@),
            state.well_formed(),
        decreases fields.len() - i,
    {
        proof {
            lemma_values_view(values@);
        }
        let slot = match state.begin_field(writer, fields[i].name.as_str()) {
            Ok(slot) => slot,
            Err(error) => {
                return Err(error);
            },
        };
        let written = match slot {
            FieldSlot::Attribute(name) => match encode_plain(&fields[i].shape, &values[i]) {
                Ok(Some(text)) => {
                    state.push_attribute(name, text);
                    Ok(())
                },
                Ok(None) => Ok(()),
                Err(error) => Err(error),
            },
            FieldSlot::Text => match encode_plain(&fields[i].shape, &values[i]) {
                Ok(Some(text)) => {
                    writer.characters(text.as_str());
                    Ok(())
                },
                Ok(None) => Ok(()),
                Err(error) => Err(error),
            },
            FieldSlot::Content => encode_child(
                writer,
                ChildSerializer::new(None),
                &fields[i].shape,
                &values[i],
            ),
            FieldSlot::Element(name) => encode_child(
                writer,
                ChildSerializer::new(Some(name)),
                &fields[i].shape,
                &values[i],
            ),
        };
        if let Err(error) = written {
            return Err(error);
        }
        i = i + 1;
    }
    state.end(writer);
    Ok(())
}

/// Writes `value`, which is of `shape`, as a document.
pub fn encode_root(writer: &mut Writer, shape: &Shape, value: &Value) -> (r: Result<(), XmlError>)
    ensures
        (done(r), final(writer)@) == root_written(*shape, value@, old(writer)@),
    decreases shape,
{
    match shape {
        Shape::Record(_, _) => encode_child(writer, ChildSerializer::new(None), shape, value),
        Shape::Union(name, _) => encode_child(
            writer,
            ChildSerializer::new(Some(name.clone())),
            shape,
            value,
        ),
        Shape::Newtype(name, inner) => encode_child(
            writer,
            ChildSerializer::for_newtype_struct(name.clone()),
            inner,
            value,
        ),
        Shape::Optional(inner) => match value {
            Value::Absent => Ok(()),
            Value::Present(held) => encode_root(writer, inner, held),
            _ => Err(misfit_error()),
        },
        Shape::Bool => Err(XmlError::Unsupported("bool in document root")),
        Shape::Integer(_) => Err(XmlError::Unsupported("integer in document root")),
        Shape::Char => Err(XmlError::Unsupported("char in document root")),
        Shape::Text => Err(XmlError::Unsupported("string in document root")),
        Shape::Unit => Err(XmlError::Unsupported("unit in document root")),
        Shape::Sequence(_) => Err(XmlError::Unsupported("sequence in document root")),
        Shape::Tuple(_) => Err(XmlError::Unsupported("tuple in document root")),
        Shape::Dictionary(_) => Err(XmlError::Unsupported("map in document root")),
    }
}

/// The writer of one document.
pub struct Serializer {
    writer: Writer,
}

impl View for Serializer {
    type V = WriterView;

    closed spec fn view(&self) -> WriterView {
        self.writer@
    }
}

/// The writer of a document of which nothing has been written, with these namespaces.
pub open spec fn blank(namespaces: Seq<(Seq<char>, Seq<char>)>) -> WriterView {
    WriterView { events: Seq::empty(), namespaces, opened: false }
}

impl Serializer {
    /// A writer whose outermost element declares `namespaces`.
    pub fn new(namespaces: Namespaces) -> (serializer: Self)
        ensures
            serializer@ == blank(namespaces.entries()),
    {
        Self { writer: Writer::new(namespaces) }
    }

    /// Writes `value`, which is of `shape`, as a document.
    pub fn serialize(&mut self, shape: &Shape, value: &Value) -> (r: Result<(), XmlError>)
        ensures
            (done(r), final(self)@) == root_written(*shape, value@, old(self)@),
    {
        encode_root(&mut self.writer, shape, value)
    }

    /// The events that have been written, in order.
    pub fn into_events(self) -> (events: Vec<WriteEvent>)
        ensures
            events_view(events@) == self@.events,
    {
        self.writer.into_events()
    }
}

/// The error that `String::from_utf8` returns for bytes that are no UTF-8.
pub uninterp spec fn utf8_failure(bytes: Seq<u8>) -> std::string::FromUtf8Error;

/// `String::from_utf8`: the text that the bytes encode, or its error if they are no UTF-8.
#[verifier::external_body]
pub(crate) fn text_of_bytes(bytes: Vec<u8>) -> (r: Result<String, std::string::FromUtf8Error>)
    ensures
        r is Ok <==> vstd::utf8::valid_utf8(bytes@),
        r matches Ok(text) ==> text@ == vstd::utf8::decode_utf8(bytes@),
        r matches Err(cause) ==> cause == utf8_failure(bytes@),
{
    String::from_utf8(bytes)
}

/// The text that the bytes encode, or the error that says that they encode none.
pub open spec fn text_read(bytes: Seq<u8>) -> Result<Seq<char>, XmlErrorView> {
    if vstd::utf8::valid_utf8(bytes) {
        Ok(vstd::utf8::decode_utf8(bytes))
    } else {
        Err(XmlErrorView::FromUtf8(utf8_failure(bytes)))
    }
}

/// The text of a document, given what came of writing its value: the events that were
/// written go to an emitter with the settings `config`, also where the value could not be
/// written to the end. An event that the emitter refuses is reported first, then the error
/// of the value, then bytes that are no text.
pub open spec fn document_text(
    config: xml::writer::EmitterConfig,
    written: (Result<(), XmlErrorView>, WriterView),
) -> Result<Seq<char>, XmlErrorView> {
    match emission(config, written.1.events, 0) {
        Err(error) => Err(error),
        Ok(bytes) => match written.0 {
            Err(error) => Err(error),
            Ok(()) => text_read(bytes),
        },
    }
}

/// Writes `value`, which is of `shape`, as a document, with the settings that a new
/// configuration has, and gives the text of the document.
pub fn to_string(shape: &Shape, value: &Value) -> (r: Result<String, XmlError>)
    ensures
        outcome(r) == document_text(
            SerdeXml::default_emitter(),
            root_written(*shape, value@, blank(Seq::empty())),
        ),
{
    SerdeXml::new().to_string(shape, value)
}

} // verus!
