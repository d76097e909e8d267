use crate::de::buffer::{lemma_seek, lemma_seek_padded, Tape};
use crate::de::child::ChildView;
use crate::de::plain::unknown_variant;
use crate::de::reader::{AttributeView, ElementView, EventView};
use crate::de::{
    child_value, completed, record_access, record_values, root_value, variant_value,
};
use crate::de::map::{next_key, KeyView, MapAccessView};
use crate::de::seq::{find_member, lemma_crossing_ok, SeqAccessView};
use crate::error::XmlErrorView;
use crate::ser::map::{attribute_too_late, is_attribute_key, slot_of, StructSerializerView};
use crate::ser::record_written;
use crate::ser::writer::WriterView;
use crate::value::{variant_index, Field, Shape, ValueView, Variant};
use vstd::prelude::*;

verus! {

/// The events of a tape between two places, in order.
pub open spec fn seen_between(tape: Tape, from: int, to: int) -> Seq<EventView>
    decreases to - from,
{
    if 0 <= from < to && from < tape.slots.len() {
        match tape.slots[from] {
            Some(event) => seq![event] + seen_between(tape, from + 1, to),
            None => seen_between(tape, from + 1, to),
        }
    } else {
        Seq::empty()
    }
}

proof fn lemma_visible_split(tape: Tape, from: int, at: int)
    requires
        0 <= from <= at <= tape.slots.len(),
    ensures
        tape.visible(from) == seen_between(tape, from, at) + tape.visible(at),
    decreases at - from,
{
    if from < at {
        lemma_visible_split(tape, from + 1, at);
        match tape.slots[from] {
            Some(event) => {
                assert(seq![event] + (seen_between(tape, from + 1, at) + tape.visible(at))
                    =~= (seq![event] + seen_between(tape, from + 1, at)) + tape.visible(at));
            },
            None => {},
        }
    } else {
        assert(seen_between(tape, from, at) + tape.visible(at) =~= tape.visible(at));
    }
}

proof fn lemma_seen_between_same(a: Tape, b: Tape, from: int, to: int)
    requires
        0 <= from,
        to <= a.slots.len(),
        a.slots.len() == b.slots.len(),
        forall|i: int| from <= i < to ==> a.slots[i] == b.slots[i],
    ensures
        seen_between(a, from, to) == seen_between(b, from, to),
    decreases to - from,
{
    if from < to {
        lemma_seen_between_same(a, b, from + 1, to);
    }
}

proof fn lemma_visible_same(a: Tape, b: Tape, from: int)
    requires
        0 <= from,
        a.slots.len() == b.slots.len(),
        forall|i: int| from <= i < a.slots.len() ==> a.slots[i] == b.slots[i],
    ensures
        a.visible(from) == b.visible(from),
    decreases a.slots.len() - from,
{
    if from < a.slots.len() {
        lemma_visible_same(a, b, from + 1);
    }
}

proof fn lemma_seek_from_later(a: Tape, b: Tape, from: int)
    requires
        0 <= from,
        a.slots.len() == b.slots.len(),
        forall|i: int| from <= i < a.slots.len() ==> a.slots[i] == b.slots[i],
    ensures
        b.seek(from) == a.seek(from),
    decreases a.slots.len() - from,
{
    if from < a.slots.len() && a.slots[from] is None {
        lemma_seek_from_later(a, b, from + 1);
    }
}

proof fn lemma_seek_over_mark(full: Tape, rest: Tape, at: int, from: int)
    requires
        0 <= from <= at < full.slots.len(),
        full.slots[at] is Some,
        rest.slots == full.slots.update(at, None),
    ensures
        rest.seek(from) == if full.seek(from) == at {
            full.seek(at + 1)
        } else {
            full.seek(from)
        },
        rest.seek(from) != at,
    decreases at - from,
{
    lemma_seek(full, from);
    if from == at {
        lemma_seek_from_later(full, rest, at + 1);
        lemma_seek(full, at + 1);
    } else if full.slots[from] is None {
        assert(rest.slots[from] is None);
        lemma_seek_over_mark(full, rest, at, from + 1);
    } else {
        assert(rest.slots[from] == full.slots[from]);
    }
}

/// An event that one reader has consumed in place is seen by no reader, wherever it
/// stands, and every other event is seen where it was: a reader that had the consumed
/// event before it has the next one before it now, and every other reader has before it
/// what it had. The events that a reader can still see are those that it could see
/// before, in the same order, without the one that was consumed.
pub proof fn law_consumed_in_place_is_invisible(tape: Tape, consumer: int, observer: int)
    requires
        0 <= consumer,
        0 <= observer,
        tape.reaches(tape.seek(consumer)),
        tape.seek(consumer) > 0,
    ensures
        ({
            let at = tape.seek(consumer);
            let full = tape.padded(at + 1);
            let rest = tape.after_next(consumer);
            &&& rest.slots.len() == full.slots.len()
            &&& rest.slots[at] is None
            &&& forall|i: int| 0 <= i < rest.slots.len() && i != at ==> rest.slots[i] == full.slots[i]
            &&& rest.seek(observer) != at
            &&& rest.seek(observer) == if full.seek(observer) == at {
                full.seek(at + 1)
            } else {
                full.seek(observer)
            }
            &&& observer <= at ==> full.visible(observer) == seen_between(full, observer, at)
                + seq![tape.event(at)] + full.visible(at + 1)
            &&& observer <= at ==> rest.visible(observer) == seen_between(full, observer, at)
                + full.visible(at + 1)
            &&& observer > at ==> rest.visible(observer) == full.visible(observer)
        }),
{
    let at = tape.seek(consumer);
    let full = tape.padded(at + 1);
    let rest = tape.after_next(consumer);
    lemma_seek(tape, consumer);
    assert(full.slots[at] is Some) by {
        if at < tape.slots.len() {
            assert(full.slots[at] == tape.slots[at]);
        }
    }
    assert(full.slots[at]->0 == tape.event(at)) by {
        if at < tape.slots.len() {
            assert(full.slots[at] == tape.slots[at]);
        }
    }
    if observer <= at {
        lemma_seek_over_mark(full, rest, at, observer);
        lemma_visible_split(full, observer, at);
        lemma_visible_split(rest, observer, at);
        lemma_seen_between_same(full, rest, observer, at);
        lemma_visible_same(full, rest, at + 1);
        assert(full.visible(at) == seq![tape.event(at)] + full.visible(at + 1));
        assert(rest.visible(at) == rest.visible(at + 1));
        assert(seen_between(full, observer, at) + (seq![tape.event(at)] + full.visible(at + 1))
            =~= seen_between(full, observer, at) + seq![tape.event(at)] + full.visible(at + 1));
    } else {
        lemma_seek_from_later(full, rest, observer);
        lemma_seek(full, observer);
        lemma_visible_same(full, rest, observer);
    }
}

/// What a reader consumes at the front of the buffer is gone for every reader: the slot
/// is removed, and a reader that is made at the front afterwards has before it what stood
/// behind the consumed event.
pub proof fn law_consumed_at_front_is_removed(tape: Tape, consumer: int)
    requires
        0 <= consumer,
        tape.reaches(tape.seek(consumer)),
        tape.seek(consumer) == 0,
    ensures
        ({
            let full = tape.padded(1);
            let rest = tape.after_next(consumer);
            &&& rest.slots == full.slots.skip(1)
            &&& rest.visible(0) == full.visible(1)
            &&& rest.seek(0) + 1 == full.seek(1)
            &&& full.visible(0) == seq![tape.event(0)] + rest.visible(0)
        }),
{
    let full = tape.padded(1);
    let rest = tape.after_next(consumer);
    lemma_seek(tape, consumer);
    assert(full.slots[0] is Some) by {
        if 0 < tape.slots.len() {
            assert(full.slots[0] == tape.slots[0]);
        }
    }
    assert(full.slots[0]->0 == tape.event(0)) by {
        if 0 < tape.slots.len() {
            assert(full.slots[0] == tape.slots[0]);
        }
    }
    lemma_shifted(full, rest, 0);
}

proof fn lemma_shifted(full: Tape, rest: Tape, from: int)
    requires
        0 <= from,
        full.slots.len() > 0,
        rest.slots == full.slots.skip(1),
    ensures
        rest.visible(from) == full.visible(from + 1),
        rest.seek(from) + 1 == full.seek(from + 1),
    decreases rest.slots.len() - from,
{
    if from < rest.slots.len() {
        assert(rest.slots[from] == full.slots[from + 1]);
        lemma_shifted(full, rest, from + 1);
    }
}

/// A sequence whose members keep together ends at the start of an element of another
/// name: it has no further member, and nothing is consumed.
pub proof fn law_contiguous_sequence_ends_at_another_name(
    tape: Tape,
    cursor: int,
    name: Seq<char>,
)
    requires
        0 <= cursor < tape.slots.len(),
        tape.slots[cursor] matches Some(EventView::StartElement(element)) && element.qname()
            != name,
    ensures
        ({
            let step = find_member(
                SeqAccessView { cursor, overlapping: false, name: Some(name), max: None },
                tape,
            );
            &&& step.member == Ok::<Option<ChildView>, XmlErrorView>(None)
            &&& step.tape == tape
        }),
{
    assert(tape.seek(cursor) == cursor);
    assert(tape.padded(cursor + 1) == tape);
}

/// A sequence whose members may overlap walks over an element of another name, which stays
/// in the buffer, and takes the element of its own name that starts behind it for its next
/// member.
pub proof fn law_overlapping_sequence_finds_the_member_behind(
    tape: Tape,
    cursor: int,
    name: Seq<char>,
)
    requires
        0 <= cursor < tape.slots.len(),
        tape.slots[cursor] matches Some(EventView::StartElement(element)) && element.qname()
            != name,
        match tape.crossing(cursor + 1, 1).0 {
            Ok(end) => end < tape.slots.len() && (tape.slots[end] matches Some(
                EventView::StartElement(element),
            ) && element.qname() == name),
            Err(_) => false,
        },
    ensures
        ({
            let step = find_member(
                SeqAccessView { cursor, overlapping: true, name: Some(name), max: None },
                tape,
            );
            let end = tape.crossing(cursor + 1, 1).0->Ok_0;
            &&& step.member == Ok::<Option<ChildView>, XmlErrorView>(
                Some(ChildView { cursor: end, overlapping: true, name: Some(name) }),
            )
            &&& step.tape == tape
        }),
{
    let end = tape.crossing(cursor + 1, 1).0->Ok_0;
    lemma_crossing_ok(tape, cursor + 1, 1);
    assert(tape.seek(cursor) == cursor);
    assert(tape.padded(cursor + 1) == tape);
    assert(tape.seek(end) == end);
    assert(tape.padded(end + 1) == tape);
    let behind = SeqAccessView { cursor: end, overlapping: true, name: Some(name), max: None };
    assert(find_member(behind, tape).member == Ok::<Option<ChildView>, XmlErrorView>(
        Some(ChildView { cursor: end, overlapping: true, name: Some(name) }),
    ));
}

/// The start of a child element is offered to the field of its name wherever the record
/// declares one, and to the field for the unclaimed children where it declares none; nothing
/// is consumed for the offer.
pub proof fn law_child_goes_to_its_field_or_to_the_content(map: MapAccessView, tape: Tape)
    requires
        map.attributes.len() == 0,
        0 <= map.cursor < tape.slots.len(),
        tape.slots[map.cursor] is Some,
        tape.slots[map.cursor]->0 is StartElement,
        map.content,
    ensures
        ({
            let name = tape.slots[map.cursor]->0->StartElement_0.qname();
            let offered = next_key(map, tape);
            &&& offered.key == Ok::<Option<KeyView>, XmlErrorView>(
                Some(
                    if map.fields.contains(name) {
                        KeyView::Element(name)
                    } else {
                        KeyView::Content
                    },
                ),
            )
            &&& offered.tape == tape
            &&& offered.map.cursor == map.cursor
        }),
{
    assert(tape.seek(map.cursor) == map.cursor);
    assert(tape.padded(map.cursor + 1) == tape);
}

/// A tag that names no variant of the union is refused, and nothing is consumed for it.
pub proof fn law_unknown_variant_is_refused(
    variants: Seq<Variant>,
    tape: Tape,
    from: int,
    overlapping: bool,
)
    requires
        tape.variant_tag(from) matches Ok((name, _)) && variant_index(variants, name) is None,
    ensures
        variant_value(variants, tape, from, overlapping) == (
            Err::<ValueView, XmlErrorView>(unknown_variant(tape.variant_tag(from)->Ok_0.0)),
            tape.after_peek(from),
        ),
        variant_value(variants, tape, from, overlapping).1.taken == tape.taken,
{
}

/// A union is read by the name of the tag: a value that is read is a variant, and it is the
/// first variant of that name.
pub proof fn law_variant_is_chosen_by_its_tag(
    variants: Seq<Variant>,
    tape: Tape,
    from: int,
    overlapping: bool,
)
    ensures
        variant_value(variants, tape, from, overlapping).0 matches Ok(value) ==> {
            &&& tape.variant_tag(from) matches Ok((name, _))
            &&& value matches ValueView::Variant(index, _)
            &&& variant_index(variants, name) == Some(index)
            &&& 0 <= index < variants.len()
            &&& variants[index].name@ == name
        },
{
    match tape.variant_tag(from) {
        Ok((name, _)) => {
            match variant_index(variants, name) {
                Some(index) => {
                    crate::value::lemma_variant_index(variants, name);
                },
                None => {},
            }
        },
        Err(_) => {},
    }
}

/// Whether some attribute comes behind a field that is no attribute.
pub open spec fn attribute_behind_element(fields: Seq<Field>) -> bool {
    exists|i: int, j: int|
        0 <= i < j < fields.len() && !is_attribute_key(fields[i].name@) && is_attribute_key(
            fields[j].name@,
        )
}

/// Whether the field at `at` can be written by itself, wherever the writer stands.
pub open spec fn field_can_be_written(fields: Seq<Field>, values: Seq<ValueView>, at: int) -> bool {
    match slot_of(fields[at].name@) {
        crate::ser::map::FieldSlotView::Attribute(_) => crate::ser::plain::plain_text(
            fields[at].shape,
            values[at],
        ) is Ok,
        crate::ser::map::FieldSlotView::Text => crate::ser::plain::plain_text(
            fields[at].shape,
            values[at],
        ) is Ok,
        crate::ser::map::FieldSlotView::Content => forall|writer: WriterView|
            (#[trigger] crate::ser::child_written(
                fields[at].shape,
                values[at],
                writer,
                crate::ser::child::ChildSerializerView { name: None, newtype: false },
            )).0 is Ok,
        crate::ser::map::FieldSlotView::Element(name) => forall|writer: WriterView|
            (#[trigger] crate::ser::child_written(
                fields[at].shape,
                values[at],
                writer,
                crate::ser::child::ChildSerializerView { name: Some(name), newtype: false },
            )).0 is Ok,
    }
}

/// The writer and the record with which the fields behind the one at `from` are written,
/// if the field at `from` is written without an error.
pub open spec fn next_record_step(
    fields: Seq<Field>,
    values: Seq<ValueView>,
    from: int,
    writer: WriterView,
    record: StructSerializerView,
) -> Option<(WriterView, StructSerializerView)> {
    let key = fields[from].name@;
    let shape = fields[from].shape;
    let begun = record.begun_writer(writer, key);
    let state = record.with_parent().begun(key);
    if record.takes(key) {
        match slot_of(key) {
            crate::ser::map::FieldSlotView::Attribute(name) => match crate::ser::plain::plain_text(
                shape,
                values[from],
            ) {
                Ok(Some(text)) => Some(
                    (
                        begun,
                        StructSerializerView {
                            attributes: state.attributes.push((name, text)),
                            ..state
                        },
                    ),
                ),
                Ok(None) => Some((begun, state)),
                Err(_) => None,
            },
            crate::ser::map::FieldSlotView::Text => match crate::ser::plain::plain_text(
                shape,
                values[from],
            ) {
                Ok(Some(text)) => Some((begun.characters(text), state)),
                Ok(None) => Some((begun, state)),
                Err(_) => None,
            },
            crate::ser::map::FieldSlotView::Content => match crate::ser::child_written(
                shape,
                values[from],
                begun,
                crate::ser::child::ChildSerializerView { name: None, newtype: false },
            ) {
                (Ok(()), rest) => Some((rest, state)),
                (Err(_), _) => None,
            },
            crate::ser::map::FieldSlotView::Element(name) => match crate::ser::child_written(
                shape,
                values[from],
                begun,
                crate::ser::child::ChildSerializerView { name: Some(name), newtype: false },
            ) {
                (Ok(()), rest) => Some((rest, state)),
                (Err(_), _) => None,
            },
        }
    } else {
        None
    }
}

/// Writing a record from one field on is writing that field, and then the record from the
/// next field on.
pub proof fn lemma_record_steps(
    fields: Seq<Field>,
    values: Seq<ValueView>,
    from: int,
    writer: WriterView,
    record: StructSerializerView,
)
    requires
        values.len() == fields.len(),
        0 <= from < fields.len(),
    ensures
        match next_record_step(fields, values, from, writer, record) {
            Some((rest, after)) => {
                &&& record_written(fields, values, from, writer, record) == record_written(
                    fields,
                    values,
                    from + 1,
                    rest,
                    after,
                )
                &&& after.start_written == record.with_parent().begun(
                    fields[from].name@,
                ).start_written
            },
            None => record_written(fields, values, from, writer, record).0 is Err,
        },
{
}

proof fn lemma_late_attribute(
    fields: Seq<Field>,
    values: Seq<ValueView>,
    from: int,
    writer: WriterView,
    record: StructSerializerView,
    late: int,
)
    requires
        values.len() == fields.len(),
        0 <= from <= late < fields.len(),
        is_attribute_key(fields[late].name@),
        record.start_written || exists|i: int|
            from <= i < late && !is_attribute_key(fields[i].name@),
    ensures
        record_written(fields, values, from, writer, record).0 is Err,
    decreases fields.len() - from,
{
    let key = fields[from].name@;
    if record.takes(key) {
        let begun = record.begun_writer(writer, key);
        let state = record.with_parent().begun(key);
        assert(from < late);
        assert(state.start_written || exists|i: int|
            from + 1 <= i < late && !is_attribute_key(fields[i].name@)) by {
            if !is_attribute_key(key) {
                assert(state.start_written);
            } else {
                assert(!record.start_written);
                let i = choose|i: int| from <= i < late && !is_attribute_key(fields[i].name@);
                assert(i != from);
            }
        }
        lemma_record_steps(fields, values, from, writer, record);
        let next = next_record_step(fields, values, from, writer, record);
        match next {
            Some((rest, after)) => {
                lemma_late_attribute(fields, values, from + 1, rest, after, late);
            },
            None => {},
        }
    }
}

/// In every state that a record can be in, an attribute is refused if and only if the
/// opening tag of the record has been written. Where it is refused, nothing is written and
/// the record stays as it was, with the attributes that it holds; where it is taken, the
/// opening tag of the record is still not written.
pub proof fn law_attribute_is_refused_once_the_tag_is_written(
    record: StructSerializerView,
    writer: WriterView,
    key: Seq<char>,
)
    requires
        record.valid(),
        is_attribute_key(key),
    ensures
        !record.takes(key) <==> record.start_written,
        !record.takes(key) ==> record.with_parent() == record && record.parent_opened(writer)
            == writer,
        record.takes(key) ==> {
            &&& slot_of(key) == crate::ser::map::FieldSlotView::Attribute(key.skip(1))
            &&& !record.with_parent().begun(key).start_written
            &&& record.with_parent().begun(key).attributes == record.attributes
            &&& record.begun_writer(writer, key) == record.parent_opened(writer)
        },
{
}

/// A record in which an attribute is declared behind a field that is no attribute cannot
/// be written: when the attribute comes, the opening tag is out already.
pub proof fn law_attribute_after_element_is_refused(
    fields: Seq<Field>,
    values: Seq<ValueView>,
    writer: WriterView,
    name: Seq<char>,
    parent: Option<Seq<char>>,
)
    requires
        values.len() == fields.len(),
        attribute_behind_element(fields),
    ensures
        record_written(fields, values, 0, writer, crate::ser::new_record(name, parent)).0 is Err,
{
    let (i, j) = choose|i: int, j: int|
        0 <= i < j < fields.len() && !is_attribute_key(fields[i].name@) && is_attribute_key(
            fields[j].name@,
        );
    lemma_late_attribute(fields, values, 0, writer, crate::ser::new_record(name, parent), j);
}

proof fn lemma_attributes_first(
    fields: Seq<Field>,
    values: Seq<ValueView>,
    from: int,
    writer: WriterView,
    record: StructSerializerView,
)
    requires
        values.len() == fields.len(),
        0 <= from <= fields.len(),
        record.start_written ==> forall|j: int|
            from <= j < fields.len() ==> !is_attribute_key(fields[j].name@),
        !attribute_behind_element(fields),
        forall|i: int| 0 <= i < fields.len() ==> field_can_be_written(fields, values, i),
    ensures
        record_written(fields, values, from, writer, record).0 is Ok,
    decreases fields.len() - from,
{
    if from < fields.len() {
        let key = fields[from].name@;
        assert(record.takes(key));
        let begun = record.begun_writer(writer, key);
        let state = record.with_parent().begun(key);
        assert(field_can_be_written(fields, values, from));
        assert(state.start_written ==> forall|j: int|
            from + 1 <= j < fields.len() ==> !is_attribute_key(fields[j].name@)) by {
            if !is_attribute_key(key) {
                assert forall|j: int| from + 1 <= j < fields.len() implies !is_attribute_key(
                    fields[j].name@,
                ) by {
                    if is_attribute_key(fields[j].name@) {
                        assert(0 <= from < j < fields.len() && !is_attribute_key(
                            fields[from].name@,
                        ) && is_attribute_key(fields[j].name@));
                    }
                }
            }
        }
        lemma_record_steps(fields, values, from, writer, record);
        let next = next_record_step(fields, values, from, writer, record);
        match next {
            Some((rest, after)) => {
                lemma_attributes_first(fields, values, from + 1, rest, after);
            },
            None => {},
        }
    }
}

/// A record whose attributes are all declared before its other fields can be written, if
/// each of its fields can be written by itself.
pub proof fn law_attributes_first_are_written(
    fields: Seq<Field>,
    values: Seq<ValueView>,
    writer: WriterView,
    name: Seq<char>,
    parent: Option<Seq<char>>,
)
    requires
        values.len() == fields.len(),
        !attribute_behind_element(fields),
        forall|i: int| 0 <= i < fields.len() ==> field_can_be_written(fields, values, i),
    ensures
        record_written(fields, values, 0, writer, crate::ser::new_record(name, parent)).0 is Ok,
{
    lemma_attributes_first(fields, values, 0, writer, crate::ser::new_record(name, parent));
}

/// The values of fields of which the document holds none, where each of them can do
/// without one.
pub open spec fn values_without(fields: Seq<Field>, from: int) -> Seq<ValueView>
    decreases fields.len() - from,
{
    if 0 <= from < fields.len() {
        seq![
            if fields[from].shape is Optional {
                ValueView::Absent
            } else {
                ValueView::Sequence(Seq::empty())
            },
        ] + values_without(fields, from + 1)
    } else {
        Seq::empty()
    }
}

proof fn lemma_completed_without(fields: Seq<Field>, found: Seq<Option<ValueView>>, from: int)
    requires
        found.len() == fields.len(),
        0 <= from,
        forall|i: int| 0 <= i < fields.len() ==> found[i] is None,
        forall|i: int|
            0 <= i < fields.len() ==> fields[i].shape is Optional || fields[i].shape is Sequence,
    ensures
        completed(fields, found, from) == Ok::<Seq<ValueView>, XmlErrorView>(
            values_without(fields, from),
        ),
    decreases fields.len() - from,
{
    if from < fields.len() {
        lemma_completed_without(fields, found, from + 1);
    }
}

/// An element without attributes and without content, read as a record whose fields are all
/// optional or sequences, gives the record in which each optional field is absent and each
/// sequence empty; it is never an error.
pub proof fn law_empty_element_leaves_fields_absent(
    name: String,
    fields: Vec<Field>,
    tape: Tape,
    child: ChildView,
    element: ElementView,
)
    requires
        child.cursor == 0,
        tape.slots.len() >= 2,
        tape.slots[0] == Some(EventView::StartElement(element)),
        element.attributes.len() == 0,
        tape.slots[1] == Some(EventView::EndElement),
        forall|i: int|
            0 <= i < fields@.len() ==> fields@[i].shape is Optional || fields@[i].shape is Sequence,
    ensures
        child_value(Shape::Record(name, fields), tape, child).0 == Ok::<ValueView, XmlErrorView>(
            ValueView::Record(values_without(fields@, 0)),
        ),
        child_value(Shape::Record(name, fields), tape, child).1.slots == tape.slots.skip(2),
{
    let inside = tape.after_next(0);
    assert(tape.padded(1) == tape);
    assert(inside.slots == tape.slots.skip(1));
    assert(inside.slots[0] == Some(EventView::EndElement));
    let access = record_access(fields@, element.attributes, 0, child.overlapping);
    let found = Seq::new(fields@.len(), |i: int| None::<ValueView>);
    assert(next_key(access, inside).key == Ok::<Option<crate::de::map::KeyView>, XmlErrorView>(None));
    assert(inside.padded(1) == inside);
    assert(next_key(access, inside).tape == inside);
    lemma_completed_without(fields@, found, 0);
    assert(record_values(fields@, inside, access, found) == (
        Ok::<Seq<ValueView>, XmlErrorView>(values_without(fields@, 0)),
        inside,
    ));
    assert(inside.after_next(0).slots =~= tape.slots.skip(2));
}

/// A document whose tokenizer fails before the first event that matters is refused,
/// whatever is to be read from it: with the error of the failure where the shape can stand
/// at the root of a document, and nothing is consumed.
pub proof fn law_failed_document_is_refused(shape: Shape, tape: Tape, overlapping: bool)
    requires
        tape.slots.len() == 0,
        tape.failure is Some,
    ensures
        root_value(shape, tape, overlapping).0 is Err,
        shape is Record || shape is Union || shape is Newtype || shape is Optional ==> root_value(
            shape,
            tape,
            overlapping,
        ) == (Err::<ValueView, XmlErrorView>(tape.cause()), tape),
{
    assert(tape.seek(0) == 0);
    assert(!tape.reaches(0));
}

/// An element without attributes and without content, read as an optional value that has
/// an element of its own, gives the absent value, whatever the value would hold; the element
/// is consumed, and it is never an error.
pub proof fn law_empty_element_is_absent(
    inner: Shape,
    tape: Tape,
    child: ChildView,
    element: ElementView,
)
    requires
        child.cursor == 0,
        child.name is Some,
        tape.slots.len() >= 2,
        tape.slots[0] == Some(EventView::StartElement(element)),
        element.attributes.len() == 0,
        tape.slots[1] == Some(EventView::EndElement),
    ensures
        child_value(Shape::Optional(Box::new(inner)), tape, child).0 == Ok::<
            ValueView,
            XmlErrorView,
        >(ValueView::Absent),
        child_value(Shape::Optional(Box::new(inner)), tape, child).1.slots == tape.slots.skip(2),
{
    assert(tape.seek(0) == 0);
    assert(tape.padded(1) == tape);
    assert(tape.after_peek(0) == tape);
    assert(tape.seek(1) == 1);
    assert(tape.padded(2) == tape);
    assert(tape.after_peek(1) == tape);
    assert(tape.empty_element(0));
    let inside = tape.after_next(0);
    assert(inside.slots == tape.slots.skip(1));
    assert(inside.slots[0] == Some(EventView::EndElement));
    assert(inside.padded(1) == inside);
    assert(inside.after_next(0).slots =~= tape.slots.skip(2));
}

/// An element without content, read as a text, gives the empty text; it is never an error.
pub proof fn law_empty_element_is_empty_text(tape: Tape, child: ChildView, element: ElementView)
    requires
        child.cursor == 0,
        child.name is Some,
        tape.slots.len() >= 2,
        tape.slots[0] == Some(EventView::StartElement(element)),
        tape.slots[1] == Some(EventView::EndElement),
    ensures
        child_value(Shape::Text, tape, child).0 == Ok::<ValueView, XmlErrorView>(
            ValueView::Text(Seq::empty()),
        ),
        child_value(Shape::Text, tape, child).1.slots == tape.slots.skip(2),
{
    let inside = tape.after_next(0);
    assert(tape.padded(1) == tape);
    assert(inside.slots == tape.slots.skip(1));
    assert(inside.slots[0] == Some(EventView::EndElement));
    assert(inside.padded(1) == inside);
    assert(inside.after_peek(0) == inside);
    assert(inside.after_next(0).slots =~= tape.slots.skip(2));
}

} // verus!
