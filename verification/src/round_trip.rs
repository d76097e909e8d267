use crate::de::buffer::Tape;
use crate::de::child::ChildView;
use crate::de::{child_value, closing};
use crate::de::plain::plain_value;
use crate::de::reader::{AttributeView, ElementView, EventView};
use crate::error::XmlErrorView;
use crate::ser::map::is_attribute_key;
use crate::ser::plain::plain_text;
use crate::ser::writer::{WriteEventView, WriterView};
use crate::text::lemma_integer_text_reads_back;
use crate::value::{variant_index, Field, Payload, Shape, ValueView, Variant};
use vstd::prelude::*;

verus! {

/// An attribute as a reader sees it when it has been written under this name.
pub open spec fn read_attribute(written: (Seq<char>, Seq<char>)) -> AttributeView {
    AttributeView { prefix: None, name: written.0, value: written.1 }
}

/// The event that a reader sees for an event that has been written: the same tag, the
/// same attributes and the same text, under names without a prefix.
pub open spec fn read_event(event: WriteEventView) -> EventView {
    match event {
        WriteEventView::StartElement { name, attributes, namespaces } => EventView::StartElement(
            ElementView {
                prefix: None,
                name,
                attributes: attributes.map_values(|a: (Seq<char>, Seq<char>)| read_attribute(a)),
            },
        ),
        WriteEventView::EndElement => EventView::EndElement,
        WriteEventView::Characters(text) => EventView::Text(text),
    }
}

/// The events that a reader sees of what a writer has written.
pub open spec fn reads(writer: WriterView) -> Seq<EventView> {
    writer.events.map_values(|event: WriteEventView| read_event(event))
}

/// The start of an element without a prefix.
pub open spec fn start_of(name: Seq<char>, attributes: Seq<AttributeView>) -> EventView {
    EventView::StartElement(ElementView { prefix: None, name, attributes })
}

/// Whether a text can stand as one member in a run of members: it holds something, and no
/// space.
pub open spec fn is_word(text: Seq<char>) -> bool {
    text.len() > 0 && forall|i: int| 0 <= i < text.len() ==> text[i] != ' '
}

/// Whether the value is written as one text and read back from it: a boolean, an integer of
/// the shape's kind, a character or a text, as the shape says, or a tuple of such values
/// whose texts can each stand as one member.
pub open spec fn leaf_fits(shape: Shape, value: ValueView) -> bool
    decreases shape, 0nat,
{
    match shape {
        Shape::Newtype(_, inner) => leaf_fits(*inner, value),
        Shape::Tuple(members) => value matches ValueView::Sequence(items) && items.len()
            == members@.len() && words_fit(members@, items, 0),
        Shape::Bool => value is Bool,
        Shape::Integer(kind) => value matches ValueView::Integer(v) && kind.spec_min() <= v
            <= kind.spec_max(),
        Shape::Char => value is Char,
        Shape::Text => value is Text,
        _ => false,
    }
}

/// Whether each member from `from` on is written as a text that can stand as one member.
pub open spec fn words_fit(members: Seq<Shape>, items: Seq<ValueView>, from: int) -> bool
    decreases members, members.len() - from,
{
    if 0 <= from < members.len() && from < items.len() {
        &&& leaf_fits(members[from], items[from])
        &&& is_word(leaf_text(members[from], items[from]))
        &&& words_fit(members, items, from + 1)
    } else {
        true
    }
}

/// The texts of the members from `from` on.
pub open spec fn words_of(members: Seq<Shape>, items: Seq<ValueView>, from: int) -> Seq<Seq<char>>
    decreases members.len() - from,
{
    if 0 <= from < members.len() && from < items.len() {
        seq![leaf_text(members[from], items[from])] + words_of(members, items, from + 1)
    } else {
        Seq::empty()
    }
}

/// Whether the value can stand in an attribute or in character data: a leaf, or an
/// optional leaf.
pub open spec fn plain_fits(shape: Shape, value: ValueView) -> bool {
    match shape {
        Shape::Optional(inner) => match value {
            ValueView::Absent => true,
            ValueView::Present(held) => leaf_fits(*inner, *held),
            _ => false,
        },
        _ => leaf_fits(shape, value),
    }
}

/// Whether the key names a child element: it names no attribute, and neither the
/// character data nor the unclaimed children.
pub open spec fn is_element_key(key: Seq<char>) -> bool {
    !is_attribute_key(key) && key != "#text"@ && key != "#content"@
}

/// Whether the value is written as exactly one element, given a name for it, and is read
/// back from that element: a leaf, a unit, a record, or a variant of a union that carries
/// nothing, one such value, or a record.
pub open spec fn element_fits(shape: Shape, value: ValueView) -> bool
    decreases shape, 0nat,
{
    match shape {
        Shape::Bool => leaf_fits(shape, value),
        Shape::Integer(_) => leaf_fits(shape, value),
        Shape::Char => leaf_fits(shape, value),
        Shape::Text => leaf_fits(shape, value),
        Shape::Tuple(_) => leaf_fits(shape, value),
        Shape::Unit => value is Unit,
        Shape::Newtype(_, inner) => element_fits(*inner, value),
        Shape::Dictionary(held) => value matches ValueView::Dictionary(pairs) && entries_fit(
            *held,
            pairs,
            0,
        ),
        Shape::Record(_, fields) => value matches ValueView::Record(values) && record_fits(
            fields@,
            values,
        ),
        Shape::Union(_, variants) => {
            &&& value matches ValueView::Variant(i, payload)
            &&& 0 <= i < variants@.len()
            &&& variant_index(variants@, variants@[i].name@) == Some(i)
            &&& variant_fits(variants@[i], payload)
        },
        _ => false,
    }
}

/// Whether each entry from `from` on is written as one element that is called as its key
/// says.
pub open spec fn entries_fit(held: Shape, pairs: Seq<(Seq<char>, ValueView)>, from: int) -> bool
    decreases held, pairs.len() - from + 1,
{
    if 0 <= from < pairs.len() {
        &&& pairs[from].0 != "#text"@
        &&& element_fits(held, pairs[from].1)
        &&& entries_fit(held, pairs, from + 1)
    } else {
        true
    }
}

/// Whether the payload is one that the variant can carry and bring back.
pub open spec fn variant_fits(variant: Variant, payload: Seq<ValueView>) -> bool
    decreases variant, 0nat,
{
    match variant.payload {
        Payload::Unit => payload.len() == 0,
        Payload::Newtype(inner) => payload.len() == 1 && element_fits(inner, payload[0]),
        Payload::Record(fields) => record_fits(fields@, payload),
        Payload::Tuple(members) => payload.len() == members@.len() && words_fit(
            members@,
            payload,
            0,
        ),
    }
}

/// Whether no two fields have the same name.
pub open spec fn distinct_names(fields: Seq<Field>) -> bool {
    forall|i: int, j: int|
        0 <= i < fields.len() && 0 <= j < fields.len() && i != j ==> fields[i].name@
            != fields[j].name@
}

/// Whether every attribute is declared before every field that is no attribute.
pub open spec fn attributes_first(fields: Seq<Field>) -> bool {
    forall|i: int, j: int|
        0 <= i < j < fields.len() && is_attribute_key(fields[j].name@) ==> is_attribute_key(
            fields[i].name@,
        )
}

/// The variants among which the field for the unclaimed children chooses.
pub open spec fn choices_of(shape: Shape) -> Seq<Variant> {
    match shape {
        Shape::Sequence(item) => match *item {
            Shape::Union(_, variants) => variants@,
            _ => Seq::empty(),
        },
        _ => Seq::empty(),
    }
}

/// Whether no variant is called as a field is.
pub open spec fn apart(variants: Seq<Variant>, fields: Seq<Field>) -> bool {
    forall|v: int, j: int|
        0 <= v < variants.len() && 0 <= j < fields.len() ==> (#[trigger] variants[v]).name@ != (
        #[trigger] fields[j]).name@
}

/// Whether the field for the unclaimed children, if there is one, is the last field, and
/// none of its variants is called as a field of the record is.
pub open spec fn content_last(fields: Seq<Field>) -> bool {
    forall|i: int|
        0 <= i < fields.len() && (#[trigger] fields[i]).name@ == "#content"@ ==> i == fields.len()
            - 1 && apart(choices_of(fields[i].shape), fields)
}

/// Whether the values are those of a record with these fields that is written and read
/// back: the names of the fields differ, the attributes come first, the field for the
/// unclaimed children comes last, and each value fits its field.
pub open spec fn record_fits(fields: Seq<Field>, values: Seq<ValueView>) -> bool
    decreases fields, fields.len() + 1,
{
    &&& values.len() == fields.len()
    &&& distinct_names(fields)
    &&& attributes_first(fields)
    &&& content_last(fields)
    &&& fields_fit(fields, values, 0)
}

/// Whether each value from `from` on fits its field.
pub open spec fn fields_fit(fields: Seq<Field>, values: Seq<ValueView>, from: int) -> bool
    decreases fields, fields.len() - from,
{
    if 0 <= from < fields.len() && from < values.len() {
        field_fits(fields[from], values[from]) && fields_fit(fields, values, from + 1)
    } else {
        true
    }
}

/// Whether the events are those of an element without attributes and without content, which
/// a reader takes for an optional value that is absent.
pub open spec fn is_hollow(doc: Seq<EventView>) -> bool {
    &&& doc.len() >= 2
    &&& doc[0] matches EventView::StartElement(element) && element.attributes.len() == 0
    &&& doc[1] is EndElement
}

/// Whether the value fits the field: as a plain text, for an attribute and for character
/// data; as a sequence of variants of one union, for the unclaimed children; as an element,
/// as an optional element that is not empty where the value is present, or as a sequence of
/// elements, for a child element.
pub open spec fn field_fits(field: Field, value: ValueView) -> bool
    decreases field, 0nat,
{
    let key = field.name@;
    if is_attribute_key(key) || key == "#text"@ {
        plain_fits(field.shape, value)
    } else if key == "#content"@ {
        match field.shape {
            Shape::Sequence(item) => *item is Union && (value matches ValueView::Sequence(items)
                && items_fit(*item, items, 0)),
            _ => false,
        }
    } else {
        match field.shape {
            Shape::Optional(inner) => match value {
                ValueView::Absent => true,
                ValueView::Present(held) => element_fits(*inner, *held) && !is_hollow(
                    element_doc(*inner, *held, key),
                ),
                _ => false,
            },
            Shape::Sequence(item) => value matches ValueView::Sequence(items) && items_fit(
                *item,
                items,
                0,
            ),
            _ => element_fits(field.shape, value),
        }
    }
}

/// Whether each member from `from` on is written as one element.
pub open spec fn items_fit(item: Shape, items: Seq<ValueView>, from: int) -> bool
    decreases item, items.len() - from + 1,
{
    if 0 <= from < items.len() {
        element_fits(item, items[from]) && items_fit(item, items, from + 1)
    } else {
        true
    }
}

/// The text of a leaf.
pub open spec fn leaf_text(shape: Shape, value: ValueView) -> Seq<char> {
    match plain_text(shape, value) {
        Ok(Some(text)) => text,
        _ => Seq::empty(),
    }
}

/// The events of the element that holds a value under `name`.
pub open spec fn element_doc(shape: Shape, value: ValueView, name: Seq<char>) -> Seq<EventView>
    decreases shape, 0nat,
{
    match shape {
        Shape::Newtype(_, inner) => element_doc(*inner, value, name),
        Shape::Dictionary(held) => match value {
            ValueView::Dictionary(pairs) => seq![start_of(name, Seq::empty())] + entries_doc(
                *held,
                pairs,
                0,
            ) + seq![EventView::EndElement],
            _ => Seq::empty(),
        },
        Shape::Record(_, fields) => match value {
            ValueView::Record(values) => record_doc(fields@, values, name),
            _ => Seq::empty(),
        },
        Shape::Union(_, variants) => match value {
            ValueView::Variant(i, payload) => if 0 <= i < variants@.len() {
                seq![start_of(name, Seq::empty())] + variant_doc(variants@[i], payload) + seq![
                    EventView::EndElement,
                ]
            } else {
                Seq::empty()
            },
            _ => Seq::empty(),
        },
        Shape::Unit => seq![start_of(name, Seq::empty()), EventView::EndElement],
        _ => seq![
            start_of(name, Seq::empty()),
            EventView::Text(leaf_text(shape, value)),
            EventView::EndElement,
        ],
    }
}

/// The events of the entries of a map from `from` on, each in an element that is called as
/// its key says.
pub open spec fn entries_doc(held: Shape, pairs: Seq<(Seq<char>, ValueView)>, from: int) -> Seq<
    EventView,
>
    decreases held, pairs.len() - from + 1,
{
    if 0 <= from < pairs.len() {
        element_doc(held, pairs[from].1, pairs[from].0) + entries_doc(held, pairs, from + 1)
    } else {
        Seq::empty()
    }
}

/// The events of a variant: its own element, which is called as the variant.
pub open spec fn variant_doc(variant: Variant, payload: Seq<ValueView>) -> Seq<EventView>
    decreases variant, 0nat,
{
    match variant.payload {
        Payload::Unit => seq![start_of(variant.name@, Seq::empty()), EventView::EndElement],
        Payload::Newtype(inner) => if payload.len() == 1 {
            element_doc(inner, payload[0], variant.name@)
        } else {
            Seq::empty()
        },
        Payload::Record(fields) => record_doc(fields@, payload, variant.name@),
        Payload::Tuple(members) => seq![
            start_of(variant.name@, Seq::empty()),
            EventView::Text(crate::ser::plain::joined(words_of(members@, payload, 0))),
            EventView::EndElement,
        ],
    }
}

/// The events of the element of a record.
pub open spec fn record_doc(fields: Seq<Field>, values: Seq<ValueView>, name: Seq<char>) -> Seq<
    EventView,
>
    decreases fields, fields.len() + 1,
{
    seq![start_of(name, attributes_doc(fields, values, 0))] + children_doc(fields, values, 0)
        + seq![EventView::EndElement]
}

/// The attributes that the fields from `from` on put on the opening tag.
pub open spec fn attributes_doc(fields: Seq<Field>, values: Seq<ValueView>, from: int) -> Seq<
    AttributeView,
>
    decreases fields.len() - from,
{
    if 0 <= from < fields.len() && from < values.len() {
        let rest = attributes_doc(fields, values, from + 1);
        if is_attribute_key(fields[from].name@) {
            match plain_text(fields[from].shape, values[from]) {
                Ok(Some(text)) => seq![
                    AttributeView { prefix: None, name: fields[from].name@.skip(1), value: text },
                ] + rest,
                _ => rest,
            }
        } else {
            rest
        }
    } else {
        Seq::empty()
    }
}

/// The events that the field puts between the tags of its record.
pub open spec fn field_doc(field: Field, value: ValueView) -> Seq<EventView>
    decreases field, 0nat,
{
    let key = field.name@;
    if is_attribute_key(key) {
        Seq::empty()
    } else if key == "#text"@ {
        match plain_text(field.shape, value) {
            Ok(Some(text)) => seq![EventView::Text(text)],
            _ => Seq::empty(),
        }
    } else if key == "#content"@ {
        match field.shape {
            Shape::Sequence(item) => match value {
                ValueView::Sequence(items) => choices_doc(*item, items, 0),
                _ => Seq::empty(),
            },
            _ => Seq::empty(),
        }
    } else {
        match field.shape {
            Shape::Optional(inner) => match value {
                ValueView::Present(held) => element_doc(*inner, *held, key),
                _ => Seq::empty(),
            },
            Shape::Sequence(item) => match value {
                ValueView::Sequence(items) => items_doc(*item, items, 0, key),
                _ => Seq::empty(),
            },
            _ => element_doc(field.shape, value, key),
        }
    }
}

/// The events that the fields from `from` on put between the tags of their record.
pub open spec fn children_doc(fields: Seq<Field>, values: Seq<ValueView>, from: int) -> Seq<
    EventView,
>
    decreases fields, fields.len() - from,
{
    if 0 <= from < fields.len() && from < values.len() {
        field_doc(fields[from], values[from]) + children_doc(fields, values, from + 1)
    } else {
        Seq::empty()
    }
}

/// The events of the members of a sequence from `from` on, each in an element called
/// `name`.
pub open spec fn items_doc(item: Shape, items: Seq<ValueView>, from: int, name: Seq<char>) -> Seq<
    EventView,
>
    decreases item, items.len() - from + 1,
{
    if 0 <= from < items.len() {
        element_doc(item, items[from], name) + items_doc(item, items, from + 1, name)
    } else {
        Seq::empty()
    }
}

/// The events of one of the unclaimed children: the element of its variant.
pub open spec fn choice_doc(item: Shape, value: ValueView) -> Seq<EventView>
    decreases item, 0nat,
{
    match item {
        Shape::Union(_, variants) => match value {
            ValueView::Variant(i, payload) => if 0 <= i < variants@.len() {
                variant_doc(variants@[i], payload)
            } else {
                Seq::empty()
            },
            _ => Seq::empty(),
        },
        _ => Seq::empty(),
    }
}

/// The events of the unclaimed children from `from` on, each the element of its variant.
pub open spec fn choices_doc(item: Shape, items: Seq<ValueView>, from: int) -> Seq<EventView>
    decreases item, items.len() - from + 1,
{
    if 0 <= from < items.len() {
        choice_doc(item, items[from]) + choices_doc(item, items, from + 1)
    } else {
        Seq::empty()
    }
}

/// A run of members with a member in front of it is that member, a space, and the run.
proof fn lemma_joined_front(word: Seq<char>, rest: Seq<Seq<char>>)
    ensures
        crate::ser::plain::joined(seq![word] + rest) == if rest.len() == 0 {
            word
        } else {
            word + " "@ + crate::ser::plain::joined(rest)
        },
    decreases rest.len(),
{
    let all = seq![word] + rest;
    if rest.len() == 0 {
        assert(all =~= seq![word]);
    } else {
        assert(all.drop_last() =~= seq![word] + rest.drop_last());
        assert(all.last() == rest.last());
        lemma_joined_front(word, rest.drop_last());
        if rest.len() == 1 {
            assert(rest.drop_last() =~= Seq::<Seq<char>>::empty());
            assert(crate::ser::plain::joined(rest) == rest[0]);
        } else {
            assert(crate::ser::plain::joined(rest) == crate::ser::plain::joined(rest.drop_last())
                + " "@ + rest.last());
            assert(word + " "@ + crate::ser::plain::joined(rest.drop_last()) + " "@ + rest.last()
                =~= word + " "@ + (crate::ser::plain::joined(rest.drop_last()) + " "@
                + rest.last()));
        }
    }
}

/// A word is the first word of the text that it begins, and the rest of the text is behind
/// the space that follows it.
proof fn lemma_first_word(word: Seq<char>, rest: Seq<char>)
    requires
        is_word(word),
    ensures
        crate::text::first_word(word) == word,
        crate::text::after_first_word(word) == Seq::<char>::empty(),
        crate::text::first_word(word + " "@ + rest) == word,
        crate::text::after_first_word(word + " "@ + rest) == rest,
{
    reveal_strlit(" ");
    assert(" "@ =~= seq![' ']);
    crate::text::lemma_position_of_is(word, ' ', word.len() as int);
    assert(word.subrange(0, word.len() as int) =~= word);
    let text = word + " "@ + rest;
    assert forall|i: int| 0 <= i < word.len() implies text[i] != ' ' by {
        assert(text[i] == word[i]);
    }
    assert(text[word.len() as int] == ' ');
    crate::text::lemma_position_of_is(text, ' ', word.len() as int);
    assert(text.subrange(0, word.len() as int) =~= word);
    assert(text.subrange(word.len() as int + 1, text.len() as int) =~= rest);
}

/// The members of a tuple that fit are written as their texts.
proof fn lemma_members_written(members: Seq<Shape>, items: Seq<ValueView>, from: int)
    requires
        0 <= from,
        items.len() == members.len(),
        words_fit(members, items, from),
    ensures
        crate::ser::plain::plain_member_words(members, items, from) == Ok::<
            Seq<Seq<char>>,
            XmlErrorView,
        >(words_of(members, items, from)),
        forall|i: int|
            0 <= i < words_of(members, items, from).len() ==> is_word(
                #[trigger] words_of(members, items, from)[i],
            ),
        words_of(members, items, from).len() == if from <= members.len() {
            members.len() - from
        } else {
            0
        },
    decreases members, members.len() - from, 1nat,
{
    if from < members.len() {
        lemma_leaf_reads_back(members[from], items[from]);
        lemma_members_written(members, items, from + 1);
        let rest = words_of(members, items, from + 1);
        let all = words_of(members, items, from);
        assert forall|i: int| 0 <= i < all.len() implies is_word(#[trigger] all[i]) by {
            if i > 0 {
                assert(all[i] == rest[i - 1]);
            }
        }
    }
}

/// A run of words that holds a word holds a character.
proof fn lemma_joined_is_not_empty(words: Seq<Seq<char>>)
    requires
        words.len() > 0,
        forall|i: int| 0 <= i < words.len() ==> is_word(#[trigger] words[i]),
    ensures
        crate::ser::plain::joined(words).len() > 0,
    decreases words.len(),
{
    if words.len() > 1 {
        assert(is_word(words.last()));
    } else {
        assert(is_word(words[0]));
    }
}

/// The members of a tuple that fit are read back from the run of their texts.
proof fn lemma_members_read(members: Seq<Shape>, items: Seq<ValueView>, from: int)
    requires
        0 <= from <= members.len(),
        items.len() == members.len(),
        words_fit(members, items, from),
    ensures
        crate::de::plain::plain_members(
            members,
            from,
            crate::ser::plain::joined(words_of(members, items, from)),
        ) == Ok::<Seq<ValueView>, XmlErrorView>(items.subrange(from, items.len() as int)),
    decreases members, members.len() - from, 2nat,
{
    if from < members.len() {
        let word = leaf_text(members[from], items[from]);
        let rest = words_of(members, items, from + 1);
        lemma_leaf_reads_back(members[from], items[from]);
        lemma_members_written(members, items, from + 1);
        lemma_members_read(members, items, from + 1);
        lemma_joined_front(word, rest);
        lemma_first_word(word, crate::ser::plain::joined(rest));
        if rest.len() > 0 {
            lemma_joined_is_not_empty(rest);
        } else {
            assert(crate::ser::plain::joined(rest) =~= Seq::<char>::empty());
        }
        assert(seq![items[from]] + items.subrange(from + 1, items.len() as int)
            =~= items.subrange(from, items.len() as int));
    } else {
        assert(items.subrange(from, items.len() as int) =~= Seq::<ValueView>::empty());
    }
}

/// A leaf that is written as text is read back from that text.
pub proof fn lemma_leaf_reads_back(shape: Shape, value: ValueView)
    requires
        leaf_fits(shape, value),
    ensures
        plain_text(shape, value) == Ok::<Option<Seq<char>>, XmlErrorView>(
            Some(leaf_text(shape, value)),
        ),
        plain_value(shape, leaf_text(shape, value)) == Ok::<ValueView, XmlErrorView>(value),
    decreases shape, 0nat,
{
    match shape {
        Shape::Newtype(_, inner) => {
            lemma_leaf_reads_back(*inner, value);
        },
        Shape::Tuple(members) => {
            let items = value->Sequence_0;
            lemma_members_written(members@, items, 0);
            lemma_members_read(members@, items, 0);
            assert(items.subrange(0, items.len() as int) =~= items);
        },
        Shape::Bool => {
            reveal_strlit("true");
            reveal_strlit("false");
            reveal_strlit("1");
            assert("false"@.len() == 5);
            assert("true"@.len() == 4);
            assert("1"@.len() == 1);
        },
        Shape::Integer(kind) => {
            lemma_integer_text_reads_back(value->Integer_0, kind.spec_min(), kind.spec_max());
        },
        _ => {},
    }
}

/// A value that is written into an attribute or into character data is read back from it,
/// if it is written at all; only an absent value is not written.
pub proof fn lemma_plain_reads_back(shape: Shape, value: ValueView)
    requires
        plain_fits(shape, value),
    ensures
        match plain_text(shape, value) {
            Ok(Some(text)) => plain_value(shape, text) == Ok::<ValueView, XmlErrorView>(value),
            Ok(None) => shape is Optional && value is Absent,
            Err(_) => false,
        },
{
    match shape {
        Shape::Optional(inner) => match value {
            ValueView::Present(held) => {
                lemma_leaf_reads_back(*inner, *held);
                assert(plain_text(shape, value) == plain_text(*inner, *held));
            },
            _ => {},
        },
        _ => {
            lemma_leaf_reads_back(shape, value);
        },
    }
}

/// The attributes as a reader sees them.
pub open spec fn read_attributes(attributes: Seq<(Seq<char>, Seq<char>)>) -> Seq<AttributeView> {
    attributes.map_values(|a: (Seq<char>, Seq<char>)| read_attribute(a))
}

proof fn lemma_reads_steps(writer: WriterView)
    ensures
        forall|name: Seq<char>, attributes: Seq<(Seq<char>, Seq<char>)>|
            #![trigger writer.start(name, attributes)]
            reads(writer.start(name, attributes)) == reads(writer).push(
                start_of(name, read_attributes(attributes)),
            ),
        reads(writer.end()) == reads(writer).push(EventView::EndElement),
        forall|text: Seq<char>|
            #![trigger writer.characters(text)]
            reads(writer.characters(text)) == reads(writer).push(EventView::Text(text)),
{
    assert forall|name: Seq<char>, attributes: Seq<(Seq<char>, Seq<char>)>|
        #![trigger writer.start(name, attributes)]
        reads(writer.start(name, attributes)) == reads(writer).push(
            start_of(name, read_attributes(attributes)),
        ) by {
        assert(reads(writer.start(name, attributes)) =~= reads(writer).push(
            start_of(name, read_attributes(attributes)),
        ));
    }
    assert(reads(writer.end()) =~= reads(writer).push(EventView::EndElement));
    assert forall|text: Seq<char>|
        #![trigger writer.characters(text)]
        reads(writer.characters(text)) == reads(writer).push(EventView::Text(text)) by {
        assert(reads(writer.characters(text)) =~= reads(writer).push(EventView::Text(text)));
    }
}

/// The fields from `from` on put no attribute on the opening tag if none of them is an
/// attribute.
proof fn lemma_no_attributes(fields: Seq<Field>, values: Seq<ValueView>, from: int)
    requires
        0 <= from,
        forall|j: int| from <= j < fields.len() ==> !is_attribute_key(fields[j].name@),
    ensures
        attributes_doc(fields, values, from) == Seq::<AttributeView>::empty(),
    decreases fields.len() - from,
{
    if from < fields.len() && from < values.len() {
        lemma_no_attributes(fields, values, from + 1);
    }
}

/// What the record writes before its fields from here on: the tags that are still to be
/// opened.
pub open spec fn opening_doc(
    record: crate::ser::map::StructSerializerView,
    fields: Seq<Field>,
    values: Seq<ValueView>,
    from: int,
) -> Seq<EventView> {
    (match record.parent {
        Some(parent) => if record.parent_written {
            Seq::empty()
        } else {
            seq![start_of(parent, Seq::empty())]
        },
        None => Seq::empty(),
    }) + (if record.start_written {
        Seq::empty()
    } else {
        seq![
            start_of(
                record.name,
                read_attributes(record.attributes) + attributes_doc(fields, values, from),
            ),
        ]
    })
}

/// What the record writes behind its fields: the tags that it closes.
pub open spec fn closing_doc(record: crate::ser::map::StructSerializerView) -> Seq<EventView> {
    if record.parent is Some {
        seq![EventView::EndElement, EventView::EndElement]
    } else {
        seq![EventView::EndElement]
    }
}

/// A value that fits as an element is written without an error, and the events that a
/// reader sees of it are those of its element.
pub proof fn lemma_writes_element(
    shape: Shape,
    value: ValueView,
    writer: WriterView,
    name: Option<Seq<char>>,
    newtype: bool,
)
    requires
        element_fits(shape, value),
        name is Some || shape is Record,
    ensures
        ({
            let written = crate::ser::child_written(
                shape,
                value,
                writer,
                crate::ser::child::ChildSerializerView { name, newtype },
            );
            &&& written.0 is Ok
            &&& reads(written.1) == reads(writer) + element_doc(
                shape,
                value,
                match name {
                    Some(name) => name,
                    None => shape->Record_0@,
                },
            )
        }),
    decreases shape, 0nat, 0nat,
{
    let child = crate::ser::child::ChildSerializerView { name, newtype };
    lemma_reads_steps(writer);
    assert(read_attributes(Seq::empty()) =~= Seq::<AttributeView>::empty());
    match shape {
        Shape::Newtype(_, inner) => {
            lemma_writes_element(*inner, value, writer, name, true);
        },
        Shape::Dictionary(held) => {
            let pairs = value->Dictionary_0;
            let begun = writer.maybe_start(name);
            assert(begun == writer.start(name->0, Seq::empty()));
            lemma_writes_entries(*held, pairs, 0, begun);
            let written = crate::ser::entries_written(*held, pairs, 0, begun);
            lemma_reads_steps(written.1);
            assert(written.1.maybe_end(name) == written.1.end());
            assert(reads(written.1.end()) =~= reads(writer) + element_doc(shape, value, name->0));
        },
        Shape::Record(own, fields) => {
            let values = value->Record_0;
            assert(element_fits(shape, value));
            assert(value is Record);
            assert(record_fits(fields@, values));
            assert(values.len() == fields@.len());
            let element = match name {
                Some(name) => name,
                None => own@,
            };
            let record = crate::ser::new_record(element, None);
            assert(record_ready(record, fields@, 0));
            lemma_writes_record(fields@, values, 0, writer, record);
            assert(read_attributes(record.attributes) + attributes_doc(fields@, values, 0)
                =~= attributes_doc(fields@, values, 0));
            assert(reads(writer) + opening_doc(record, fields@, values, 0) + children_doc(
                fields@,
                values,
                0,
            ) + closing_doc(record) =~= reads(writer) + record_doc(fields@, values, element));
        },
        Shape::Union(_, variants) => {
            let i = value->Variant_0;
            let payload = value->Variant_1;
            lemma_writes_variant(variants@[i], payload, writer, name->0);
        },
        Shape::Unit => {
            let begun = writer.maybe_start(name);
            assert(begun == writer.start(name->0, Seq::empty()));
            lemma_reads_steps(begun);
            assert(begun.maybe_end(name) == begun.end());
            assert(reads(begun.maybe_end(name)) =~= reads(writer) + element_doc(
                shape,
                value,
                name->0,
            ));
        },
        _ => {
            lemma_leaf_reads_back(shape, value);
            let begun = writer.maybe_start(name);
            assert(begun == writer.start(name->0, Seq::empty()));
            lemma_reads_steps(begun);
            let filled = begun.characters(leaf_text(shape, value));
            lemma_reads_steps(filled);
            assert(filled.maybe_end(name) == filled.end());
            assert(crate::ser::child_written(shape, value, writer, child) == (
                Ok::<(), XmlErrorView>(()),
                filled.end(),
            ));
            assert(reads(filled.maybe_end(name)) =~= reads(writer) + element_doc(
                shape,
                value,
                name->0,
            ));
        },
    }
}

/// A variant that fits is written without an error inside the element of its union.
pub proof fn lemma_writes_variant(
    variant: Variant,
    payload: Seq<ValueView>,
    writer: WriterView,
    name: Seq<char>,
)
    requires
        variant_fits(variant, payload),
    ensures
        ({
            let written = crate::ser::variant_written(variant, payload, writer, Some(name));
            &&& written.0 is Ok
            &&& reads(written.1) == reads(writer) + (seq![start_of(name, Seq::empty())]
                + variant_doc(variant, payload) + seq![EventView::EndElement])
        }),
    decreases variant, 0nat, 0nat,
{
    lemma_reads_steps(writer);
    let begun = writer.maybe_start(Some(name));
    lemma_reads_steps(begun);
    match variant.payload {
        Payload::Unit => {
            let opened = begun.start(variant.name@, Seq::empty());
            lemma_reads_steps(opened);
            lemma_reads_steps(opened.end());
            assert(read_attributes(Seq::empty()) =~= Seq::<AttributeView>::empty());
            assert(reads(opened.end().maybe_end(Some(name))) =~= reads(writer) + (seq![
                start_of(name, Seq::empty()),
            ] + variant_doc(variant, payload) + seq![EventView::EndElement]));
        },
        Payload::Newtype(inner) => {
            lemma_writes_element(inner, payload[0], begun, Some(variant.name@), false);
            let written = crate::ser::child_written(
                inner,
                payload[0],
                begun,
                crate::ser::child::ChildSerializerView { name: Some(variant.name@), newtype: false },
            );
            lemma_reads_steps(written.1);
            assert(read_attributes(Seq::empty()) =~= Seq::<AttributeView>::empty());
            assert(reads(written.1.maybe_end(Some(name))) =~= reads(writer) + (seq![
                start_of(name, Seq::empty()),
            ] + variant_doc(variant, payload) + seq![EventView::EndElement]));
        },
        Payload::Record(fields) => {
            let record = crate::ser::new_record(variant.name@, Some(name));
            assert(record_ready(record, fields@, 0));
            lemma_writes_record(fields@, payload, 0, writer, record);
            assert(read_attributes(record.attributes) + attributes_doc(fields@, payload, 0)
                =~= attributes_doc(fields@, payload, 0));
            assert(read_attributes(Seq::empty()) =~= Seq::<AttributeView>::empty());
            assert(reads(writer) + opening_doc(record, fields@, payload, 0) + children_doc(
                fields@,
                payload,
                0,
            ) + closing_doc(record) =~= reads(writer) + (seq![start_of(name, Seq::empty())]
                + variant_doc(variant, payload) + seq![EventView::EndElement]));
        },
        Payload::Tuple(members) => {
            lemma_members_written(members@, payload, 0);
            let opened = begun.start(variant.name@, Seq::empty());
            lemma_reads_steps(opened);
            let filled = opened.characters(
                crate::ser::plain::joined(words_of(members@, payload, 0)),
            );
            lemma_reads_steps(filled);
            lemma_reads_steps(filled.end());
            assert(read_attributes(Seq::empty()) =~= Seq::<AttributeView>::empty());
            assert(reads(filled.end().maybe_end(Some(name))) =~= reads(writer) + (seq![
                start_of(name, Seq::empty()),
            ] + variant_doc(variant, payload) + seq![EventView::EndElement]));
        },
    }
}

/// The entries of a map that fit are written without an error, one element after the other.
pub proof fn lemma_writes_entries(
    held: Shape,
    pairs: Seq<(Seq<char>, ValueView)>,
    from: int,
    writer: WriterView,
)
    requires
        0 <= from,
        entries_fit(held, pairs, from),
    ensures
        ({
            let written = crate::ser::entries_written(held, pairs, from, writer);
            &&& written.0 is Ok
            &&& reads(written.1) == reads(writer) + entries_doc(held, pairs, from)
        }),
    decreases held, pairs.len() - from + 1, 0nat,
{
    if from < pairs.len() {
        lemma_writes_element(held, pairs[from].1, writer, Some(pairs[from].0), false);
        let written = crate::ser::child_written(
            held,
            pairs[from].1,
            writer,
            crate::ser::child::ChildSerializerView { name: Some(pairs[from].0), newtype: false },
        );
        lemma_writes_entries(held, pairs, from + 1, written.1);
        assert(reads(writer) + element_doc(held, pairs[from].1, pairs[from].0) + entries_doc(
            held,
            pairs,
            from + 1,
        ) =~= reads(writer) + entries_doc(held, pairs, from));
    } else {
        assert(reads(writer) + entries_doc(held, pairs, from) =~= reads(writer));
    }
}

/// The members of a sequence that fit are written without an error, one element after the
/// other.
pub proof fn lemma_writes_items(
    item: Shape,
    items: Seq<ValueView>,
    from: int,
    writer: WriterView,
    name: Seq<char>,
)
    requires
        0 <= from,
        items_fit(item, items, from),
    ensures
        ({
            let written = crate::ser::items_written(item, items, from, writer, Some(name));
            &&& written.0 is Ok
            &&& reads(written.1) == reads(writer) + items_doc(item, items, from, name)
        }),
    decreases item, items.len() - from + 1, 0nat,
{
    if from < items.len() {
        lemma_writes_element(item, items[from], writer, Some(name), false);
        let written = crate::ser::child_written(
            item,
            items[from],
            writer,
            crate::ser::child::ChildSerializerView { name: Some(name), newtype: false },
        );
        lemma_writes_items(item, items, from + 1, written.1, name);
        assert(reads(writer) + element_doc(item, items[from], name) + items_doc(
            item,
            items,
            from + 1,
            name,
        ) =~= reads(writer) + items_doc(item, items, from, name));
    } else {
        assert(reads(writer) + items_doc(item, items, from, name) =~= reads(writer));
    }
}

/// A variant that fits is written as its own element where the union has none.
proof fn lemma_writes_bare_variant(variant: Variant, payload: Seq<ValueView>, writer: WriterView)
    requires
        variant_fits(variant, payload),
    ensures
        ({
            let written = crate::ser::variant_written(variant, payload, writer, None);
            &&& written.0 is Ok
            &&& reads(written.1) == reads(writer) + variant_doc(variant, payload)
        }),
    decreases variant, 0nat, 0nat,
{
    lemma_reads_steps(writer);
    assert(writer.maybe_start(None) == writer);
    assert(read_attributes(Seq::empty()) =~= Seq::<AttributeView>::empty());
    match variant.payload {
        Payload::Unit => {
            let opened = writer.start(variant.name@, Seq::empty());
            lemma_reads_steps(opened);
            lemma_reads_steps(opened.end());
            assert(reads(opened.end().maybe_end(None)) =~= reads(writer) + variant_doc(
                variant,
                payload,
            ));
        },
        Payload::Newtype(inner) => {
            lemma_writes_element(inner, payload[0], writer, Some(variant.name@), false);
            let written = crate::ser::child_written(
                inner,
                payload[0],
                writer,
                crate::ser::child::ChildSerializerView { name: Some(variant.name@), newtype: false },
            );
            lemma_reads_steps(written.1);
            assert(written.1.maybe_end(None) == written.1);
        },
        Payload::Record(fields) => {
            let record = crate::ser::new_record(variant.name@, None);
            assert(record_ready(record, fields@, 0));
            lemma_writes_record(fields@, payload, 0, writer, record);
            assert(read_attributes(record.attributes) + attributes_doc(fields@, payload, 0)
                =~= attributes_doc(fields@, payload, 0));
            assert(reads(writer) + opening_doc(record, fields@, payload, 0) + children_doc(
                fields@,
                payload,
                0,
            ) + closing_doc(record) =~= reads(writer) + variant_doc(variant, payload));
        },
        Payload::Tuple(members) => {
            lemma_members_written(members@, payload, 0);
            let opened = writer.start(variant.name@, Seq::empty());
            lemma_reads_steps(opened);
            let filled = opened.characters(
                crate::ser::plain::joined(words_of(members@, payload, 0)),
            );
            lemma_reads_steps(filled);
            lemma_reads_steps(filled.end());
            assert(reads(filled.end().maybe_end(None)) =~= reads(writer) + variant_doc(
                variant,
                payload,
            ));
        },
    }
}

/// The unclaimed children that fit are written without an error, each as the element of
/// its variant.
proof fn lemma_writes_choices(item: Shape, items: Seq<ValueView>, from: int, writer: WriterView)
    requires
        0 <= from,
        item is Union,
        items_fit(item, items, from),
    ensures
        ({
            let written = crate::ser::items_written(item, items, from, writer, None);
            &&& written.0 is Ok
            &&& reads(written.1) == reads(writer) + choices_doc(item, items, from)
        }),
    decreases item, items.len() - from + 1, 0nat,
{
    if from < items.len() {
        let variants = item->Union_1@;
        assert(element_fits(item, items[from]));
        let index = items[from]->Variant_0;
        let payload = items[from]->Variant_1;
        lemma_writes_bare_variant(variants[index], payload, writer);
        let written = crate::ser::child_written(
            item,
            items[from],
            writer,
            crate::ser::child::ChildSerializerView { name: None, newtype: false },
        );
        assert(written == crate::ser::variant_written(variants[index], payload, writer, None));
        lemma_writes_choices(item, items, from + 1, written.1);
        assert(reads(writer) + choice_doc(item, items[from]) + choices_doc(item, items, from + 1)
            =~= reads(writer) + choices_doc(item, items, from));
    } else {
        assert(reads(writer) + choices_doc(item, items, from) =~= reads(writer));
    }
}

/// Whether the record is in a state in which its fields from `from` on can be written.
pub open spec fn record_ready(
    record: crate::ser::map::StructSerializerView,
    fields: Seq<Field>,
    from: int,
) -> bool {
    &&& record.start_written ==> forall|j: int|
        from <= j < fields.len() ==> !is_attribute_key(fields[j].name@)
    &&& record.start_written ==> record.parent is None || record.parent_written
}

/// An attribute that fits is held back for the opening tag.
proof fn lemma_writes_attribute(
    fields: Seq<Field>,
    values: Seq<ValueView>,
    from: int,
    writer: WriterView,
    record: crate::ser::map::StructSerializerView,
)
    requires
        0 <= from < fields.len(),
        values.len() == fields.len(),
        is_attribute_key(fields[from].name@),
        plain_fits(fields[from].shape, values[from]),
        record_ready(record, fields, from),
    ensures
        match crate::laws::next_record_step(fields, values, from, writer, record) {
            Some((rest, after)) => {
                &&& record_ready(after, fields, from + 1)
                &&& closing_doc(after) == closing_doc(record)
                &&& reads(rest) + opening_doc(after, fields, values, from + 1) == reads(writer)
                    + opening_doc(record, fields, values, from)
            },
            None => false,
        },
{
    let key = fields[from].name@;
    let shape = fields[from].shape;
    let value = values[from];
    lemma_reads_steps(writer);
    assert(read_attributes(Seq::empty()) =~= Seq::<AttributeView>::empty());
    lemma_plain_reads_back(shape, value);
    assert(!record.start_written);
    let begun = record.parent_opened(writer);
    let state = record.with_parent();
    assert(record.with_parent().begun(key) == state);
    match plain_text(shape, value) {
        Ok(Some(text)) => {
            let after = crate::ser::map::StructSerializerView {
                attributes: state.attributes.push((key.skip(1), text)),
                ..state
            };
            assert(read_attributes(after.attributes) =~= read_attributes(record.attributes).push(
                AttributeView { prefix: None, name: key.skip(1), value: text },
            ));
            assert(read_attributes(after.attributes) + attributes_doc(fields, values, from + 1)
                =~= read_attributes(record.attributes) + attributes_doc(fields, values, from));
            assert(reads(begun) + opening_doc(after, fields, values, from + 1) =~= reads(writer)
                + opening_doc(record, fields, values, from));
        },
        _ => {
            assert(attributes_doc(fields, values, from + 1) == attributes_doc(
                fields,
                values,
                from,
            ));
            assert(reads(begun) + opening_doc(state, fields, values, from + 1) =~= reads(writer)
                + opening_doc(record, fields, values, from));
        },
    }
}

/// A field that is no attribute has the opening tag written before it, and then what it
/// holds.
proof fn lemma_writes_child_field(
    fields: Seq<Field>,
    values: Seq<ValueView>,
    from: int,
    writer: WriterView,
    record: crate::ser::map::StructSerializerView,
)
    requires
        0 <= from < fields.len(),
        values.len() == fields.len(),
        attributes_first(fields),
        !is_attribute_key(fields[from].name@),
        field_fits(fields[from], values[from]),
        record_ready(record, fields, from),
    ensures
        match crate::laws::next_record_step(fields, values, from, writer, record) {
            Some((rest, after)) => {
                &&& record_ready(after, fields, from + 1)
                &&& after.start_written
                &&& closing_doc(after) == closing_doc(record)
                &&& reads(rest) == reads(writer) + opening_doc(record, fields, values, from)
                    + field_doc(fields[from], values[from])
            },
            None => false,
        },
    decreases fields, fields.len() - from, 0nat,
{
    let key = fields[from].name@;
    let shape = fields[from].shape;
    let value = values[from];
    lemma_reads_steps(writer);
    let around = record.parent_opened(writer);
    lemma_reads_steps(around);
    assert(read_attributes(Seq::empty()) =~= Seq::<AttributeView>::empty());
    assert forall|j: int| from <= j < fields.len() implies !is_attribute_key(fields[j].name@) by {
        if from < j && is_attribute_key(fields[j].name@) {
            assert(is_attribute_key(fields[from].name@));
        }
    }
    lemma_no_attributes(fields, values, from);
    assert(read_attributes(record.attributes) + Seq::<AttributeView>::empty()
        =~= read_attributes(record.attributes));
    let begun = record.start_opened(writer);
    assert(reads(begun) =~= reads(writer) + opening_doc(record, fields, values, from));
    lemma_reads_steps(begun);
    if key == "#text"@ {
        lemma_plain_reads_back(shape, value);
        match plain_text(shape, value) {
            Ok(Some(text)) => {
                assert(reads(begun.characters(text)) =~= reads(begun) + field_doc(
                    fields[from],
                    value,
                ));
            },
            _ => {
                assert(reads(begun) =~= reads(begun) + field_doc(fields[from], value));
            },
        }
    } else if key == "#content"@ {
        let item = *shape->Sequence_0;
        lemma_writes_choices(item, value->Sequence_0, 0, begun);
    } else {
        lemma_writes_slot(fields[from], value, begun);
    }
}

/// The fields of a record that fit are written without an error: the tags that are still
/// to be opened, what the fields put between them, and the tags that close the record.
pub proof fn lemma_writes_record(
    fields: Seq<Field>,
    values: Seq<ValueView>,
    from: int,
    writer: WriterView,
    record: crate::ser::map::StructSerializerView,
)
    requires
        0 <= from <= fields.len(),
        values.len() == fields.len(),
        attributes_first(fields),
        fields_fit(fields, values, from),
        record_ready(record, fields, from),
    ensures
        ({
            let written = crate::ser::record_written(fields, values, from, writer, record);
            &&& written.0 is Ok
            &&& reads(written.1) == reads(writer) + opening_doc(record, fields, values, from)
                + children_doc(fields, values, from) + closing_doc(record)
        }),
    decreases fields, fields.len() - from, 1nat,
{
    if from < fields.len() {
        let key = fields[from].name@;
        let value = values[from];
        assert(field_fits(fields[from], value) && fields_fit(fields, values, from + 1));
        assert(children_doc(fields, values, from) == field_doc(fields[from], value)
            + children_doc(fields, values, from + 1));
        crate::laws::lemma_record_steps(fields, values, from, writer, record);
        if is_attribute_key(key) {
            assert(plain_fits(fields[from].shape, value));
            assert(field_doc(fields[from], value) =~= Seq::<EventView>::empty());
            lemma_writes_attribute(fields, values, from, writer, record);
        } else {
            lemma_writes_child_field(fields, values, from, writer, record);
        }
        let (rest, after) = crate::laws::next_record_step(fields, values, from, writer, record)->0;
        lemma_writes_record(fields, values, from + 1, rest, after);
        let tail = children_doc(fields, values, from + 1) + closing_doc(record);
        if is_attribute_key(key) {
            assert(reads(rest) + opening_doc(after, fields, values, from + 1) + children_doc(
                fields,
                values,
                from + 1,
            ) + closing_doc(after) =~= reads(writer) + opening_doc(record, fields, values, from)
                + children_doc(fields, values, from) + closing_doc(record));
        } else {
            assert(opening_doc(after, fields, values, from + 1) =~= Seq::<EventView>::empty());
            assert(reads(rest) + opening_doc(after, fields, values, from + 1) + children_doc(
                fields,
                values,
                from + 1,
            ) + closing_doc(after) =~= reads(writer) + opening_doc(record, fields, values, from)
                + children_doc(fields, values, from) + closing_doc(record));
        }
    } else {
        lemma_reads_steps(writer);
        let around = record.parent_opened(writer);
        lemma_reads_steps(around);
        let opened = record.start_opened(writer);
        lemma_reads_steps(opened);
        lemma_reads_steps(opened.end());
        assert(read_attributes(Seq::empty()) =~= Seq::<AttributeView>::empty());
        assert(attributes_doc(fields, values, from) =~= Seq::<AttributeView>::empty());
        assert(read_attributes(record.attributes) + Seq::<AttributeView>::empty()
            =~= read_attributes(record.attributes));
        assert(children_doc(fields, values, from) =~= Seq::<EventView>::empty());
        assert(reads(record.ended(writer)) =~= reads(writer) + opening_doc(
            record,
            fields,
            values,
            from,
        ) + children_doc(fields, values, from) + closing_doc(record));
    }
}

/// The value of a field that is a child element is written without an error.
pub proof fn lemma_writes_slot(field: Field, value: ValueView, writer: WriterView)
    requires
        is_element_key(field.name@),
        field_fits(field, value),
    ensures
        ({
            let written = crate::ser::child_written(
                field.shape,
                value,
                writer,
                crate::ser::child::ChildSerializerView { name: Some(field.name@), newtype: false },
            );
            &&& written.0 is Ok
            &&& reads(written.1) == reads(writer) + field_doc(field, value)
        }),
    decreases field, 0nat, 0nat,
{
    let key = field.name@;
    match field.shape {
        Shape::Optional(inner) => match value {
            ValueView::Present(held) => {
                lemma_writes_element(*inner, *held, writer, Some(key), false);
            },
            _ => {
                assert(reads(writer) + field_doc(field, value) =~= reads(writer));
            },
        },
        Shape::Sequence(item) => {
            lemma_writes_items(*item, value->Sequence_0, 0, writer, key);
        },
        _ => {
            lemma_writes_element(field.shape, value, writer, Some(key), false);
        },
    }
}

/// Whether the tape has the events of `doc` in its first slots, none of them consumed,
/// and can still count them as consumed.
pub open spec fn starts_with(tape: Tape, doc: Seq<EventView>) -> bool {
    &&& doc.len() <= tape.slots.len()
    &&& forall|i: int| 0 <= i < doc.len() ==> tape.slots[i] == Some(#[trigger] doc[i])
    &&& tape.taken + doc.len() < u64::MAX
}

/// The tape after its first `n` slots have been consumed at the front.
pub open spec fn advanced(tape: Tape, n: int) -> Tape {
    Tape { slots: tape.slots.skip(n), failure: tape.failure, taken: (tape.taken + n) as nat }
}

/// What looking and consuming at the front of a tape gives when an event stands there.
pub proof fn lemma_front(tape: Tape)
    requires
        tape.slots.len() > 0,
        tape.slots[0] is Some,
        tape.taken < u64::MAX,
    ensures
        tape.seek(0) == 0,
        tape.reaches(0),
        tape.landing(0) == 0,
        tape.peeked(0) == Ok::<EventView, XmlErrorView>(tape.slots[0]->0),
        tape.after_peek(0) == tape,
        tape.after_next(0) == advanced(tape, 1),
        crate::de::measure(advanced(tape, 1)) < crate::de::measure(tape),
{
    assert(tape.padded(1) == tape);
}

proof fn lemma_advanced(tape: Tape, a: int, b: int)
    requires
        0 <= a,
        0 <= b,
        a + b <= tape.slots.len(),
    ensures
        advanced(advanced(tape, a), b) == advanced(tape, a + b),
        advanced(tape, 0) == tape,
{
    assert(tape.slots.skip(a).skip(b) =~= tape.slots.skip(a + b));
    assert(tape.slots.skip(0) =~= tape.slots);
}

/// A tape that starts with two runs of events starts with the first, and behind it with
/// the second.
proof fn lemma_starts_split(tape: Tape, first: Seq<EventView>, second: Seq<EventView>)
    requires
        starts_with(tape, first + second),
    ensures
        starts_with(tape, first),
        starts_with(advanced(tape, first.len() as int), second),
{
    assert forall|i: int| 0 <= i < first.len() implies tape.slots[i] == Some(
        #[trigger] first[i],
    ) by {
        assert((first + second)[i] == first[i]);
    }
    let later = advanced(tape, first.len() as int);
    assert forall|i: int| 0 <= i < second.len() implies later.slots[i] == Some(
        #[trigger] second[i],
    ) by {
        assert((first + second)[first.len() + i] == second[i]);
    }
}

/// The element of a value that fits begins with its opening tag and ends with its
/// closing tag.
pub proof fn lemma_element_doc_shape(shape: Shape, value: ValueView, name: Seq<char>)
    requires
        element_fits(shape, value),
    ensures
        element_doc(shape, value, name).len() >= 2,
        element_doc(shape, value, name)[0] matches EventView::StartElement(element)
            && element.prefix is None && element.name == name,
    decreases shape,
{
    assert(element_fits(shape, value));
    match shape {
        Shape::Newtype(_, inner) => {
            lemma_element_doc_shape(*inner, value, name);
        },
        Shape::Record(_, fields) => {
            assert(value is Record);
            assert(element_doc(shape, value, name) == record_doc(fields@, value->Record_0, name));
        },
        Shape::Union(_, variants) => {
            assert(value is Variant);
        },
        Shape::Dictionary(_) => {
            assert(value is Dictionary);
        },
        _ => {},
    }
}

/// A leaf is read back from the element that holds its text.
proof fn lemma_reads_leaf(
    shape: Shape,
    value: ValueView,
    name: Seq<char>,
    given: Seq<char>,
    tape: Tape,
    overlapping: bool,
)
    requires
        leaf_fits(shape, value),
        !(shape is Newtype),
        starts_with(tape, element_doc(shape, value, name)),
    ensures
        child_value(shape, tape, ChildView { cursor: 0, overlapping, name: Some(given) })
            == (Ok::<ValueView, XmlErrorView>(value), advanced(tape, 3)),
        element_doc(shape, value, name).len() == 3,
{
    let doc = element_doc(shape, value, name);
    lemma_leaf_reads_back(shape, value);
    assert(tape.slots[0] == Some(doc[0]));
    assert(tape.slots[1] == Some(doc[1]));
    assert(tape.slots[2] == Some(doc[2]));
    lemma_front(tape);
    let inside = advanced(tape, 1);
    assert(inside.slots[0] == tape.slots[1]);
    lemma_front(inside);
    let filled = advanced(inside, 1);
    assert(filled.slots[0] == tape.slots[2]);
    lemma_front(filled);
    lemma_advanced(tape, 1, 1);
    lemma_advanced(tape, 2, 1);
}

/// A unit is read back from its empty element.
proof fn lemma_reads_unit(name: Seq<char>, given: Seq<char>, tape: Tape, overlapping: bool)
    requires
        starts_with(tape, element_doc(Shape::Unit, ValueView::Unit, name)),
    ensures
        child_value(
            Shape::Unit,
            tape,
            ChildView { cursor: 0, overlapping, name: Some(given) },
        ) == (Ok::<ValueView, XmlErrorView>(ValueView::Unit), advanced(tape, 2)),
        element_doc(Shape::Unit, ValueView::Unit, name).len() == 2,
{
    let doc = element_doc(Shape::Unit, ValueView::Unit, name);
    assert(tape.slots[0] == Some(doc[0]));
    assert(tape.slots[1] == Some(doc[1]));
    lemma_front(tape);
    let inside = advanced(tape, 1);
    assert(inside.slots[0] == tape.slots[1]);
    lemma_front(inside);
    lemma_advanced(tape, 1, 1);
}

/// Whether the document holds anything for the field.
pub open spec fn present(field: Field, value: ValueView) -> bool {
    if is_attribute_key(field.name@) {
        plain_text(field.shape, value) matches Ok(Some(_))
    } else {
        field_doc(field, value).len() > 0
    }
}

/// The values that a reader has found when it has read the fields before `upto`.
pub open spec fn found_at(fields: Seq<Field>, values: Seq<ValueView>, upto: int) -> Seq<
    Option<ValueView>,
> {
    Seq::new(
        fields.len(),
        |i: int|
            if i < upto && present(fields[i], values[i]) {
                Some(values[i])
            } else {
                None
            },
    )
}

proof fn lemma_field_fits_at(fields: Seq<Field>, values: Seq<ValueView>, from: int, at: int)
    requires
        values.len() == fields.len(),
        0 <= from <= at < fields.len(),
        fields_fit(fields, values, from),
    ensures
        field_fits(fields[at], values[at]),
    decreases at - from,
{
    if from < at {
        lemma_field_fits_at(fields, values, from + 1, at);
    }
}

proof fn lemma_fields_fit_from(fields: Seq<Field>, values: Seq<ValueView>, from: int, at: int)
    requires
        values.len() == fields.len(),
        0 <= from <= at <= fields.len(),
        fields_fit(fields, values, from),
    ensures
        fields_fit(fields, values, at),
    decreases at - from,
{
    if from < at {
        lemma_fields_fit_from(fields, values, from + 1, at);
    }
}

/// The key of the unclaimed children names no attribute and is not the key of the text.
proof fn lemma_content_key()
    ensures
        !is_attribute_key("#content"@),
        "#content"@ != "#text"@,
{
    reveal_strlit("#content");
    reveal_strlit("#text");
    assert("#content"@.len() == 8);
    assert("#text"@.len() == 5);
    assert("#content"@[0] == '#');
}

/// The events of a variant that fits begin with the opening tag of an element that is
/// called as the variant.
proof fn lemma_variant_doc_shape(variant: Variant, payload: Seq<ValueView>)
    requires
        variant_fits(variant, payload),
    ensures
        variant_doc(variant, payload).len() >= 2,
        variant_doc(variant, payload)[0] matches EventView::StartElement(element)
            && element.prefix is None && element.name == variant.name@,
{
    match variant.payload {
        Payload::Newtype(inner) => {
            lemma_element_doc_shape(inner, payload[0], variant.name@);
        },
        _ => {},
    }
}

/// The events of one of the unclaimed children begin with the opening tag of an element
/// that is called as its variant.
proof fn lemma_choice_doc_shape(item: Shape, value: ValueView)
    requires
        item is Union,
        element_fits(item, value),
    ensures
        choice_doc(item, value).len() >= 2,
        choice_doc(item, value)[0] matches EventView::StartElement(element) && element.prefix
            is None && element.name == item->Union_1@[value->Variant_0].name@,
{
    lemma_variant_doc_shape(item->Union_1@[value->Variant_0], value->Variant_1);
}

/// A field for which the document holds nothing has the value that a reader gives it
/// without one.
proof fn lemma_field_default(field: Field, value: ValueView)
    requires
        field_fits(field, value),
        !present(field, value),
    ensures
        (field.shape is Optional && value == ValueView::Absent) || (field.shape is Sequence
            && value == ValueView::Sequence(Seq::empty())),
{
    let key = field.name@;
    if is_attribute_key(key) || key == "#text"@ {
        lemma_plain_reads_back(field.shape, value);
    } else if key == "#content"@ {
        let item = *field.shape->Sequence_0;
        let items = value->Sequence_0;
        if items.len() > 0 {
            lemma_choice_doc_shape(item, items[0]);
        }
        assert(items =~= Seq::<ValueView>::empty());
    } else {
        match field.shape {
            Shape::Optional(inner) => match value {
                ValueView::Present(held) => {
                    lemma_element_doc_shape(*inner, *held, key);
                },
                _ => {},
            },
            Shape::Sequence(item) => {
                let items = value->Sequence_0;
                if items.len() > 0 {
                    lemma_element_doc_shape(*item, items[0], key);
                }
                assert(items =~= Seq::<ValueView>::empty());
            },
            _ => {
                lemma_element_doc_shape(field.shape, value, key);
            },
        }
    }
}

/// What a field puts between the tags begins with character data, for the field of the
/// text, and with the opening tag of an element of the field's name, for a child element.
proof fn lemma_field_doc_head(field: Field, value: ValueView)
    requires
        !is_attribute_key(field.name@),
        field.name@ != "#content"@,
        field_fits(field, value),
        present(field, value),
    ensures
        field.name@ == "#text"@ ==> field_doc(field, value)[0] is Text,
        field.name@ != "#text"@ ==> (field_doc(field, value)[0] matches EventView::StartElement(
            element,
        ) && element.prefix is None && element.name == field.name@),
{
    let key = field.name@;
    if key != "#text"@ {
        match field.shape {
            Shape::Optional(inner) => match value {
                ValueView::Present(held) => {
                    lemma_element_doc_shape(*inner, *held, key);
                },
                _ => {},
            },
            Shape::Sequence(item) => {
                let items = value->Sequence_0;
                if items.len() > 0 {
                    lemma_element_doc_shape(*item, items[0], key);
                    assert(items_doc(*item, items, 0, key)[0] == element_doc(
                        *item,
                        items[0],
                        key,
                    )[0]);
                }
            },
            _ => {
                lemma_element_doc_shape(field.shape, value, key);
            },
        }
    }
}

/// When all keys have been offered, the values that were found, with the fields for which
/// the document holds nothing, are the values of the record.
proof fn lemma_completed_found(fields: Seq<Field>, values: Seq<ValueView>, from: int)
    requires
        values.len() == fields.len(),
        0 <= from <= fields.len(),
        fields_fit(fields, values, 0),
    ensures
        crate::de::completed(fields, found_at(fields, values, fields.len() as int), from) == Ok::<
            Seq<ValueView>,
            XmlErrorView,
        >(values.subrange(from, fields.len() as int)),
    decreases fields.len() - from,
{
    let found = found_at(fields, values, fields.len() as int);
    if from < fields.len() {
        lemma_completed_found(fields, values, from + 1);
        lemma_field_fits_at(fields, values, 0, from);
        if !present(fields[from], values[from]) {
            lemma_field_default(fields[from], values[from]);
        }
        assert(seq![values[from]] + values.subrange(from + 1, fields.len() as int)
            =~= values.subrange(from, fields.len() as int));
    } else {
        assert(values.subrange(from, fields.len() as int) =~= Seq::<ValueView>::empty());
    }
}

/// One round of reading a record: a key that goes to a field that has no value yet, and
/// the value that is read for it.
proof fn lemma_record_round(
    fields: Seq<Field>,
    tape: Tape,
    map: crate::de::map::MapAccessView,
    found: Seq<Option<ValueView>>,
    key: crate::de::map::KeyView,
    at: int,
    value: ValueView,
    rest: Tape,
)
    requires
        found.len() == fields.len(),
        0 <= at < fields.len(),
        found[at] is None,
        crate::de::map::next_key(map, tape).key == Ok::<
            Option<crate::de::map::KeyView>,
            XmlErrorView,
        >(Some(key)),
        crate::value::field_index(fields, key.name()) == Some(at),
        ({
            let offered = crate::de::map::next_key(map, tape);
            let step = crate::de::map::value_for(offered.map, offered.tape, key);
            &&& step.source matches Ok(source)
            &&& match source {
                crate::de::map::ValueSourceView::Plain(text) => plain_value(
                    fields[at].shape,
                    text,
                ) == Ok::<ValueView, XmlErrorView>(value) && rest == step.tape,
                crate::de::map::ValueSourceView::Child(child) => child_value(
                    fields[at].shape,
                    step.tape,
                    child,
                ) == (Ok::<ValueView, XmlErrorView>(value), rest),
            }
            &&& crate::de::measure(rest) + step.map.attributes.len() < crate::de::measure(tape)
                + map.attributes.len()
        }),
    ensures
        ({
            let offered = crate::de::map::next_key(map, tape);
            let step = crate::de::map::value_for(offered.map, offered.tape, key);
            crate::de::record_values(fields, tape, map, found) == crate::de::record_values(
                fields,
                rest,
                step.map,
                found.update(at, Some(value)),
            )
        }),
{
}

/// Whether the slot behind the first `n` holds an event that is not the start of an
/// element called `name`.
pub open spec fn followed_by_other(tape: Tape, n: int, name: Seq<char>) -> bool {
    &&& 0 <= n < tape.slots.len()
    &&& tape.slots[n] matches Some(event)
    &&& !(event matches EventView::StartElement(element) && element.qname() == name)
}

/// Whether a reader that looks from the slot `at` on for the start of an element called
/// `name`, and walks over every other element, comes to an event that is not the start of an
/// element before it finds one.
pub open spec fn passable(tape: Tape, at: int, name: Seq<char>) -> bool
    decreases tape.slots.len() - at,
{
    if 0 <= at < tape.slots.len() {
        match tape.slots[at] {
            Some(EventView::StartElement(element)) => if element.qname() != name {
                match tape.crossing(at + 1, 1).0 {
                    Ok(end) => if at < end <= tape.slots.len() {
                        passable(tape, end, name)
                    } else {
                        false
                    },
                    Err(_) => false,
                }
            } else {
                false
            },
            Some(_) => true,
            None => false,
        }
    } else {
        false
    }
}

/// Whether a sequence of elements called `name` ends behind the first `n` slots: with
/// sequences that keep together, at an event that is not the start of such an element; with
/// sequences that may overlap, where no such element follows among the siblings.
pub open spec fn run_ends(tape: Tape, n: int, name: Seq<char>, overlapping: bool) -> bool {
    if overlapping {
        0 <= n <= tape.slots.len() && passable(advanced(tape, n), 0, name)
    } else {
        followed_by_other(tape, n, name)
    }
}

/// A sequence that may overlap finds no further member where none follows among the
/// siblings, and leaves the tape as it was.
proof fn lemma_no_more_members(tape: Tape, at: int, name: Seq<char>)
    requires
        passable(tape, at, name),
    ensures
        ({
            let step = crate::de::seq::find_member(
                crate::de::seq::SeqAccessView {
                    cursor: at,
                    overlapping: true,
                    name: Some(name),
                    max: None,
                },
                tape,
            );
            &&& step.member == Ok::<Option<ChildView>, XmlErrorView>(None)
            &&& step.tape == tape
        }),
    decreases tape.slots.len() - at,
{
    assert(tape.seek(at) == at);
    assert(tape.padded(at + 1) == tape);
    match tape.slots[at] {
        Some(EventView::StartElement(element)) => {
            let end = tape.crossing(at + 1, 1).0->Ok_0;
            lemma_no_more_members(tape, end, name);
        },
        _ => {},
    }
}

/// Among what the fields from `from` on put between the tags of a record, up to the closing
/// tag, no element is called `name` if none of those fields is.
proof fn lemma_children_passable(
    fields: Seq<Field>,
    values: Seq<ValueView>,
    from: int,
    owner: int,
    tape: Tape,
    at: int,
)
    requires
        values.len() == fields.len(),
        0 <= from <= fields.len(),
        0 <= owner < from,
        content_last(fields),
        fields_fit(fields, values, from),
        forall|j: int| from <= j < fields.len() ==> fields[j].name@ != fields[owner].name@,
        holds(tape, at, children_doc(fields, values, from) + seq![EventView::EndElement]),
    ensures
        passable(tape, at, fields[owner].name@),
    decreases fields.len() - from,
{
    let closing = seq![EventView::EndElement];
    let name = fields[owner].name@;
    if from < fields.len() {
        let field = fields[from];
        let value = values[from];
        let key = field.name@;
        let first = field_doc(field, value);
        let later = children_doc(fields, values, from + 1);
        assert(field_fits(field, value) && fields_fit(fields, values, from + 1));
        assert(children_doc(fields, values, from) + closing =~= first + (later + closing));
        lemma_holds_split(tape, at, first, later + closing);
        lemma_children_passable(fields, values, from + 1, owner, tape, at + first.len());
        if first.len() > 0 {
            if is_attribute_key(key) {
            } else if key == "#text"@ {
                assert(tape.slots[at + 0] == Some(first[0]));
            } else if key == "#content"@ {
                let item = *field.shape->Sequence_0;
                assert forall|v: int| 0 <= v < item->Union_1@.len() implies (
                #[trigger] item->Union_1@[v]).name@ != name by {
                    assert(item->Union_1@[v].name@ != fields[owner].name@);
                }
                lemma_choices_passable(item, value->Sequence_0, 0, name, tape, at);
            } else {
                match field.shape {
                    Shape::Optional(inner) => {
                        lemma_element_passable(
                            *inner,
                            *value->Present_0,
                            key,
                            name,
                            tape,
                            at,
                        );
                    },
                    Shape::Sequence(item) => {
                        lemma_items_passable(*item, value->Sequence_0, 0, key, name, tape, at);
                    },
                    _ => {
                        lemma_element_passable(field.shape, value, key, name, tape, at);
                    },
                }
            }
        }
    } else {
        assert(children_doc(fields, values, from) =~= Seq::<EventView>::empty());
        assert(tape.slots[at + 0] == Some(closing[0]));
    }
}

/// A reader that looks for an element called `name` walks over an element that is called
/// otherwise.
proof fn lemma_element_passable(
    shape: Shape,
    value: ValueView,
    key: Seq<char>,
    name: Seq<char>,
    tape: Tape,
    at: int,
)
    requires
        element_fits(shape, value),
        key != name,
        holds(tape, at, element_doc(shape, value, key)),
        passable(tape, at + element_doc(shape, value, key).len(), name),
    ensures
        passable(tape, at, name),
{
    let doc = element_doc(shape, value, key);
    lemma_element_doc_shape(shape, value, key);
    lemma_element_is_whole(shape, value, key, tape, at);
    assert(tape.slots[at + 0] == Some(doc[0]));
    let element = doc[0]->StartElement_0;
    assert(element.qname() == key) by {
        assert(element.prefix is None && element.name == key);
    }
}

/// A reader that looks for an element called `name` walks over the members of a sequence
/// of elements that are called otherwise.
proof fn lemma_items_passable(
    item: Shape,
    items: Seq<ValueView>,
    from: int,
    key: Seq<char>,
    name: Seq<char>,
    tape: Tape,
    at: int,
)
    requires
        0 <= from <= items.len(),
        items_fit(item, items, from),
        key != name,
        holds(tape, at, items_doc(item, items, from, key)),
        passable(tape, at + items_doc(item, items, from, key).len(), name),
    ensures
        passable(tape, at, name),
    decreases items.len() - from,
{
    if from < items.len() {
        let first = element_doc(item, items[from], key);
        let later = items_doc(item, items, from + 1, key);
        lemma_holds_split(tape, at, first, later);
        lemma_items_passable(item, items, from + 1, key, name, tape, at + first.len());
        lemma_element_passable(item, items[from], key, name, tape, at);
    } else {
        assert(items_doc(item, items, from, key) =~= Seq::<EventView>::empty());
    }
}

/// A reader that looks for an element called `name` walks over the unclaimed children if
/// none of their variants is called so.
proof fn lemma_choices_passable(
    item: Shape,
    items: Seq<ValueView>,
    from: int,
    name: Seq<char>,
    tape: Tape,
    at: int,
)
    requires
        0 <= from <= items.len(),
        item is Union,
        items_fit(item, items, from),
        forall|v: int|
            0 <= v < item->Union_1@.len() ==> (#[trigger] item->Union_1@[v]).name@ != name,
        holds(tape, at, choices_doc(item, items, from)),
        passable(tape, at + choices_doc(item, items, from).len(), name),
    ensures
        passable(tape, at, name),
    decreases items.len() - from,
{
    if from < items.len() {
        let first = choice_doc(item, items[from]);
        let later = choices_doc(item, items, from + 1);
        assert(element_fits(item, items[from]));
        let variant = item->Union_1@[items[from]->Variant_0];
        let payload = items[from]->Variant_1;
        lemma_holds_split(tape, at, first, later);
        lemma_choices_passable(item, items, from + 1, name, tape, at + first.len());
        lemma_variant_doc_shape(variant, payload);
        lemma_variant_is_whole(variant, payload, tape, at);
        assert(tape.slots[at + 0] == Some(first[0]));
        let element = first[0]->StartElement_0;
        assert(element.qname() == variant.name@) by {
            assert(element.prefix is None && element.name == variant.name@);
        }
    } else {
        assert(choices_doc(item, items, from) =~= Seq::<EventView>::empty());
    }
}

/// The reader that reads a value at the front of the tape.
pub open spec fn front_child(name: Option<Seq<char>>, overlapping: bool) -> ChildView {
    ChildView { cursor: 0, overlapping, name }
}

/// The keys of a record at the front of the tape.
pub open spec fn front_access(
    fields: Seq<Field>,
    attributes: Seq<AttributeView>,
    overlapping: bool,
) -> crate::de::map::MapAccessView {
    crate::de::record_access(fields, attributes, 0, overlapping)
}

proof fn lemma_measure_advanced(tape: Tape, n: int)
    requires
        n >= 1,
        tape.taken + n < u64::MAX,
    ensures
        crate::de::measure(advanced(tape, n)) < crate::de::measure(tape),
{
}

/// What stands behind the events of the fields before `from`, at the head of the events
/// of the fields from `from` on and the closing tag, is not the start of an element that is
/// called as an earlier field.
proof fn lemma_head_is_other(
    fields: Seq<Field>,
    values: Seq<ValueView>,
    from: int,
    owner: int,
)
    requires
        values.len() == fields.len(),
        0 <= from <= fields.len(),
        0 <= owner < from,
        content_last(fields),
        fields_fit(fields, values, 0),
        forall|j: int| from <= j < fields.len() ==> fields[j].name@ != fields[owner].name@,
        forall|j: int| from <= j < fields.len() ==> !is_attribute_key(fields[j].name@),
    ensures
        ({
            let head = (children_doc(fields, values, from) + seq![EventView::EndElement])[0];
            !(head matches EventView::StartElement(element) && element.qname()
                == fields[owner].name@)
        }),
    decreases fields.len() - from,
{
    if from < fields.len() {
        lemma_field_fits_at(fields, values, 0, from);
        if present(fields[from], values[from]) {
            assert((children_doc(fields, values, from) + seq![EventView::EndElement])[0]
                == field_doc(fields[from], values[from])[0]);
            if fields[from].name@ == "#content"@ {
                lemma_content_key();
                let item = *fields[from].shape->Sequence_0;
                let items = values[from]->Sequence_0;
                assert(items.len() > 0);
                assert(element_fits(item, items[0]));
                lemma_choice_doc_shape(item, items[0]);
                let variant = item->Union_1@[items[0]->Variant_0];
                assert(variant.name@ != fields[owner].name@);
                assert(field_doc(fields[from], values[from])[0] == choice_doc(item, items[0])[0]);
            } else {
                lemma_field_doc_head(fields[from], values[from]);
            }
        } else {
            lemma_head_is_other(fields, values, from + 1, owner);
            assert(children_doc(fields, values, from) =~= children_doc(fields, values, from + 1));
        }
    }
}

/// The members of a sequence are read back from their elements, up to the first event that
/// is not the start of an element of their name.
pub proof fn lemma_reads_items(
    item: Shape,
    items: Seq<ValueView>,
    from: int,
    name: Seq<char>,
    tape: Tape,
    overlapping: bool,
)
    requires
        0 <= from <= items.len(),
        items_fit(item, items, from),
        starts_with(tape, items_doc(item, items, from, name)),
        run_ends(tape, items_doc(item, items, from, name).len() as int, name, overlapping),
    ensures
        crate::de::items(
            item,
            tape,
            crate::de::seq::SeqAccessView { cursor: 0, overlapping, name: Some(name), max: None },
        ) == (
            Ok::<Seq<ValueView>, XmlErrorView>(items.subrange(from, items.len() as int)),
            advanced(tape, items_doc(item, items, from, name).len() as int),
        ),
    decreases item, items.len() - from + 1, 0nat,
{
    let seq = crate::de::seq::SeqAccessView {
        cursor: 0,
        overlapping,
        name: Some(name),
        max: None,
    };
    let doc = items_doc(item, items, from, name);
    lemma_advanced(tape, 0, 0);
    if from < items.len() {
        let first = element_doc(item, items[from], name);
        let later = items_doc(item, items, from + 1, name);
        lemma_element_doc_shape(item, items[from], name);
        lemma_starts_split(tape, first, later);
        assert(tape.slots[0] == Some(doc[0]));
        assert(doc[0] == first[0]);
        lemma_front(tape);
        let step = crate::de::seq::next_member(seq, tape);
        assert(step.member == Ok::<Option<ChildView>, XmlErrorView>(
            Some(front_child(Some(name), overlapping)),
        ));
        assert(step.tape == tape);
        assert(step.seq == seq);
        lemma_reads_element(item, items[from], Some(name), name, tape, overlapping);
        let rest = advanced(tape, first.len() as int);
        lemma_measure_advanced(tape, first.len() as int);
        lemma_advanced(tape, first.len() as int, later.len() as int);
        if !overlapping {
            assert(rest.slots[later.len() as int] == tape.slots[doc.len() as int]);
        }
        lemma_reads_items(item, items, from + 1, name, rest, overlapping);
        assert(seq![items[from]] + items.subrange(from + 1, items.len() as int)
            =~= items.subrange(from, items.len() as int));
    } else {
        assert(doc =~= Seq::<EventView>::empty());
        if overlapping {
            lemma_no_more_members(tape, 0, name);
        } else {
            lemma_front(tape);
        }
        assert(items.subrange(from, items.len() as int) =~= Seq::<ValueView>::empty());
    }
}

/// The entries of a map are read back from their elements, up to the closing tag.
pub proof fn lemma_reads_entries(
    held: Shape,
    pairs: Seq<(Seq<char>, ValueView)>,
    from: int,
    tape: Tape,
    overlapping: bool,
)
    requires
        0 <= from <= pairs.len(),
        entries_fit(held, pairs, from),
        starts_with(tape, entries_doc(held, pairs, from) + seq![EventView::EndElement]),
    ensures
        crate::de::entries(
            held,
            tape,
            crate::de::map::MapAccessView {
                cursor: 0,
                overlapping,
                attributes: Seq::empty(),
                fields: Seq::empty(),
                content: false,
            },
        ) == (
            Ok::<Seq<(Seq<char>, ValueView)>, XmlErrorView>(pairs.subrange(from, pairs.len() as int)),
            advanced(tape, entries_doc(held, pairs, from).len() as int),
        ),
    decreases held, pairs.len() - from + 1, 0nat,
{
    let map = crate::de::map::MapAccessView {
        cursor: 0,
        overlapping,
        attributes: Seq::empty(),
        fields: Seq::empty(),
        content: false,
    };
    let doc = entries_doc(held, pairs, from);
    let closing = seq![EventView::EndElement];
    lemma_advanced(tape, 0, 0);
    if from < pairs.len() {
        let key = pairs[from].0;
        let first = element_doc(held, pairs[from].1, key);
        let later = entries_doc(held, pairs, from + 1);
        lemma_element_doc_shape(held, pairs[from].1, key);
        assert(doc + closing =~= first + (later + closing));
        lemma_starts_split(tape, first, later + closing);
        assert(tape.slots[0] == Some(first[0]));
        lemma_front(tape);
        let offered = crate::de::map::next_key(map, tape);
        assert(offered.key == Ok::<Option<crate::de::map::KeyView>, XmlErrorView>(
            Some(crate::de::map::KeyView::Element(key)),
        ));
        assert(offered.map == map);
        assert(offered.tape == tape);
        lemma_reads_element(held, pairs[from].1, Some(key), key, tape, overlapping);
        let rest = advanced(tape, first.len() as int);
        lemma_measure_advanced(tape, first.len() as int);
        lemma_reads_entries(held, pairs, from + 1, rest, overlapping);
        lemma_advanced(tape, first.len() as int, later.len() as int);
        assert(seq![(key, pairs[from].1)] + pairs.subrange(from + 1, pairs.len() as int)
            =~= pairs.subrange(from, pairs.len() as int));
    } else {
        assert(doc =~= Seq::<EventView>::empty());
        assert(tape.slots[0] == Some((doc + closing)[0]));
        lemma_front(tape);
        assert(pairs.subrange(from, pairs.len() as int) =~= Seq::<(Seq<char>, ValueView)>::empty());
    }
}

/// The value of a field that is a child element is read back from what the field has put
/// between the tags of the record, if what follows is not taken for more of the same
/// field.
pub proof fn lemma_reads_slot(field: Field, value: ValueView, tape: Tape, overlapping: bool)
    requires
        is_element_key(field.name@),
        field_fits(field, value),
        present(field, value),
        starts_with(tape, field_doc(field, value)),
        run_ends(tape, field_doc(field, value).len() as int, field.name@, overlapping),
    ensures
        child_value(field.shape, tape, front_child(Some(field.name@), overlapping)) == (
            Ok::<ValueView, XmlErrorView>(value),
            advanced(tape, field_doc(field, value).len() as int),
        ),
    decreases field, 0nat, 0nat,
{
    let key = field.name@;
    let doc = field_doc(field, value);
    match field.shape {
        Shape::Optional(inner) => {
            let held = value->Present_0;
            lemma_element_doc_shape(*inner, *held, key);
            assert(tape.slots[0] == Some(doc[0]));
            assert(tape.slots[1] == Some(doc[1]));
            lemma_front(tape);
            assert(tape.seek(1) == 1);
            assert(tape.padded(2) == tape);
            assert(tape.after_peek(1) == tape);
            assert(tape.peeked(1) == Ok::<EventView, XmlErrorView>(doc[1]));
            assert(!tape.empty_element(0));
            lemma_reads_element(*inner, *held, Some(key), key, tape, overlapping);
        },
        Shape::Sequence(item) => {
            let items = value->Sequence_0;
            lemma_reads_items(*item, items, 0, key, tape, overlapping);
            assert(items.subrange(0, items.len() as int) =~= items);
        },
        _ => {
            lemma_reads_element(field.shape, value, Some(key), key, tape, overlapping);
        },
    }
}

/// An attribute that is on the opening tag is offered first and goes to its field.
proof fn lemma_round_attribute(
    fields: Seq<Field>,
    values: Seq<ValueView>,
    from: int,
    tape: Tape,
    overlapping: bool,
)
    requires
        values.len() == fields.len(),
        0 <= from < fields.len(),
        distinct_names(fields),
        fields_fit(fields, values, 0),
        is_attribute_key(fields[from].name@),
        present(fields[from], values[from]),
    ensures
        crate::de::record_values(
            fields,
            tape,
            front_access(fields, attributes_doc(fields, values, from), overlapping),
            found_at(fields, values, from),
        ) == crate::de::record_values(
            fields,
            tape,
            front_access(fields, attributes_doc(fields, values, from + 1), overlapping),
            found_at(fields, values, from + 1),
        ),
{
    let key = fields[from].name@;
    let shape = fields[from].shape;
    let value = values[from];
    lemma_field_fits_at(fields, values, 0, from);
    lemma_plain_reads_back(shape, value);
    let text = plain_text(shape, value)->Ok_0->0;
    let attribute = AttributeView { prefix: None, name: key.skip(1), value: text };
    let map = front_access(fields, attributes_doc(fields, values, from), overlapping);
    let found = found_at(fields, values, from);
    assert(map.attributes[0] == attribute);
    reveal_strlit("@");
    assert("@"@ + key.skip(1) =~= key);
    let offered_key = crate::de::map::KeyView::Attribute(key.skip(1));
    assert(crate::de::map::next_key(map, tape).key == Ok::<
        Option<crate::de::map::KeyView>,
        XmlErrorView,
    >(Some(offered_key)));
    assert(offered_key.name() == key);
    crate::value::lemma_field_index_is(fields, key, from);
    let step = crate::de::map::value_for(map, tape, offered_key);
    assert(step.map.attributes =~= attributes_doc(fields, values, from + 1));
    assert(step.map == front_access(fields, attributes_doc(fields, values, from + 1), overlapping));
    assert(found.update(from, Some(value)) =~= found_at(fields, values, from + 1));
    lemma_record_round(fields, tape, map, found, offered_key, from, value, tape);
}

/// Character data between the tags of a record goes to the field of the text.
proof fn lemma_round_text(
    fields: Seq<Field>,
    values: Seq<ValueView>,
    from: int,
    tape: Tape,
    overlapping: bool,
)
    requires
        values.len() == fields.len(),
        0 <= from < fields.len(),
        distinct_names(fields),
        fields_fit(fields, values, 0),
        fields[from].name@ == "#text"@,
        present(fields[from], values[from]),
        starts_with(tape, field_doc(fields[from], values[from])),
    ensures
        crate::de::record_values(
            fields,
            tape,
            front_access(fields, Seq::empty(), overlapping),
            found_at(fields, values, from),
        ) == crate::de::record_values(
            fields,
            advanced(tape, 1),
            front_access(fields, Seq::empty(), overlapping),
            found_at(fields, values, from + 1),
        ),
        field_doc(fields[from], values[from]).len() == 1,
{
    let key = fields[from].name@;
    let shape = fields[from].shape;
    let value = values[from];
    reveal_strlit("#text");
    assert(!is_attribute_key(key));
    lemma_field_fits_at(fields, values, 0, from);
    lemma_plain_reads_back(shape, value);
    let text = plain_text(shape, value)->Ok_0->0;
    let doc = field_doc(fields[from], value);
    assert(doc[0] == EventView::Text(text));
    assert(tape.slots[0] == Some(doc[0]));
    lemma_front(tape);
    let map = front_access(fields, Seq::empty(), overlapping);
    let found = found_at(fields, values, from);
    let offered_key = crate::de::map::KeyView::Text;
    assert(crate::de::map::next_key(map, tape).key == Ok::<
        Option<crate::de::map::KeyView>,
        XmlErrorView,
    >(Some(offered_key)));
    assert(crate::de::map::next_key(map, tape).map == map);
    crate::value::lemma_field_index_is(fields, key, from);
    assert(found.update(from, Some(value)) =~= found_at(fields, values, from + 1));
    lemma_record_round(fields, tape, map, found, offered_key, from, value, advanced(tape, 1));
}

/// The start of a child element is offered under its name and goes to the field of that
/// name, which reads its value from it.
proof fn lemma_round_element(
    fields: Seq<Field>,
    values: Seq<ValueView>,
    from: int,
    tape: Tape,
    overlapping: bool,
)
    requires
        values.len() == fields.len(),
        0 <= from < fields.len(),
        distinct_names(fields),
        attributes_first(fields),
        content_last(fields),
        fields_fit(fields, values, 0),
        is_element_key(fields[from].name@),
        present(fields[from], values[from]),
        starts_with(tape, children_doc(fields, values, from) + seq![EventView::EndElement]),
    ensures
        crate::de::record_values(
            fields,
            tape,
            front_access(fields, Seq::empty(), overlapping),
            found_at(fields, values, from),
        ) == crate::de::record_values(
            fields,
            advanced(tape, field_doc(fields[from], values[from]).len() as int),
            front_access(fields, Seq::empty(), overlapping),
            found_at(fields, values, from + 1),
        ),
    decreases fields, fields.len() - from, 0nat,
{
    let key = fields[from].name@;
    let shape = fields[from].shape;
    let value = values[from];
    let doc = field_doc(fields[from], value);
    let later = children_doc(fields, values, from + 1) + seq![EventView::EndElement];
    lemma_field_fits_at(fields, values, 0, from);
    lemma_field_doc_head(fields[from], value);
    assert(crate::de::field_names(fields)[from] == key);
    assert(children_doc(fields, values, from) + seq![EventView::EndElement] =~= doc + later);
    lemma_starts_split(tape, doc, later);
    assert(tape.slots[0] == Some(doc[0]));
    lemma_front(tape);
    let map = front_access(fields, Seq::empty(), overlapping);
    let found = found_at(fields, values, from);
    let offered_key = crate::de::map::KeyView::Element(key);
    assert(crate::de::map::next_key(map, tape).key == Ok::<
        Option<crate::de::map::KeyView>,
        XmlErrorView,
    >(Some(offered_key)));
    assert(crate::de::map::next_key(map, tape).map == map);
    crate::value::lemma_field_index_is(fields, key, from);
    assert forall|j: int| from + 1 <= j < fields.len() implies !is_attribute_key(
        fields[j].name@,
    ) by {
        if is_attribute_key(fields[j].name@) {
            assert(is_attribute_key(fields[from].name@));
        }
    }
    let rest = advanced(tape, doc.len() as int);
    assert(rest.slots[0] == Some(later[0]));
    assert(tape.slots[doc.len() as int] == rest.slots[0]);
    if overlapping {
        lemma_fields_fit_from(fields, values, 0, from + 1);
        assert forall|j: int| from + 1 <= j < fields.len() implies fields[j].name@ != key by {
            assert(fields[j].name@ != fields[from].name@);
        }
        assert(holds(rest, 0, later));
        lemma_children_passable(fields, values, from + 1, from, rest, 0);
    } else {
        lemma_head_is_other(fields, values, from + 1, from);
    }
    lemma_reads_slot(fields[from], value, tape, overlapping);
    lemma_measure_advanced(tape, doc.len() as int);
    assert(found.update(from, Some(value)) =~= found_at(fields, values, from + 1));
    lemma_record_round(fields, tape, map, found, offered_key, from, value, rest);
}

/// The unclaimed children are read back from their elements, up to the closing tag.
proof fn lemma_reads_choices(
    item: Shape,
    items: Seq<ValueView>,
    from: int,
    tape: Tape,
    overlapping: bool,
)
    requires
        0 <= from <= items.len(),
        item is Union,
        items_fit(item, items, from),
        starts_with(tape, choices_doc(item, items, from) + seq![EventView::EndElement]),
    ensures
        crate::de::items(
            item,
            tape,
            crate::de::seq::SeqAccessView { cursor: 0, overlapping, name: None, max: None },
        ) == (
            Ok::<Seq<ValueView>, XmlErrorView>(items.subrange(from, items.len() as int)),
            advanced(tape, choices_doc(item, items, from).len() as int),
        ),
    decreases item, items.len() - from + 1, 0nat,
{
    let seq = crate::de::seq::SeqAccessView { cursor: 0, overlapping, name: None, max: None };
    let doc = choices_doc(item, items, from);
    let closing = seq![EventView::EndElement];
    lemma_advanced(tape, 0, 0);
    if from < items.len() {
        let first = choice_doc(item, items[from]);
        let later = choices_doc(item, items, from + 1);
        assert(element_fits(item, items[from]));
        lemma_choice_doc_shape(item, items[from]);
        assert(doc + closing =~= first + (later + closing));
        lemma_starts_split(tape, first, later + closing);
        assert(tape.slots[0] == Some(first[0]));
        lemma_front(tape);
        let step = crate::de::seq::next_member(seq, tape);
        assert(step.member == Ok::<Option<ChildView>, XmlErrorView>(
            Some(front_child(None, overlapping)),
        ));
        assert(step.tape == tape);
        assert(step.seq == seq);
        let rest = advanced(tape, first.len() as int);
        match item {
            Shape::Union(_, variants) => {
                let index = items[from]->Variant_0;
                let payload = items[from]->Variant_1;
                lemma_reads_variant(variants@, index, payload, tape, overlapping);
                assert(child_value(item, tape, front_child(None, overlapping)) == (
                    Ok::<ValueView, XmlErrorView>(items[from]),
                    rest,
                ));
            },
            _ => {},
        }
        lemma_measure_advanced(tape, first.len() as int);
        lemma_advanced(tape, first.len() as int, later.len() as int);
        lemma_reads_choices(item, items, from + 1, rest, overlapping);
        assert(seq![items[from]] + items.subrange(from + 1, items.len() as int)
            =~= items.subrange(from, items.len() as int));
    } else {
        assert(doc =~= Seq::<EventView>::empty());
        assert(tape.slots[0] == Some((doc + closing)[0]));
        lemma_front(tape);
        assert(items.subrange(from, items.len() as int) =~= Seq::<ValueView>::empty());
    }
}

/// The value of the field for the unclaimed children is read back from what the field has
/// put between the tags of the record.
proof fn lemma_reads_content(field: Field, value: ValueView, tape: Tape, overlapping: bool)
    requires
        field.name@ == "#content"@,
        field_fits(field, value),
        starts_with(tape, field_doc(field, value) + seq![EventView::EndElement]),
    ensures
        child_value(field.shape, tape, front_child(None, overlapping)) == (
            Ok::<ValueView, XmlErrorView>(value),
            advanced(tape, field_doc(field, value).len() as int),
        ),
    decreases field, 0nat, 0nat,
{
    lemma_content_key();
    match field.shape {
        Shape::Sequence(item) => {
            let items = value->Sequence_0;
            lemma_reads_choices(*item, items, 0, tape, overlapping);
            assert(items.subrange(0, items.len() as int) =~= items);
        },
        _ => {},
    }
}

/// The start of a child element that no field claims is offered as the unclaimed children,
/// and the field for them reads all that is left.
proof fn lemma_round_content(
    fields: Seq<Field>,
    values: Seq<ValueView>,
    from: int,
    tape: Tape,
    overlapping: bool,
)
    requires
        values.len() == fields.len(),
        from == fields.len() - 1,
        0 <= from,
        distinct_names(fields),
        content_last(fields),
        fields_fit(fields, values, 0),
        fields[from].name@ == "#content"@,
        present(fields[from], values[from]),
        starts_with(tape, field_doc(fields[from], values[from]) + seq![EventView::EndElement]),
    ensures
        crate::de::record_values(
            fields,
            tape,
            front_access(fields, Seq::empty(), overlapping),
            found_at(fields, values, from),
        ) == (
            Ok::<Seq<ValueView>, XmlErrorView>(values),
            advanced(tape, field_doc(fields[from], values[from]).len() as int),
        ),
    decreases fields, fields.len() - from, 0nat,
{
    lemma_content_key();
    let key = fields[from].name@;
    let value = values[from];
    let doc = field_doc(fields[from], value);
    let closing = seq![EventView::EndElement];
    lemma_field_fits_at(fields, values, 0, from);
    let item = *fields[from].shape->Sequence_0;
    let items = value->Sequence_0;
    assert(items.len() > 0);
    assert(element_fits(item, items[0]));
    lemma_choice_doc_shape(item, items[0]);
    let variant = item->Union_1@[items[0]->Variant_0];
    assert(doc[0] == choice_doc(item, items[0])[0]);
    assert(tape.slots[0] == Some((doc + closing)[0]));
    let element = doc[0]->StartElement_0;
    assert(element.qname() == variant.name@) by {
        assert(element.prefix is None && element.name == variant.name@);
    }
    lemma_front(tape);
    let map = front_access(fields, Seq::empty(), overlapping);
    let found = found_at(fields, values, from);
    assert(crate::de::field_names(fields)[from] == key);
    assert(map.content);
    assert forall|j: int| 0 <= j < fields.len() implies crate::de::field_names(fields)[j]
        != variant.name@ by {
        assert(variant.name@ != fields[j].name@);
    }
    assert(map.is_content(variant.name@));
    let offered_key = crate::de::map::KeyView::Content;
    let offered = crate::de::map::next_key(map, tape);
    assert(offered.key == Ok::<Option<crate::de::map::KeyView>, XmlErrorView>(Some(offered_key)));
    assert(offered.tape == tape);
    crate::value::lemma_field_index_is(fields, key, from);
    let step = crate::de::map::value_for(offered.map, offered.tape, offered_key);
    lemma_starts_split(tape, doc, closing);
    lemma_reads_content(fields[from], value, tape, overlapping);
    let rest = advanced(tape, doc.len() as int);
    lemma_measure_advanced(tape, doc.len() as int);
    assert(found.update(from, Some(value)) =~= found_at(fields, values, fields.len() as int));
    lemma_record_round(fields, tape, map, found, offered_key, from, value, rest);
    assert(rest.slots[0] == Some(closing[0]));
    lemma_front(rest);
    assert(crate::de::map::next_key(step.map, rest).key == Ok::<
        Option<crate::de::map::KeyView>,
        XmlErrorView,
    >(None));
    lemma_completed_found(fields, values, 0);
    assert(values.subrange(0, fields.len() as int) =~= values);
}

/// The values of the fields of a record are read back from the attributes of its opening
/// tag and from what stands between its tags.
pub proof fn lemma_reads_fields(
    fields: Seq<Field>,
    values: Seq<ValueView>,
    from: int,
    tape: Tape,
    overlapping: bool,
)
    requires
        values.len() == fields.len(),
        0 <= from <= fields.len(),
        distinct_names(fields),
        attributes_first(fields),
        content_last(fields),
        fields_fit(fields, values, 0),
        starts_with(tape, children_doc(fields, values, from) + seq![EventView::EndElement]),
    ensures
        crate::de::record_values(
            fields,
            tape,
            front_access(fields, attributes_doc(fields, values, from), overlapping),
            found_at(fields, values, from),
        ) == (
            Ok::<Seq<ValueView>, XmlErrorView>(values),
            advanced(tape, children_doc(fields, values, from).len() as int),
        ),
    decreases fields, fields.len() - from, 1nat,
{
    let children = children_doc(fields, values, from);
    let closing = seq![EventView::EndElement];
    lemma_advanced(tape, 0, 0);
    if from < fields.len() {
        let key = fields[from].name@;
        let value = values[from];
        let doc = field_doc(fields[from], value);
        let later = children_doc(fields, values, from + 1);
        lemma_field_fits_at(fields, values, 0, from);
        assert(children == doc + later);
        assert(children + closing =~= doc + (later + closing));
        lemma_starts_split(tape, doc, later + closing);
        if !present(fields[from], value) {
            assert(found_at(fields, values, from) =~= found_at(fields, values, from + 1));
            assert(attributes_doc(fields, values, from) == attributes_doc(
                fields,
                values,
                from + 1,
            ));
            assert(children =~= later);
            lemma_reads_fields(fields, values, from + 1, tape, overlapping);
        } else if is_attribute_key(key) {
            assert(doc =~= Seq::<EventView>::empty());
            assert(children =~= later);
            lemma_round_attribute(fields, values, from, tape, overlapping);
            lemma_reads_fields(fields, values, from + 1, tape, overlapping);
        } else {
            assert forall|j: int| from <= j < fields.len() implies !is_attribute_key(
                fields[j].name@,
            ) by {
                if from < j && is_attribute_key(fields[j].name@) {
                    assert(is_attribute_key(fields[from].name@));
                }
            }
            lemma_no_attributes(fields, values, from);
            lemma_no_attributes(fields, values, from + 1);
            let rest = advanced(tape, doc.len() as int);
            if key == "#content"@ {
                assert(from == fields.len() - 1);
                assert(later =~= Seq::<EventView>::empty());
                assert(children =~= doc);
                lemma_round_content(fields, values, from, tape, overlapping);
            } else {
                if key == "#text"@ {
                    lemma_round_text(fields, values, from, tape, overlapping);
                } else {
                    assert(crate::de::field_names(fields)[from] == key);
                    lemma_round_element(fields, values, from, tape, overlapping);
                }
                lemma_reads_fields(fields, values, from + 1, rest, overlapping);
                lemma_advanced(tape, doc.len() as int, later.len() as int);
            }
        }
    } else {
        assert(children =~= Seq::<EventView>::empty());
        assert(attributes_doc(fields, values, from) =~= Seq::<AttributeView>::empty());
        assert(tape.slots[0] == Some((children + closing)[0]));
        lemma_front(tape);
        lemma_completed_found(fields, values, 0);
        assert(values.subrange(0, fields.len() as int) =~= values);
    }
}

/// A record is read back from its element.
proof fn lemma_reads_record(
    fields: Seq<Field>,
    values: Seq<ValueView>,
    name: Seq<char>,
    tape: Tape,
    overlapping: bool,
)
    requires
        record_fits(fields, values),
        starts_with(tape, record_doc(fields, values, name)),
    ensures
        tape.started(0) == Ok::<ElementView, XmlErrorView>(
            ElementView { prefix: None, name, attributes: attributes_doc(fields, values, 0) },
        ),
        tape.landing(0) == 0,
        tape.after_next(0) == advanced(tape, 1),
        crate::de::record_values(
            fields,
            advanced(tape, 1),
            front_access(fields, attributes_doc(fields, values, 0), overlapping),
            Seq::new(fields.len(), |i: int| None),
        ) == (
            Ok::<Seq<ValueView>, XmlErrorView>(values),
            advanced(tape, 1 + children_doc(fields, values, 0).len() as int),
        ),
        advanced(tape, 1 + children_doc(fields, values, 0).len() as int).ended(0) == Ok::<
            (),
            XmlErrorView,
        >(()),
        advanced(tape, 1 + children_doc(fields, values, 0).len() as int).landing(0) == 0,
        advanced(tape, 1 + children_doc(fields, values, 0).len() as int).after_next(0) == advanced(
            tape,
            record_doc(fields, values, name).len() as int,
        ),
    decreases fields, fields.len() + 1, 0nat,
{
    let doc = record_doc(fields, values, name);
    let opening = seq![start_of(name, attributes_doc(fields, values, 0))];
    let children = children_doc(fields, values, 0);
    let closing = seq![EventView::EndElement];
    assert(doc =~= opening + (children + closing));
    lemma_starts_split(tape, opening, children + closing);
    assert(tape.slots[0] == Some(opening[0]));
    lemma_front(tape);
    let inside = advanced(tape, 1);
    assert(Seq::new(fields.len(), |i: int| None::<ValueView>) =~= found_at(fields, values, 0));
    lemma_reads_fields(fields, values, 0, inside, overlapping);
    lemma_advanced(tape, 1, children.len() as int);
    let behind = advanced(tape, 1 + children.len() as int);
    lemma_starts_split(inside, children, closing);
    assert(behind.slots[0] == Some(closing[0]));
    lemma_front(behind);
    lemma_advanced(tape, 1 + children.len() as int, 1);
}

/// A variant is read back from its element.
proof fn lemma_reads_variant(
    variants: Seq<Variant>,
    at: int,
    payload: Seq<ValueView>,
    tape: Tape,
    overlapping: bool,
)
    requires
        0 <= at < variants.len(),
        variant_index(variants, variants[at].name@) == Some(at),
        variant_fits(variants[at], payload),
        starts_with(tape, variant_doc(variants[at], payload)),
    ensures
        crate::de::variant_value(variants, tape, 0, overlapping) == (
            Ok::<ValueView, XmlErrorView>(ValueView::Variant(at, payload)),
            advanced(tape, variant_doc(variants[at], payload).len() as int),
        ),
    decreases variants, 0nat, 0nat,
{
    let variant = variants[at];
    let doc = variant_doc(variant, payload);
    match variant.payload {
        Payload::Unit => {
            assert(tape.slots[0] == Some(doc[0]));
            assert(tape.slots[1] == Some(doc[1]));
            lemma_front(tape);
            let inside = advanced(tape, 1);
            assert(inside.slots[0] == tape.slots[1]);
            lemma_front(inside);
            lemma_advanced(tape, 1, 1);
            assert(payload =~= Seq::<ValueView>::empty());
        },
        Payload::Newtype(inner) => {
            lemma_element_doc_shape(inner, payload[0], variant.name@);
            assert(tape.slots[0] == Some(doc[0]));
            lemma_front(tape);
            lemma_reads_element(
                inner,
                payload[0],
                Some(variant.name@),
                variant.name@,
                tape,
                overlapping,
            );
            assert(payload =~= seq![payload[0]]);
        },
        Payload::Record(fields) => {
            assert(tape.slots[0] == Some(doc[0]));
            lemma_front(tape);
            lemma_reads_record(fields@, payload, variant.name@, tape, overlapping);
        },
        Payload::Tuple(members) => {
            lemma_members_read(members@, payload, 0);
            assert(payload.subrange(0, payload.len() as int) =~= payload);
            assert(tape.slots[0] == Some(doc[0]));
            assert(tape.slots[1] == Some(doc[1]));
            assert(tape.slots[2] == Some(doc[2]));
            lemma_front(tape);
            let inside = advanced(tape, 1);
            assert(inside.slots[0] == tape.slots[1]);
            lemma_front(inside);
            let filled = advanced(inside, 1);
            assert(filled.slots[0] == tape.slots[2]);
            lemma_front(filled);
            lemma_advanced(tape, 1, 1);
            lemma_advanced(tape, 2, 1);
        },
    }
}

/// A value that fits as an element is read back from its element.
pub proof fn lemma_reads_element(
    shape: Shape,
    value: ValueView,
    name: Option<Seq<char>>,
    element: Seq<char>,
    tape: Tape,
    overlapping: bool,
)
    requires
        element_fits(shape, value),
        name is Some || shape is Record,
        starts_with(tape, element_doc(shape, value, element)),
    ensures
        child_value(shape, tape, front_child(name, overlapping)) == (
            Ok::<ValueView, XmlErrorView>(value),
            advanced(tape, element_doc(shape, value, element).len() as int),
        ),
    decreases shape, 0nat, 0nat,
{
    match shape {
        Shape::Newtype(_, inner) => {
            lemma_reads_element(*inner, value, name, element, tape, overlapping);
        },
        Shape::Dictionary(held) => {
            let pairs = value->Dictionary_0;
            let doc = element_doc(shape, value, element);
            let opening = seq![start_of(element, Seq::empty())];
            let inner = entries_doc(*held, pairs, 0);
            let closing = seq![EventView::EndElement];
            assert(doc =~= opening + (inner + closing));
            lemma_starts_split(tape, opening, inner + closing);
            assert(tape.slots[0] == Some(opening[0]));
            lemma_front(tape);
            let inside = advanced(tape, 1);
            lemma_reads_entries(*held, pairs, 0, inside, overlapping);
            assert(pairs.subrange(0, pairs.len() as int) =~= pairs);
            lemma_starts_split(inside, inner, closing);
            lemma_advanced(tape, 1, inner.len() as int);
            let behind = advanced(tape, 1 + inner.len() as int);
            assert(behind.slots[0] == Some(closing[0]));
            lemma_front(behind);
            lemma_advanced(tape, 1 + inner.len() as int, 1);
        },
        Shape::Record(_, fields) => {
            lemma_reads_record(fields@, value->Record_0, element, tape, overlapping);
        },
        Shape::Union(_, variants) => {
            let at = value->Variant_0;
            let payload = value->Variant_1;
            let doc = element_doc(shape, value, element);
            let opening = seq![start_of(element, Seq::empty())];
            let inner = variant_doc(variants@[at], payload);
            let closing = seq![EventView::EndElement];
            assert(doc =~= opening + (inner + closing));
            lemma_starts_split(tape, opening, inner + closing);
            assert(tape.slots[0] == Some(opening[0]));
            lemma_front(tape);
            let inside = advanced(tape, 1);
            lemma_starts_split(inside, inner, closing);
            lemma_reads_variant(variants@, at, payload, inside, overlapping);
            lemma_advanced(tape, 1, inner.len() as int);
            let behind = advanced(tape, 1 + inner.len() as int);
            assert(behind.slots[0] == Some(closing[0]));
            lemma_front(behind);
            lemma_advanced(tape, 1 + inner.len() as int, 1);
        },
        Shape::Unit => {
            lemma_reads_unit(element, name->0, tape, overlapping);
        },
        _ => {
            lemma_reads_leaf(shape, value, element, name->0, tape, overlapping);
        },
    }
}

/// Whether the tape holds the events of `doc` in the slots from `at` on, none of them
/// consumed.
pub open spec fn holds(tape: Tape, at: int, doc: Seq<EventView>) -> bool {
    &&& 0 <= at
    &&& at + doc.len() <= tape.slots.len()
    &&& forall|i: int| 0 <= i < doc.len() ==> tape.slots[at + i] == Some(#[trigger] doc[i])
}

proof fn lemma_holds_split(tape: Tape, at: int, first: Seq<EventView>, second: Seq<EventView>)
    requires
        holds(tape, at, first + second),
    ensures
        holds(tape, at, first),
        holds(tape, at + first.len(), second),
{
    assert forall|i: int| 0 <= i < first.len() implies tape.slots[at + i] == Some(
        #[trigger] first[i],
    ) by {
        assert((first + second)[i] == first[i]);
    }
    assert forall|i: int| 0 <= i < second.len() implies tape.slots[at + first.len() + i] == Some(
        #[trigger] second[i],
    ) by {
        assert((first + second)[first.len() + i] == second[i]);
    }
}

/// Whether a walk over the tape passes the slots from `at` up to `end` as if they were not
/// there, however many elements are open, and a walk that begins behind the first of them,
/// inside one element, ends behind the last: the slots hold one whole element.
pub open spec fn is_element_at(tape: Tape, at: int, end: int) -> bool {
    &&& at < end <= tape.slots.len()
    &&& forall|depth: int| depth >= 1 ==> #[trigger] tape.crossing(at, depth) == tape.crossing(
        end,
        depth,
    )
    &&& tape.crossing(at + 1, 1) == (Ok::<int, XmlErrorView>(end), tape)
}

/// Whether a walk over the tape passes the slots from `at` up to `end` as if they were not
/// there, however many elements are open.
pub open spec fn is_passed(tape: Tape, at: int, end: int) -> bool {
    &&& at <= end <= tape.slots.len()
    &&& forall|depth: int| depth >= 1 ==> #[trigger] tape.crossing(at, depth) == tape.crossing(
        end,
        depth,
    )
}

/// An opening tag, what a walk passes, and a closing tag are one whole element.
proof fn lemma_wrapped(tape: Tape, at: int, end: int)
    requires
        0 <= at,
        at + 2 <= end <= tape.slots.len(),
        tape.slots[at] matches Some(EventView::StartElement(_)),
        is_passed(tape, at + 1, end - 1),
        tape.slots[end - 1] == Some(EventView::EndElement),
    ensures
        is_element_at(tape, at, end),
{
    assert forall|depth: int| depth >= 1 implies #[trigger] tape.crossing(at, depth)
        == tape.crossing(end, depth) by {
        assert(tape.crossing(at, depth) == tape.crossing(at + 1, depth + 1));
        assert(tape.crossing(at + 1, depth + 1) == tape.crossing(end - 1, depth + 1));
        assert(tape.crossing(end - 1, depth + 1) == tape.crossing(end, depth));
    }
    assert(tape.crossing(at + 1, 1) == tape.crossing(end - 1, 1));
}

/// A walk passes character data as if it were not there.
proof fn lemma_text_passed(tape: Tape, at: int)
    requires
        0 <= at < tape.slots.len(),
        tape.slots[at] matches Some(EventView::Text(_)),
    ensures
        is_passed(tape, at, at + 1),
{
    assert forall|depth: int| depth >= 1 implies #[trigger] tape.crossing(at, depth)
        == tape.crossing(at + 1, depth) by {}
}

proof fn lemma_passed_twice(tape: Tape, at: int, middle: int, end: int)
    requires
        is_passed(tape, at, middle),
        is_passed(tape, middle, end),
    ensures
        is_passed(tape, at, end),
{
    assert forall|depth: int| depth >= 1 implies #[trigger] tape.crossing(at, depth)
        == tape.crossing(end, depth) by {
        assert(tape.crossing(at, depth) == tape.crossing(middle, depth));
        assert(tape.crossing(middle, depth) == tape.crossing(end, depth));
    }
}

proof fn lemma_nothing_passed(tape: Tape, at: int)
    requires
        0 <= at <= tape.slots.len(),
    ensures
        is_passed(tape, at, at),
{
}

/// The events of an element that fits are one whole element wherever they stand.
pub proof fn lemma_element_is_whole(
    shape: Shape,
    value: ValueView,
    name: Seq<char>,
    tape: Tape,
    at: int,
)
    requires
        element_fits(shape, value),
        holds(tape, at, element_doc(shape, value, name)),
    ensures
        is_element_at(tape, at, at + element_doc(shape, value, name).len()),
    decreases shape, 0nat, 0nat,
{
    let doc = element_doc(shape, value, name);
    lemma_element_doc_shape(shape, value, name);
    let end = at + doc.len();
    assert(tape.slots[at] == Some(doc[0]));
    match shape {
        Shape::Newtype(_, inner) => {
            lemma_element_is_whole(*inner, value, name, tape, at);
        },
        Shape::Record(_, fields) => {
            lemma_record_is_whole(fields@, value->Record_0, name, tape, at);
        },
        Shape::Dictionary(held) => {
            let pairs = value->Dictionary_0;
            let opening = seq![start_of(name, Seq::empty())];
            let inner = entries_doc(*held, pairs, 0);
            let closing = seq![EventView::EndElement];
            assert(doc =~= opening + (inner + closing));
            lemma_holds_split(tape, at, opening, inner + closing);
            lemma_holds_split(tape, at + 1, inner, closing);
            lemma_entries_are_passed(*held, pairs, 0, tape, at + 1);
            assert(tape.slots[at + 1 + inner.len() + 0] == Some(closing[0]));
            lemma_wrapped(tape, at, end);
        },
        Shape::Union(_, variants) => {
            let index = value->Variant_0;
            let payload = value->Variant_1;
            let opening = seq![start_of(name, Seq::empty())];
            let inner = variant_doc(variants@[index], payload);
            let closing = seq![EventView::EndElement];
            assert(doc =~= opening + (inner + closing));
            lemma_holds_split(tape, at, opening, inner + closing);
            lemma_holds_split(tape, at + 1, inner, closing);
            lemma_variant_is_whole(variants@[index], payload, tape, at + 1);
            assert(is_passed(tape, at + 1, at + 1 + inner.len()));
            assert(tape.slots[at + 1 + inner.len() + 0] == Some(closing[0]));
            lemma_wrapped(tape, at, end);
        },
        Shape::Unit => {
            assert(tape.slots[at + 1] == Some(doc[1]));
            lemma_nothing_passed(tape, at + 1);
            lemma_wrapped(tape, at, end);
        },
        _ => {
            assert(tape.slots[at + 1] == Some(doc[1]));
            assert(tape.slots[at + 2] == Some(doc[2]));
            lemma_text_passed(tape, at + 1);
            lemma_wrapped(tape, at, end);
        },
    }
}

/// The events of a variant that fits are one whole element wherever they stand.
proof fn lemma_variant_is_whole(variant: Variant, payload: Seq<ValueView>, tape: Tape, at: int)
    requires
        variant_fits(variant, payload),
        holds(tape, at, variant_doc(variant, payload)),
    ensures
        is_element_at(tape, at, at + variant_doc(variant, payload).len()),
    decreases variant, 0nat, 0nat,
{
    let doc = variant_doc(variant, payload);
    let end = at + doc.len();
    match variant.payload {
        Payload::Unit => {
            assert(tape.slots[at + 0] == Some(doc[0]));
            assert(tape.slots[at + 1] == Some(doc[1]));
            lemma_nothing_passed(tape, at + 1);
            lemma_wrapped(tape, at, end);
        },
        Payload::Newtype(inner) => {
            lemma_element_is_whole(inner, payload[0], variant.name@, tape, at);
        },
        Payload::Record(fields) => {
            lemma_record_is_whole(fields@, payload, variant.name@, tape, at);
        },
        Payload::Tuple(_) => {
            assert(tape.slots[at + 0] == Some(doc[0]));
            assert(tape.slots[at + 1] == Some(doc[1]));
            assert(tape.slots[at + 2] == Some(doc[2]));
            lemma_text_passed(tape, at + 1);
            lemma_wrapped(tape, at, end);
        },
    }
}

/// The events of a record that fits are one whole element wherever they stand.
proof fn lemma_record_is_whole(
    fields: Seq<Field>,
    values: Seq<ValueView>,
    name: Seq<char>,
    tape: Tape,
    at: int,
)
    requires
        record_fits(fields, values),
        holds(tape, at, record_doc(fields, values, name)),
    ensures
        is_element_at(tape, at, at + record_doc(fields, values, name).len()),
    decreases fields, fields.len() + 1, 0nat,
{
    let doc = record_doc(fields, values, name);
    let opening = seq![start_of(name, attributes_doc(fields, values, 0))];
    let inner = children_doc(fields, values, 0);
    let closing = seq![EventView::EndElement];
    assert(doc =~= opening + (inner + closing));
    lemma_holds_split(tape, at, opening, inner + closing);
    lemma_holds_split(tape, at + 1, inner, closing);
    assert(tape.slots[at + 0] == Some(opening[0]));
    lemma_children_are_passed(fields, values, 0, tape, at + 1);
    assert(tape.slots[at + 1 + inner.len() + 0] == Some(closing[0]));
    lemma_wrapped(tape, at, at + doc.len());
}

/// A walk passes what the fields of a record put between its tags.
proof fn lemma_children_are_passed(
    fields: Seq<Field>,
    values: Seq<ValueView>,
    from: int,
    tape: Tape,
    at: int,
)
    requires
        values.len() == fields.len(),
        0 <= from <= fields.len(),
        fields_fit(fields, values, from),
        holds(tape, at, children_doc(fields, values, from)),
    ensures
        is_passed(tape, at, at + children_doc(fields, values, from).len()),
    decreases fields, fields.len() - from, 1nat,
{
    if from < fields.len() {
        let first = field_doc(fields[from], values[from]);
        let later = children_doc(fields, values, from + 1);
        assert(field_fits(fields[from], values[from]) && fields_fit(fields, values, from + 1));
        assert(children_doc(fields, values, from) == first + later);
        lemma_holds_split(tape, at, first, later);
        lemma_field_is_passed(fields[from], values[from], tape, at);
        lemma_children_are_passed(fields, values, from + 1, tape, at + first.len());
        lemma_passed_twice(tape, at, at + first.len(), at + first.len() + later.len());
    } else {
        assert(children_doc(fields, values, from) =~= Seq::<EventView>::empty());
        lemma_nothing_passed(tape, at);
    }
}

/// A walk passes what a field puts between the tags of its record.
proof fn lemma_field_is_passed(field: Field, value: ValueView, tape: Tape, at: int)
    requires
        field_fits(field, value),
        holds(tape, at, field_doc(field, value)),
    ensures
        is_passed(tape, at, at + field_doc(field, value).len()),
    decreases field, 0nat, 0nat,
{
    let key = field.name@;
    let doc = field_doc(field, value);
    if is_attribute_key(key) {
        lemma_nothing_passed(tape, at);
    } else if key == "#text"@ {
        if doc.len() > 0 {
            assert(tape.slots[at + 0] == Some(doc[0]));
            lemma_text_passed(tape, at);
        } else {
            lemma_nothing_passed(tape, at);
        }
    } else if key == "#content"@ {
        match field.shape {
            Shape::Sequence(item) => {
                lemma_choices_are_passed(*item, value->Sequence_0, 0, tape, at);
            },
            _ => {},
        }
    } else {
        match field.shape {
            Shape::Optional(inner) => match value {
                ValueView::Present(held) => {
                    lemma_element_is_whole(*inner, *held, key, tape, at);
                },
                _ => {
                    lemma_nothing_passed(tape, at);
                },
            },
            Shape::Sequence(item) => {
                lemma_items_are_passed(*item, value->Sequence_0, 0, key, tape, at);
            },
            _ => {
                lemma_element_is_whole(field.shape, value, key, tape, at);
            },
        }
    }
}

/// A walk passes the elements of the members of a sequence.
proof fn lemma_items_are_passed(
    item: Shape,
    items: Seq<ValueView>,
    from: int,
    name: Seq<char>,
    tape: Tape,
    at: int,
)
    requires
        0 <= from <= items.len(),
        items_fit(item, items, from),
        holds(tape, at, items_doc(item, items, from, name)),
    ensures
        is_passed(tape, at, at + items_doc(item, items, from, name).len()),
    decreases item, items.len() - from + 1, 0nat,
{
    if from < items.len() {
        let first = element_doc(item, items[from], name);
        let later = items_doc(item, items, from + 1, name);
        lemma_holds_split(tape, at, first, later);
        lemma_element_is_whole(item, items[from], name, tape, at);
        lemma_items_are_passed(item, items, from + 1, name, tape, at + first.len());
        lemma_passed_twice(tape, at, at + first.len(), at + first.len() + later.len());
    } else {
        assert(items_doc(item, items, from, name) =~= Seq::<EventView>::empty());
        lemma_nothing_passed(tape, at);
    }
}

/// A walk passes the unclaimed children, each the element of its variant.
proof fn lemma_choices_are_passed(
    item: Shape,
    items: Seq<ValueView>,
    from: int,
    tape: Tape,
    at: int,
)
    requires
        0 <= from <= items.len(),
        item is Union,
        items_fit(item, items, from),
        holds(tape, at, choices_doc(item, items, from)),
    ensures
        is_passed(tape, at, at + choices_doc(item, items, from).len()),
    decreases item, items.len() - from + 1, 0nat,
{
    if from < items.len() {
        let first = choice_doc(item, items[from]);
        let later = choices_doc(item, items, from + 1);
        lemma_holds_split(tape, at, first, later);
        assert(element_fits(item, items[from]));
        match item {
            Shape::Union(_, variants) => {
                lemma_variant_is_whole(
                    variants@[items[from]->Variant_0],
                    items[from]->Variant_1,
                    tape,
                    at,
                );
            },
            _ => {},
        }
        lemma_choices_are_passed(item, items, from + 1, tape, at + first.len());
        lemma_passed_twice(tape, at, at + first.len(), at + first.len() + later.len());
    } else {
        assert(choices_doc(item, items, from) =~= Seq::<EventView>::empty());
        lemma_nothing_passed(tape, at);
    }
}

/// A walk passes the elements of the entries of a map.
proof fn lemma_entries_are_passed(
    held: Shape,
    pairs: Seq<(Seq<char>, ValueView)>,
    from: int,
    tape: Tape,
    at: int,
)
    requires
        0 <= from <= pairs.len(),
        entries_fit(held, pairs, from),
        holds(tape, at, entries_doc(held, pairs, from)),
    ensures
        is_passed(tape, at, at + entries_doc(held, pairs, from).len()),
    decreases held, pairs.len() - from + 1, 0nat,
{
    if from < pairs.len() {
        let first = element_doc(held, pairs[from].1, pairs[from].0);
        let later = entries_doc(held, pairs, from + 1);
        lemma_holds_split(tape, at, first, later);
        lemma_element_is_whole(held, pairs[from].1, pairs[from].0, tape, at);
        lemma_entries_are_passed(held, pairs, from + 1, tape, at + first.len());
        lemma_passed_twice(tape, at, at + first.len(), at + first.len() + later.len());
    } else {
        assert(entries_doc(held, pairs, from) =~= Seq::<EventView>::empty());
        lemma_nothing_passed(tape, at);
    }
}

/// Whether the value is one that a newtype can hold as the outermost element of a
/// document: a leaf, a unit, or an optional leaf.
pub open spec fn held_fits(shape: Shape, value: ValueView) -> bool {
    match shape {
        Shape::Unit => value is Unit,
        Shape::Optional(inner) => match value {
            ValueView::Absent => true,
            ValueView::Present(held) => leaf_fits(*inner, *held),
            _ => false,
        },
        _ => leaf_fits(shape, value),
    }
}

/// The events of the element of a newtype that is the outermost element of a document.
pub open spec fn held_doc(shape: Shape, value: ValueView, name: Seq<char>) -> Seq<EventView> {
    match shape {
        Shape::Optional(inner) => match value {
            ValueView::Present(held) => element_doc(*inner, *held, name),
            _ => seq![start_of(name, Seq::empty()), EventView::EndElement],
        },
        _ => element_doc(shape, value, name),
    }
}

/// Whether a value can be written as a document and read back: it is a record or a variant
/// of a union that fits as an element, a newtype that holds a leaf, a unit or an optional
/// leaf, or any of these as an optional value that is present.
pub open spec fn document_fits(shape: Shape, value: ValueView) -> bool
    decreases shape,
{
    match shape {
        Shape::Record(_, _) => element_fits(shape, value),
        Shape::Union(_, _) => element_fits(shape, value),
        Shape::Newtype(_, inner) => held_fits(*inner, value),
        Shape::Optional(inner) => value matches ValueView::Present(held) && document_fits(
            *inner,
            *held,
        ),
        _ => false,
    }
}

/// The events of the document of a value.
pub open spec fn document_doc(shape: Shape, value: ValueView) -> Seq<EventView>
    decreases shape,
{
    match shape {
        Shape::Record(name, _) => element_doc(shape, value, name@),
        Shape::Union(name, _) => element_doc(shape, value, name@),
        Shape::Newtype(name, inner) => held_doc(*inner, value, name@),
        Shape::Optional(inner) => match value {
            ValueView::Present(held) => document_doc(*inner, *held),
            _ => Seq::empty(),
        },
        _ => Seq::empty(),
    }
}

/// The tape of a document that has been written, with nothing read of it yet.
pub open spec fn written_tape(writer: WriterView, failure: Option<XmlErrorView>) -> Tape {
    Tape { slots: crate::de::buffer::unpulled(reads(writer)), failure, taken: 0 }
}

/// A leaf is read back from its text where the text stands without an element of its own.
proof fn lemma_reads_bare_leaf(shape: Shape, value: ValueView, tape: Tape, overlapping: bool)
    requires
        leaf_fits(shape, value),
        starts_with(tape, seq![EventView::Text(leaf_text(shape, value))]),
    ensures
        child_value(shape, tape, front_child(None, overlapping)) == (
            Ok::<ValueView, XmlErrorView>(value),
            advanced(tape, 1),
        ),
    decreases shape,
{
    let doc = seq![EventView::Text(leaf_text(shape, value))];
    assert(tape.slots[0] == Some(doc[0]));
    lemma_front(tape);
    lemma_front(advanced(tape, 0));
    lemma_advanced(tape, 0, 0);
    match shape {
        Shape::Newtype(_, inner) => {
            lemma_reads_bare_leaf(*inner, value, tape, overlapping);
        },
        _ => {
            lemma_leaf_reads_back(shape, value);
        },
    }
}

/// The value that a newtype holds as the outermost element of a document is written
/// without an error.
proof fn lemma_writes_held(shape: Shape, value: ValueView, writer: WriterView, name: Seq<char>)
    requires
        held_fits(shape, value),
    ensures
        ({
            let written = crate::ser::child_written(
                shape,
                value,
                writer,
                crate::ser::child::ChildSerializerView { name: Some(name), newtype: true },
            );
            &&& written.0 is Ok
            &&& reads(written.1) == reads(writer) + held_doc(shape, value, name)
        }),
{
    lemma_reads_steps(writer);
    assert(read_attributes(Seq::empty()) =~= Seq::<AttributeView>::empty());
    match shape {
        Shape::Optional(inner) => match value {
            ValueView::Present(held) => {
                lemma_leaf_is_element(*inner, *held);
                lemma_writes_element(*inner, *held, writer, Some(name), true);
            },
            _ => {
                let begun = writer.maybe_start(Some(name));
                assert(begun == writer.start(name, Seq::empty()));
                lemma_reads_steps(begun);
                assert(begun.maybe_end(Some(name)) == begun.end());
                assert(reads(begun.end()) =~= reads(writer) + held_doc(shape, value, name));
            },
        },
        Shape::Unit => {
            lemma_writes_element(shape, value, writer, Some(name), true);
        },
        _ => {
            lemma_leaf_is_element(shape, value);
            lemma_writes_element(shape, value, writer, Some(name), true);
        },
    }
}

/// A value whose closing tag stands at the front of the tape is read when that tag has
/// been consumed.
proof fn lemma_closing(value: ValueView, tape: Tape)
    requires
        tape.slots.len() > 0,
        tape.slots[0] == Some(EventView::EndElement),
        tape.taken < u64::MAX,
    ensures
        closing(value, tape, 0, true) == (Ok::<ValueView, XmlErrorView>(value), advanced(tape, 1)),
{
    lemma_front(tape);
}

/// The value that a newtype holds as the outermost element of a document is read back.
proof fn lemma_reads_held(
    shape: Shape,
    value: ValueView,
    name: Seq<char>,
    tape: Tape,
    overlapping: bool,
)
    requires
        held_fits(shape, value),
        starts_with(tape, held_doc(shape, value, name)),
    ensures
        ({
            let inside = advanced(tape, 1);
            let doc = held_doc(shape, value, name);
            &&& doc.len() >= 2
            &&& tape.started(0) is Ok
            &&& tape.landing(0) == 0
            &&& tape.after_next(0) == inside
            &&& child_value(shape, inside, front_child(None, overlapping)) == (
                Ok::<ValueView, XmlErrorView>(value),
                advanced(tape, doc.len() - 1),
            )
            &&& closing(value, advanced(tape, doc.len() - 1), 0, true) == (
                Ok::<ValueView, XmlErrorView>(value),
                advanced(tape, doc.len() as int),
            )
        }),
{
    let doc = held_doc(shape, value, name);
    match shape {
        Shape::Optional(inner) => match value {
            ValueView::Present(held) => {
                lemma_bare_text(*inner, *held, name, tape);
                let inside = advanced(tape, 1);
                assert(inside.slots[0] == Some(EventView::Text(leaf_text(*inner, *held))));
                lemma_front(inside);
                lemma_reads_bare_leaf(*inner, *held, inside, overlapping);
                lemma_advanced(tape, 1, 1);
                let behind = advanced(tape, 2);
                assert(behind.slots[0] == tape.slots[2]);
                lemma_closing(value, behind);
                lemma_advanced(tape, 2, 1);
            },
            _ => {
                assert(tape.slots[0] == Some(doc[0]));
                assert(tape.slots[1] == Some(doc[1]));
                lemma_front(tape);
                let inside = advanced(tape, 1);
                assert(inside.slots[0] == tape.slots[1]);
                lemma_front(inside);
                lemma_advanced(tape, 1, 1);
            },
        },
        Shape::Unit => {
            assert(tape.slots[0] == Some(doc[0]));
            assert(tape.slots[1] == Some(doc[1]));
            lemma_front(tape);
            let inside = advanced(tape, 1);
            assert(inside.slots[0] == tape.slots[1]);
            lemma_front(inside);
            lemma_advanced(tape, 1, 1);
        },
        _ => {
            lemma_bare_text(shape, value, name, tape);
            lemma_reads_bare_leaf(shape, value, advanced(tape, 1), overlapping);
            lemma_advanced(tape, 1, 1);
        },
    }
}

/// The element of a leaf is its opening tag, its text, and its closing tag.
proof fn lemma_bare_text(shape: Shape, value: ValueView, name: Seq<char>, tape: Tape)
    requires
        leaf_fits(shape, value),
        starts_with(tape, element_doc(shape, value, name)),
    ensures
        element_doc(shape, value, name) == seq![
            start_of(name, Seq::empty()),
            EventView::Text(leaf_text(shape, value)),
            EventView::EndElement,
        ],
        tape.started(0) is Ok,
        tape.landing(0) == 0,
        tape.after_next(0) == advanced(tape, 1),
        starts_with(advanced(tape, 1), seq![EventView::Text(leaf_text(shape, value))]),
        closing(value, advanced(tape, 2), 0, true) == (
            Ok::<ValueView, XmlErrorView>(value),
            advanced(tape, 3),
        ),
    decreases shape,
{
    match shape {
        Shape::Newtype(_, inner) => {
            lemma_bare_text(*inner, value, name, tape);
        },
        _ => {},
    }
    let doc = element_doc(shape, value, name);
    assert(tape.slots[0] == Some(doc[0]));
    assert(tape.slots[1] == Some(doc[1]));
    assert(tape.slots[2] == Some(doc[2]));
    lemma_front(tape);
    let inside = advanced(tape, 1);
    assert(inside.slots[0] == tape.slots[1]);
    let behind = advanced(tape, 2);
    assert(behind.slots[0] == tape.slots[2]);
    lemma_front(behind);
    lemma_advanced(tape, 2, 1);
}

/// A value that fits is written as a document without an error, and the events that a
/// reader sees of the document are those of the value.
proof fn lemma_writes_document(shape: Shape, value: ValueView, writer: WriterView)
    requires
        document_fits(shape, value),
    ensures
        ({
            let written = crate::ser::root_written(shape, value, writer);
            &&& written.0 is Ok
            &&& reads(written.1) == reads(writer) + document_doc(shape, value)
        }),
    decreases shape,
{
    match shape {
        Shape::Record(_, _) => {
            lemma_writes_element(shape, value, writer, None, false);
        },
        Shape::Union(name, _) => {
            lemma_writes_element(shape, value, writer, Some(name@), false);
        },
        Shape::Newtype(name, inner) => {
            lemma_writes_held(*inner, value, writer, name@);
        },
        Shape::Optional(inner) => {
            lemma_writes_document(*inner, *value->Present_0, writer);
        },
        _ => {},
    }
}

/// A value that fits is read back from the events of its document.
proof fn lemma_reads_document(shape: Shape, value: ValueView, tape: Tape, overlapping: bool)
    requires
        document_fits(shape, value),
        starts_with(tape, document_doc(shape, value)),
    ensures
        crate::de::root_value(shape, tape, overlapping) == (
            Ok::<ValueView, XmlErrorView>(value),
            advanced(tape, document_doc(shape, value).len() as int),
        ),
    decreases shape,
{
    let doc = document_doc(shape, value);
    match shape {
        Shape::Record(name, _) => {
            lemma_reads_element(shape, value, None, name@, tape, overlapping);
        },
        Shape::Union(name, _) => {
            lemma_reads_element(shape, value, Some(name@), name@, tape, overlapping);
        },
        Shape::Newtype(name, inner) => {
            lemma_reads_held(*inner, value, name@, tape, overlapping);
        },
        Shape::Optional(inner) => {
            let held = *value->Present_0;
            lemma_document_head(*inner, held);
            assert(tape.slots[0] == Some(doc[0]));
            lemma_front(tape);
            lemma_reads_document(*inner, held, tape, overlapping);
        },
        _ => {},
    }
}

/// The document of a value that fits begins with the opening tag of its outermost element.
proof fn lemma_document_head(shape: Shape, value: ValueView)
    requires
        document_fits(shape, value),
    ensures
        document_doc(shape, value).len() >= 2,
        document_doc(shape, value)[0] is StartElement,
    decreases shape,
{
    match shape {
        Shape::Record(name, _) => {
            lemma_element_doc_shape(shape, value, name@);
        },
        Shape::Union(name, _) => {
            lemma_element_doc_shape(shape, value, name@);
        },
        Shape::Newtype(name, inner) => {
            match *inner {
                Shape::Optional(held) => match value {
                    ValueView::Present(v) => {
                        lemma_leaf_is_element(*held, *v);
                        lemma_element_doc_shape(*held, *v, name@);
                    },
                    _ => {},
                },
                Shape::Unit => {},
                _ => {
                    lemma_leaf_is_element(*inner, value);
                    lemma_element_doc_shape(*inner, value, name@);
                },
            }
        },
        Shape::Optional(inner) => {
            lemma_document_head(*inner, *value->Present_0);
        },
        _ => {},
    }
}

/// A leaf fits as an element.
proof fn lemma_leaf_is_element(shape: Shape, value: ValueView)
    requires
        leaf_fits(shape, value),
    ensures
        element_fits(shape, value),
    decreases shape,
{
    match shape {
        Shape::Newtype(_, inner) => {
            lemma_leaf_is_element(*inner, value);
        },
        _ => {},
    }
}

/// A value that fits is written as a document without an error, and a reader reads from
/// the events of that document the value that was written, and leaves none of them, whether
/// its sequences keep together or may overlap. The events are taken to reach the reader as
/// they were written: of each event the same tag, the same attributes and the same text.
/// What the emitter and the tokenizer make of them in between is theirs, and the namespaces
/// that the outermost element declares play no part.
pub proof fn law_round_trip(
    shape: Shape,
    value: ValueView,
    namespaces: Seq<(Seq<char>, Seq<char>)>,
    failure: Option<XmlErrorView>,
    overlapping: bool,
)
    requires
        document_fits(shape, value),
        document_doc(shape, value).len() < u64::MAX,
    ensures
        ({
            let written = crate::ser::root_written(shape, value, crate::ser::blank(namespaces));
            let read = crate::de::root_value(
                shape,
                written_tape(written.1, failure),
                overlapping,
            );
            &&& written.0 is Ok
            &&& reads(written.1) == document_doc(shape, value)
            &&& read.0 == Ok::<ValueView, XmlErrorView>(value)
            &&& read.1.slots.len() == 0
        }),
{
    let writer = crate::ser::blank(namespaces);
    let doc = document_doc(shape, value);
    lemma_writes_document(shape, value, writer);
    assert(reads(writer) + doc =~= doc);
    let written = crate::ser::root_written(shape, value, writer);
    let tape = written_tape(written.1, failure);
    assert(starts_with(tape, doc));
    lemma_reads_document(shape, value, tape, overlapping);
    assert(tape.slots.skip(doc.len() as int).len() == 0);
}

} // verus!
