use crate::text::text_eq;
use vstd::prelude::*;

verus! {

/// The kinds of integer that a document can hold.
#[derive(Clone, Copy, Debug, PartialEq, Eq, Structural)]
pub enum IntKind {
    I8,
    I16,
    I32,
    I64,
    U8,
    U16,
    U32,
    U64,
}

impl IntKind {
    pub open spec fn spec_min(self) -> int {
        match self {
            IntKind::I8 => -0x80,
            IntKind::I16 => -0x8000,
            IntKind::I32 => -0x8000_0000,
            IntKind::I64 => -0x8000_0000_0000_0000,
            _ => 0,
        }
    }

    pub open spec fn spec_max(self) -> int {
        match self {
            IntKind::I8 => 0x7f,
            IntKind::I16 => 0x7fff,
            IntKind::I32 => 0x7fff_ffff,
            IntKind::I64 => 0x7fff_ffff_ffff_ffff,
            IntKind::U8 => 0xff,
            IntKind::U16 => 0xffff,
            IntKind::U32 => 0xffff_ffff,
            IntKind::U64 => 0xffff_ffff_ffff_ffff,
        }
    }

    /// The least integer of this kind.
    pub fn min(self) -> (least: i128)
        ensures
            least == self.spec_min(),
    {
        match self {
            IntKind::I8 => -0x80,
            IntKind::I16 => -0x8000,
            IntKind::I32 => -0x8000_0000,
            IntKind::I64 => -0x8000_0000_0000_0000,
            _ => 0,
        }
    }

    /// The greatest integer of this kind.
    pub fn max(self) -> (greatest: i128)
        ensures
            greatest == self.spec_max(),
    {
        match self {
            IntKind::I8 => 0x7f,
            IntKind::I16 => 0x7fff,
            IntKind::I32 => 0x7fff_ffff,
            IntKind::I64 => 0x7fff_ffff_ffff_ffff,
            IntKind::U8 => 0xff,
            IntKind::U16 => 0xffff,
            IntKind::U32 => 0xffff_ffff,
            IntKind::U64 => 0xffff_ffff_ffff_ffff,
        }
    }
}

/// A field of a record: the key under which the document holds it, and the shape of its
/// value. A key that begins with `@` names an attribute, `#text` the character data of the
/// record's element, `#content` the children that no other field claims; any other key names
/// a child element.
#[derive(Debug, PartialEq, Eq)]
pub struct Field {
    pub name: String,
    pub shape: Shape,
}

/// What a variant of a tagged union carries.
#[derive(Debug, PartialEq, Eq)]
pub enum Payload {
    Unit,
    Newtype(Shape),
    Tuple(Vec<Shape>),
    Record(Vec<Field>),
}

/// One alternative of a tagged union.
#[derive(Debug, PartialEq, Eq)]
pub struct Variant {
    pub name: String,
    pub payload: Payload,
}

/// The shape of a value: what a reader is to look for in a document, and what a writer is
/// given to write.
#[derive(Debug, PartialEq, Eq)]
pub enum Shape {
    Bool,
    Integer(IntKind),
    Char,
    Text,
    Unit,
    Optional(Box<Shape>),
    Sequence(Box<Shape>),
    Tuple(Vec<Shape>),
    Dictionary(Box<Shape>),
    Newtype(String, Box<Shape>),
    Record(String, Vec<Field>),
    Union(String, Vec<Variant>),
}

/// A value of some shape. A record holds the values of its fields in the order of the
/// shape's fields; a variant is named by its place among the shape's variants.
#[derive(Debug, PartialEq, Eq)]
pub enum Value {
    Bool(bool),
    Integer(i128),
    Char(char),
    Text(String),
    Unit,
    Absent,
    Present(Box<Value>),
    Sequence(Vec<Value>),
    Dictionary(Vec<(String, Value)>),
    Record(Vec<Value>),
    Variant(usize, Vec<Value>),
}

pub enum ValueView {
    Bool(bool),
    Integer(int),
    Char(char),
    Text(Seq<char>),
    Unit,
    Absent,
    Present(Box<ValueView>),
    Sequence(Seq<ValueView>),
    Dictionary(Seq<(Seq<char>, ValueView)>),
    Record(Seq<ValueView>),
    Variant(int, Seq<ValueView>),
}

pub open spec fn value_view(value: Value) -> ValueView
    decreases value,
{
    match value {
        Value::Bool(b) => ValueView::Bool(b),
        Value::Integer(v) => ValueView::Integer(v as int),
        Value::Char(c) => ValueView::Char(c),
        Value::Text(text) => ValueView::Text(text@),
        Value::Unit => ValueView::Unit,
        Value::Absent => ValueView::Absent,
        Value::Present(inner) => ValueView::Present(Box::new(value_view(*inner))),
        Value::Sequence(items) => ValueView::Sequence(values_view(items@)),
        Value::Dictionary(entries) => ValueView::Dictionary(entries_view(entries@)),
        Value::Record(fields) => ValueView::Record(values_view(fields@)),
        Value::Variant(index, payload) => ValueView::Variant(index as int, values_view(payload@)),
    }
}

pub open spec fn values_view(values: Seq<Value>) -> Seq<ValueView>
    decreases values,
{
    if values.len() == 0 {
        Seq::empty()
    } else {
        values_view(values.drop_last()).push(value_view(values.last()))
    }
}

pub open spec fn entries_view(entries: Seq<(String, Value)>) -> Seq<(Seq<char>, ValueView)>
    decreases entries,
{
    if entries.len() == 0 {
        Seq::empty()
    } else {
        entries_view(entries.drop_last()).push((entries.last().0@, value_view(entries.last().1)))
    }
}

impl View for Value {
    type V = ValueView;

    open spec fn view(&self) -> ValueView {
        value_view(*self)
    }
}

pub proof fn lemma_values_view(values: Seq<Value>)
    ensures
        values_view(values).len() == values.len(),
        forall|i: int| 0 <= i < values.len() ==> (#[trigger] values_view(values)[i]) == values[i]@,
    decreases values.len(),
{
    if values.len() > 0 {
        lemma_values_view(values.drop_last());
        assert forall|i: int| 0 <= i < values.len() implies (#[trigger] values_view(values)[i])
            == values[i]@ by {
            if i < values.len() - 1 {
                assert(values.drop_last()[i] == values[i]);
            }
        }
    }
}

pub proof fn lemma_entries_view(entries: Seq<(String, Value)>)
    ensures
        entries_view(entries).len() == entries.len(),
        forall|i: int|
            0 <= i < entries.len() ==> (#[trigger] entries_view(entries)[i]) == (
                entries[i].0@,
                entries[i].1@,
            ),
    decreases entries.len(),
{
    if entries.len() > 0 {
        lemma_entries_view(entries.drop_last());
        assert forall|i: int| 0 <= i < entries.len() implies (#[trigger] entries_view(entries)[i])
            == (entries[i].0@, entries[i].1@) by {
            if i < entries.len() - 1 {
                assert(entries.drop_last()[i] == entries[i]);
            }
        }
    }
}

/// The place of the first field that is called `name`.
pub open spec fn field_index(fields: Seq<Field>, name: Seq<char>) -> Option<int>
    decreases fields.len(),
{
    if fields.len() == 0 {
        None
    } else if fields[0].name@ == name {
        Some(0)
    } else {
        match field_index(fields.skip(1), name) {
            Some(i) => Some(i + 1),
            None => None,
        }
    }
}

/// The place of the first variant that is called `name`.
pub open spec fn variant_index(variants: Seq<Variant>, name: Seq<char>) -> Option<int>
    decreases variants.len(),
{
    if variants.len() == 0 {
        None
    } else if variants[0].name@ == name {
        Some(0)
    } else {
        match variant_index(variants.skip(1), name) {
            Some(i) => Some(i + 1),
            None => None,
        }
    }
}

pub proof fn lemma_field_index(fields: Seq<Field>, name: Seq<char>)
    ensures
        match field_index(fields, name) {
            Some(i) => {
                &&& 0 <= i < fields.len()
                &&& fields[i].name@ == name
                &&& forall|j: int| 0 <= j < i ==> fields[j].name@ != name
            },
            None => forall|j: int| 0 <= j < fields.len() ==> fields[j].name@ != name,
        },
    decreases fields.len(),
{
    if fields.len() > 0 && fields[0].name@ != name {
        lemma_field_index(fields.skip(1), name);
        match field_index(fields.skip(1), name) {
            Some(i) => {
                assert forall|j: int| 0 <= j < i + 1 implies fields[j].name@ != name by {
                    if j > 0 {
                        assert(fields.skip(1)[j - 1] == fields[j]);
                    }
                }
            },
            None => {
                assert forall|j: int| 0 <= j < fields.len() implies fields[j].name@ != name by {
                    if j > 0 {
                        assert(fields.skip(1)[j - 1] == fields[j]);
                    }
                }
            },
        }
    }
}

pub proof fn lemma_field_index_is(fields: Seq<Field>, name: Seq<char>, at: int)
    requires
        0 <= at <= fields.len(),
        forall|j: int| 0 <= j < at ==> fields[j].name@ != name,
        at < fields.len() ==> fields[at].name@ == name,
    ensures
        field_index(fields, name) == if at < fields.len() {
            Some(at)
        } else {
            None
        },
    decreases fields.len(),
{
    if fields.len() > 0 && at > 0 {
        assert forall|j: int| 0 <= j < at - 1 implies fields.skip(1)[j].name@ != name by {
            assert(fields.skip(1)[j] == fields[j + 1]);
        }
        lemma_field_index_is(fields.skip(1), name, at - 1);
    }
}

pub proof fn lemma_variant_index(variants: Seq<Variant>, name: Seq<char>)
    ensures
        match variant_index(variants, name) {
            Some(i) => 0 <= i < variants.len() && variants[i].name@ == name,
            None => true,
        },
    decreases variants.len(),
{
    if variants.len() > 0 && variants[0].name@ != name {
        lemma_variant_index(variants.skip(1), name);
    }
}

pub proof fn lemma_variant_index_is(variants: Seq<Variant>, name: Seq<char>, at: int)
    requires
        0 <= at <= variants.len(),
        forall|j: int| 0 <= j < at ==> variants[j].name@ != name,
        at < variants.len() ==> variants[at].name@ == name,
    ensures
        variant_index(variants, name) == if at < variants.len() {
            Some(at)
        } else {
            None
        },
    decreases variants.len(),
{
    if variants.len() > 0 && at > 0 {
        assert forall|j: int| 0 <= j < at - 1 implies variants.skip(1)[j].name@ != name by {
            assert(variants.skip(1)[j] == variants[j + 1]);
        }
        lemma_variant_index_is(variants.skip(1), name, at - 1);
    }
}

/// Finds the first field that is called `name`.
pub fn find_field(fields: &Vec<Field>, name: &str) -> (found: Option<usize>)
    ensures
        match found {
            Some(i) => field_index(fields@, name@) == Some(i as int) && i < fields.len(),
            None => field_index(fields@, name@) is None,
        },
{
    let mut i: usize = 0;
    while i < fields.len()
        invariant
            i <= fields.len(),
            forall|j: int| 0 <= j < i ==> fields@[j].name@ != name@,
        decreases fields.len() - i,
    {
        if text_eq(fields[i].name.as_str(), name) {
            proof {
                lemma_field_index_is(fields@, name@, i as int);
            }
            return Some(i);
        }
        i = i + 1;
    }
    proof {
        lemma_field_index_is(fields@, name@, i as int);
    }
    None
}

/// Finds the first variant that is called `name`.
pub fn find_variant(variants: &Vec<Variant>, name: &str) -> (found: Option<usize>)
    ensures
        match found {
            Some(i) => variant_index(variants@, name@) == Some(i as int) && i < variants.len(),
            None => variant_index(variants@, name@) is None,
        },
{
    let mut i: usize = 0;
    while i < variants.len()
        invariant
            i <= variants.len(),
            forall|j: int| 0 <= j < i ==> variants@[j].name@ != name@,
        decreases variants.len() - i,
    {
        if text_eq(variants[i].name.as_str(), name) {
            proof {
                lemma_variant_index_is(variants@, name@, i as int);
            }
            return Some(i);
        }
        i = i + 1;
    }
    proof {
        lemma_variant_index_is(variants@, name@, i as int);
    }
    None
}

} // verus!
