use crate::de::source::{configure_parser, parser_settings};
use crate::de::{document_tape, root_value, Deserializer};
use crate::error::{outcome, XmlError};
use crate::ser::writer::{
    configure_emitter, emit_events, emitter_settings, events_view, WriteEvent,
};
use crate::ser::{blank, document_text, done, root_written, text_of_bytes, Serializer};
use crate::text::{
    comes_before, lemma_order_irreflexive, lemma_order_total, lemma_order_transitive, text_before,
    text_eq,
};
use crate::value::{Shape, Value};
use vstd::prelude::*;

verus! {

/// The key under which a record receives the character data of its element.
pub const TEXT: &'static str = "#text";

/// The key under which a record receives the children that no other field claims.
pub const CONTENT: &'static str = "#content";

/// The name that is bound to `prefix` by the first entry for it.
pub open spec fn bound(entries: Seq<(String, String)>, prefix: Seq<char>) -> Option<Seq<char>>
    decreases entries.len(),
{
    if entries.len() == 0 {
        None
    } else if entries[0].0@ == prefix {
        Some(entries[0].1@)
    } else {
        bound(entries.skip(1), prefix)
    }
}

proof fn lemma_bound_unmatched(entries: Seq<(String, String)>, prefix: Seq<char>)
    requires
        forall|j: int| 0 <= j < entries.len() ==> entries[j].0@ != prefix,
    ensures
        bound(entries, prefix) is None,
    decreases entries.len(),
{
    if entries.len() > 0 {
        assert forall|j: int| 0 <= j < entries.len() - 1 implies entries.skip(1)[j].0@
            != prefix by {
            assert(entries.skip(1)[j] == entries[j + 1]);
        }
        lemma_bound_unmatched(entries.skip(1), prefix);
    }
}

proof fn lemma_bound_at(entries: Seq<(String, String)>, prefix: Seq<char>, at: int)
    requires
        0 <= at < entries.len(),
        forall|j: int| 0 <= j < at ==> entries[j].0@ != prefix,
        entries[at].0@ == prefix,
    ensures
        bound(entries, prefix) == Some(entries[at].1@),
    decreases entries.len(),
{
    if at > 0 {
        assert forall|j: int| 0 <= j < at - 1 implies entries.skip(1)[j].0@ != prefix by {
            assert(entries.skip(1)[j] == entries[j + 1]);
        }
        assert(entries.skip(1)[at - 1] == entries[at]);
        lemma_bound_at(entries.skip(1), prefix, at - 1);
    }
}

/// Replacing the entry at `at`, which is the first for its prefix, binds that prefix anew
/// and no other.
proof fn lemma_bound_replaced(
    entries: Seq<(String, String)>,
    at: int,
    entry: (String, String),
    prefix: Seq<char>,
)
    requires
        0 <= at < entries.len(),
        forall|j: int| 0 <= j < at ==> entries[j].0@ != entry.0@,
        entries[at].0@ == entry.0@,
    ensures
        bound(entries.update(at, entry), prefix) == if prefix == entry.0@ {
            Some(entry.1@)
        } else {
            bound(entries, prefix)
        },
    decreases entries.len(),
{
    let changed = entries.update(at, entry);
    if at == 0 {
        assert(changed.skip(1) =~= entries.skip(1));
    } else {
        assert forall|j: int| 0 <= j < at - 1 implies entries.skip(1)[j].0@ != entry.0@ by {
            assert(entries.skip(1)[j] == entries[j + 1]);
        }
        assert(entries.skip(1)[at - 1] == entries[at]);
        lemma_bound_replaced(entries.skip(1), at - 1, entry, prefix);
        assert(changed.skip(1) =~= entries.skip(1).update(at - 1, entry));
        assert(changed[0] == entries[0]);
    }
}

proof fn lemma_bound_same(a: Seq<(String, String)>, b: Seq<(String, String)>, prefix: Seq<char>)
    requires
        a.len() == b.len(),
        forall|j: int| 0 <= j < a.len() ==> a[j].0@ == b[j].0@ && a[j].1@ == b[j].1@,
    ensures
        bound(a, prefix) == bound(b, prefix),
    decreases a.len(),
{
    if a.len() > 0 {
        assert forall|j: int| 0 <= j < a.len() - 1 implies a.skip(1)[j].0@ == b.skip(1)[j].0@
            && a.skip(1)[j].1@ == b.skip(1)[j].1@ by {
            assert(a.skip(1)[j] == a[j + 1]);
            assert(b.skip(1)[j] == b[j + 1]);
        }
        lemma_bound_same(a.skip(1), b.skip(1), prefix);
    }
}

/// The entries with `prefix` bound to `name`, where the entries stand in the order of their
/// prefixes: in the place of the entry for that prefix, or, if there is none, before the
/// first entry whose prefix comes behind it.
pub open spec fn rebound(
    entries: Seq<(Seq<char>, Seq<char>)>,
    prefix: Seq<char>,
    name: Seq<char>,
) -> Seq<(Seq<char>, Seq<char>)>
    decreases entries.len(),
{
    if entries.len() == 0 {
        seq![(prefix, name)]
    } else if entries[0].0 == prefix {
        seq![(prefix, name)] + entries.skip(1)
    } else if comes_before(prefix, entries[0].0) {
        seq![(prefix, name)] + entries
    } else {
        seq![entries[0]] + rebound(entries.skip(1), prefix, name)
    }
}

proof fn lemma_rebound(
    entries: Seq<(Seq<char>, Seq<char>)>,
    at: int,
    prefix: Seq<char>,
    name: Seq<char>,
)
    requires
        0 <= at <= entries.len(),
        forall|j: int| 0 <= j < at ==> comes_before(entries[j].0, prefix),
        at < entries.len() ==> !comes_before(entries[at].0, prefix),
    ensures
        rebound(entries, prefix, name) == if at < entries.len() && entries[at].0 == prefix {
            entries.update(at, (prefix, name))
        } else {
            entries.insert(at, (prefix, name))
        },
    decreases entries.len(),
{
    if entries.len() == 0 {
        assert(seq![(prefix, name)] =~= entries.insert(0, (prefix, name)));
    } else if at == 0 {
        if entries[0].0 == prefix {
            assert(seq![(prefix, name)] + entries.skip(1) =~= entries.update(0, (prefix, name)));
        } else {
            lemma_order_total(prefix, entries[0].0);
            assert(seq![(prefix, name)] + entries =~= entries.insert(0, (prefix, name)));
        }
    } else {
        let rest = entries.skip(1);
        lemma_order_irreflexive(prefix);
        lemma_order_total(prefix, entries[0].0);
        assert(comes_before(entries[0].0, prefix));
        assert forall|j: int| 0 <= j < at - 1 implies comes_before(rest[j].0, prefix) by {
            assert(rest[j] == entries[j + 1]);
        }
        if at < entries.len() {
            assert(rest[at - 1] == entries[at]);
        }
        lemma_rebound(rest, at - 1, prefix, name);
        if at < entries.len() && entries[at].0 == prefix {
            assert(seq![entries[0]] + rest.update(at - 1, (prefix, name)) =~= entries.update(
                at,
                (prefix, name),
            ));
        } else {
            assert(seq![entries[0]] + rest.insert(at - 1, (prefix, name)) =~= entries.insert(
                at,
                (prefix, name),
            ));
        }
    }
}

/// An entry that is put among entries of other prefixes binds its prefix and no other.
proof fn lemma_bound_inserted(
    entries: Seq<(String, String)>,
    at: int,
    entry: (String, String),
    prefix: Seq<char>,
)
    requires
        0 <= at <= entries.len(),
        forall|j: int| 0 <= j < entries.len() ==> entries[j].0@ != entry.0@,
    ensures
        bound(entries.insert(at, entry), prefix) == if prefix == entry.0@ {
            Some(entry.1@)
        } else {
            bound(entries, prefix)
        },
    decreases entries.len(),
{
    let longer = entries.insert(at, entry);
    if at == 0 {
        assert(longer.skip(1) =~= entries);
        assert(longer[0] == entry);
        if prefix == entry.0@ {
        } else {
        }
    } else {
        assert(longer[0] == entries[0]);
        assert(longer.skip(1) =~= entries.skip(1).insert(at - 1, entry));
        assert forall|j: int| 0 <= j < entries.len() - 1 implies entries.skip(1)[j].0@
            != entry.0@ by {
            assert(entries.skip(1)[j] == entries[j + 1]);
        }
        lemma_bound_inserted(entries.skip(1), at - 1, entry, prefix);
    }
}

/// The namespaces that a document declares on its outermost element: a name for each
/// prefix. The empty prefix stands for the namespace of names without a prefix.
#[derive(Debug)]
pub struct Namespaces {
    mapping: Vec<(String, String)>,
}

impl View for Namespaces {
    type V = Map<Seq<char>, Seq<char>>;

    closed spec fn view(&self) -> Map<Seq<char>, Seq<char>> {
        Map::new(
            |prefix: Seq<char>| bound(self.mapping@, prefix) is Some,
            |prefix: Seq<char>| bound(self.mapping@, prefix)->0,
        )
    }
}

impl Namespaces {
    /// The entries stand in the order of their prefixes, so that no prefix has two.
    #[verifier::type_invariant]
    closed spec fn in_order(self) -> bool {
        forall|i: int, j: int|
            0 <= i < j < self.mapping@.len() ==> comes_before(
                self.mapping@[i].0@,
                self.mapping@[j].0@,
            )
    }

    /// The prefixes with their names, in the order of the prefixes.
    pub closed spec fn entries(&self) -> Seq<(Seq<char>, Seq<char>)> {
        self.mapping@.map_values(|entry: (String, String)| (entry.0@, entry.1@))
    }

    /// A table without entries.
    pub fn new() -> (namespaces: Self)
        ensures
            namespaces@ == Map::<Seq<char>, Seq<char>>::empty(),
            namespaces.entries() == Seq::<(Seq<char>, Seq<char>)>::empty(),
    {
        let namespaces = Namespaces { mapping: Vec::new() };
        assert(namespaces@ =~= Map::<Seq<char>, Seq<char>>::empty());
        assert(namespaces.entries() =~= Seq::<(Seq<char>, Seq<char>)>::empty());
        namespaces
    }

    fn position(&self, prefix: &str) -> (at: usize)
        ensures
            at <= self.mapping.len(),
            forall|j: int| 0 <= j < at ==> self.mapping@[j].0@ != prefix@,
            at < self.mapping.len() ==> self.mapping@[at as int].0@ == prefix@,
    {
        let mut i: usize = 0;
        while i < self.mapping.len()
            invariant
                i <= self.mapping.len(),
                forall|j: int| 0 <= j < i ==> self.mapping@[j].0@ != prefix@,
            decreases self.mapping.len() - i,
        {
            if text_eq(self.mapping[i].0.as_str(), prefix) {
                return i;
            }
            i = i + 1;
        }
        i
    }

    /// Binds the empty prefix, which the emitter takes for names without a prefix.
    pub fn put_default(&mut self, name: &str)
        ensures
            final(self)@ == old(self)@.insert(Seq::<char>::empty(), name@),
            final(self).entries() == rebound(old(self).entries(), Seq::<char>::empty(), name@),
    {
        let prefix = no_prefix();
        self.put(prefix, name);
        assert(prefix@ =~= Seq::<char>::empty());
    }

    /// The place of the first entry whose prefix does not come before `prefix`.
    fn place(&self, prefix: &str) -> (at: usize)
        ensures
            at <= self.mapping.len(),
            forall|j: int| 0 <= j < at ==> comes_before(self.mapping@[j].0@, prefix@),
            at < self.mapping.len() ==> !comes_before(self.mapping@[at as int].0@, prefix@),
    {
        let mut i: usize = 0;
        while i < self.mapping.len()
            invariant
                i <= self.mapping.len(),
                forall|j: int| 0 <= j < i ==> comes_before(self.mapping@[j].0@, prefix@),
            decreases self.mapping.len() - i,
        {
            if !text_before(self.mapping[i].0.as_str(), prefix) {
                return i;
            }
            i = i + 1;
        }
        i
    }

    /// Binds `prefix` to `name`, in place of what it was bound to before. The entries stay
    /// in the order of their prefixes.
    pub fn put(&mut self, prefix: &str, name: &str)
        ensures
            final(self)@ == old(self)@.insert(prefix@, name@),
            final(self).entries() == rebound(old(self).entries(), prefix@, name@),
    {
        let at = self.place(prefix);
        let entry = (prefix.to_owned(), name.to_owned());
        let mut mapping = self.declarations();
        let ghost copied = mapping@;
        let replaces = at < mapping.len() && text_eq(mapping[at].0.as_str(), prefix);
        proof {
            use_type_invariant(&*self);
            lemma_order_irreflexive(prefix@);
            assert forall|j: int| 0 <= j < copied.len() implies copied[j].0@
                == self.mapping@[j].0@ && copied[j].1@ == self.mapping@[j].1@ by {
                assert(self.entries()[j] == (self.mapping@[j].0@, self.mapping@[j].1@));
            }
            assert forall|j: int| 0 <= j < at implies comes_before(
                self.entries()[j].0,
                prefix@,
            ) by {
                assert(self.entries()[j].0 == self.mapping@[j].0@);
            }
            if at < self.mapping.len() {
                assert(self.entries()[at as int].0 == self.mapping@[at as int].0@);
                lemma_order_total(prefix@, copied[at as int].0@);
            }
            lemma_rebound(self.entries(), at as int, prefix@, name@);
            // Behind the place every prefix comes behind the new one.
            assert forall|j: int| at <= j < copied.len() && !replaces implies comes_before(
                prefix@,
                copied[j].0@,
            ) by {
                if j > at {
                    assert(comes_before(self.mapping@[at as int].0@, self.mapping@[j].0@));
                    lemma_order_transitive(prefix@, copied[at as int].0@, copied[j].0@);
                }
            }
            assert forall|j: int| at < j < copied.len() && replaces implies comes_before(
                prefix@,
                copied[j].0@,
            ) by {
                assert(comes_before(self.mapping@[at as int].0@, self.mapping@[j].0@));
            }
            assert forall|p: Seq<char>|
                bound(
                    if replaces {
                        copied.update(at as int, entry)
                    } else {
                        copied.insert(at as int, entry)
                    },
                    p,
                ) == if p == prefix@ {
                    Some(name@)
                } else {
                    bound(self.mapping@, p)
                } by {
                lemma_bound_same(copied, self.mapping@, p);
                if replaces {
                    lemma_bound_replaced(copied, at as int, entry, p);
                } else {
                    assert forall|j: int| 0 <= j < copied.len() implies copied[j].0@
                        != prefix@ by {
                        if j < at {
                            assert(comes_before(copied[j].0@, prefix@));
                        } else {
                            assert(comes_before(prefix@, copied[j].0@));
                        }
                    }
                    lemma_bound_inserted(copied, at as int, entry, p);
                }
            }
        }
        if replaces {
            mapping.set(at, entry);
        } else {
            mapping.insert(at, entry);
        }
        assert(mapping@ == if replaces {
            copied.update(at as int, entry)
        } else {
            copied.insert(at as int, entry)
        });
        assert forall|i: int, j: int| 0 <= i < j < mapping@.len() implies comes_before(
            mapping@[i].0@,
            mapping@[j].0@,
        ) by {
            if replaces {
                assert(comes_before(self.mapping@[i].0@, self.mapping@[j].0@));
            } else if j < at {
                assert(comes_before(self.mapping@[i].0@, self.mapping@[j].0@));
            } else if j == at {
                assert(comes_before(self.mapping@[i].0@, prefix@));
            } else if i < at {
                assert(comes_before(self.mapping@[i].0@, self.mapping@[j - 1].0@));
            } else if i == at {
                assert(comes_before(prefix@, copied[j - 1].0@));
            } else {
                assert(comes_before(self.mapping@[i - 1].0@, self.mapping@[j - 1].0@));
            }
        }
        self.mapping = mapping;
        assert forall|p: Seq<char>| bound(self.mapping@, p) == if p == prefix@ {
            Some(name@)
        } else {
            bound(old(self).mapping@, p)
        } by {}
        assert(self@ =~= old(self)@.insert(prefix@, name@));
        assert(self.entries() =~= if replaces {
            old(self).entries().update(at as int, (prefix@, name@))
        } else {
            old(self).entries().insert(at as int, (prefix@, name@))
        });
    }

    /// The name that `prefix` is bound to.
    pub fn get(&self, prefix: &str) -> (name: Option<&String>)
        ensures
            match name {
                Some(name) => self@.contains_key(prefix@) && self@[prefix@] == name@,
                None => !self@.contains_key(prefix@),
            },
    {
        let at = self.position(prefix);
        if at < self.mapping.len() {
            proof {
                lemma_bound_at(self.mapping@, prefix@, at as int);
            }
            Some(&self.mapping[at].1)
        } else {
            proof {
                lemma_bound_unmatched(self.mapping@, prefix@);
            }
            None
        }
    }

    /// A table with the same entries.
    pub fn clone_table(&self) -> (copy: Self)
        ensures
            copy@ == self@,
            copy.entries() == self.entries(),
    {
        let copy = Namespaces { mapping: self.declarations() };
        assert(copy.entries() =~= self.entries());
        assert forall|j: int| 0 <= j < copy.mapping@.len() implies copy.mapping@[j].0@
            == self.mapping@[j].0@ && copy.mapping@[j].1@ == self.mapping@[j].1@ by {
            assert(self.entries()[j] == (self.mapping@[j].0@, self.mapping@[j].1@));
        }
        assert forall|prefix: Seq<char>| bound(copy.mapping@, prefix) == bound(
            self.mapping@,
            prefix,
        ) by {
            lemma_bound_same(copy.mapping@, self.mapping@, prefix);
        }
        assert(copy@ =~= self@);
        copy
    }

    /// The prefixes with their names, for the opening tag of the outermost element.
    pub fn declarations(&self) -> (list: Vec<(String, String)>)
        ensures
            forall|i: int, j: int|
                0 <= i < j < list@.len() ==> comes_before(list@[i].0@, list@[j].0@),
            list@.map_values(|entry: (String, String)| (entry.0@, entry.1@)) == self.entries(),
            list@.len() == self.entries().len(),
            forall|j: int|
                0 <= j < list@.len() ==> (list@[j].0@, list@[j].1@) == #[trigger] self.entries()[j],
    {
        proof {
            use_type_invariant(self);
        }
        let mut list: Vec<(String, String)> = Vec::new();
        let mut i: usize = 0;
        while i < self.mapping.len()
            invariant
                i <= self.mapping.len(),
                list@.len() == i,
                forall|j: int|
                    0 <= j < i ==> list@[j].0@ == self.mapping@[j].0@ && list@[j].1@
                        == self.mapping@[j].1@,
            decreases self.mapping.len() - i,
        {
            list.push((self.mapping[i].0.clone(), self.mapping[i].1.clone()));
            i = i + 1;
        }
        assert(list@.map_values(|entry: (String, String)| (entry.0@, entry.1@))
            =~= self.entries());
        list
    }
}

/// The constant `NS_NO_PREFIX` of the `xml` crate: the prefix under which the emitter keeps
/// the namespace of names without a prefix. It is the empty string.
#[verifier::external_body]
fn no_prefix() -> (prefix: &'static str)
    ensures
        prefix@.len() == 0,
{
    xml::namespace::NS_NO_PREFIX
}

/// The settings of a reader and of a writer.
pub struct SerdeXml {
    emitter: xml::writer::EmitterConfig,
    parser: xml::reader::ParserConfig,
    namespaces: Namespaces,
    overlapping_sequences: bool,
}

impl SerdeXml {
    /// The settings of the tokenizer.
    pub closed spec fn parser_config(&self) -> xml::reader::ParserConfig {
        self.parser
    }

    /// The settings of the emitter.
    pub closed spec fn emitter_config(&self) -> xml::writer::EmitterConfig {
        self.emitter
    }

    /// The namespaces that the outermost element of a written document declares.
    pub closed spec fn declared(&self) -> Seq<(Seq<char>, Seq<char>)> {
        self.namespaces.entries()
    }

    /// The names that the prefixes are bound to.
    pub closed spec fn bindings(&self) -> Map<Seq<char>, Seq<char>> {
        self.namespaces@
    }

    /// Whether sequences look for their members behind siblings of other names.
    pub closed spec fn overlaps(&self) -> bool {
        self.overlapping_sequences
    }

    /// The settings of the tokenizer in a new configuration: whitespace is trimmed and
    /// reported as characters, CDATA is reported as characters, comments are left out and
    /// adjacent character runs are joined.
    pub open spec fn default_parser() -> xml::reader::ParserConfig {
        parser_settings(true, true, true, true, true)
    }

    /// The settings of the emitter in a new configuration: the document is not indented and
    /// begins with its declaration.
    pub open spec fn default_emitter() -> xml::writer::EmitterConfig {
        emitter_settings(false, true)
    }

    /// The settings to start from: no namespaces, and sequences whose members stand
    /// together.
    pub fn new() -> (config: Self)
        ensures
            config.parser_config() == Self::default_parser(),
            config.emitter_config() == Self::default_emitter(),
            config.declared() == Seq::<(Seq<char>, Seq<char>)>::empty(),
            config.bindings() == Map::<Seq<char>, Seq<char>>::empty(),
            !config.overlaps(),
    {
        SerdeXml {
            emitter: configure_emitter(false, true),
            parser: configure_parser(true, true, true, true, true),
            namespaces: Namespaces::new(),
            overlapping_sequences: false,
        }
    }

    /// Replaces the settings of the emitter.
    pub fn emitter(self, emitter: xml::writer::EmitterConfig) -> (config: Self)
        ensures
            config.emitter_config() == emitter,
            config.parser_config() == self.parser_config(),
            config.declared() == self.declared(),
            config.bindings() == self.bindings(),
            config.overlaps() == self.overlaps(),
    {
        let mut config = self;
        config.emitter = emitter;
        config
    }

    /// Replaces the settings of the tokenizer.
    pub fn parser(self, parser: xml::reader::ParserConfig) -> (config: Self)
        ensures
            config.emitter_config() == self.emitter_config(),
            config.parser_config() == parser,
            config.declared() == self.declared(),
            config.bindings() == self.bindings(),
            config.overlaps() == self.overlaps(),
    {
        let mut config = self;
        config.parser = parser;
        config
    }

    /// Binds the namespace of names without a prefix.
    pub fn default_namespace(self, name: &str) -> (config: Self)
        ensures
            config.emitter_config() == self.emitter_config(),
            config.parser_config() == self.parser_config(),
            config.bindings() == self.bindings().insert(Seq::<char>::empty(), name@),
            config.declared() == rebound(self.declared(), Seq::<char>::empty(), name@),
            config.overlaps() == self.overlaps(),
    {
        let mut config = self;
        config.namespaces.put_default(name);
        config
    }

    /// Binds `prefix` to the namespace `name`.
    pub fn namespace(self, prefix: &str, name: &str) -> (config: Self)
        ensures
            config.emitter_config() == self.emitter_config(),
            config.parser_config() == self.parser_config(),
            config.bindings() == self.bindings().insert(prefix@, name@),
            config.declared() == rebound(self.declared(), prefix@, name@),
            config.overlaps() == self.overlaps(),
    {
        let mut config = self;
        config.namespaces.put(prefix, name);
        config
    }

    /// Says whether a sequence looks for its members among all siblings, also behind
    /// elements of other names. It costs memory: the elements that are passed over stay in
    /// the buffer until their own field reads them.
    pub fn overlapping_sequences(self, b: bool) -> (config: Self)
        ensures
            config.emitter_config() == self.emitter_config(),
            config.parser_config() == self.parser_config(),
            config.declared() == self.declared(),
            config.bindings() == self.bindings(),
            config.overlaps() == b,
    {
        let mut config = self;
        config.overlapping_sequences = b;
        config
    }

    /// Whether sequences look for their members behind siblings of other names.
    pub fn overlapping(&self) -> (b: bool)
        ensures
            b == self.overlaps(),
    {
        self.overlapping_sequences
    }

    /// The settings of the tokenizer.
    pub fn into_parser(self) -> (parser: xml::reader::ParserConfig)
        ensures
            parser == self.parser_config(),
    {
        self.parser
    }

    /// Reads `text` as a document that holds a value of `shape`.
    pub fn from_str(self, text: &str, shape: &Shape) -> (r: Result<Value, XmlError>)
        ensures
            outcome(r) == root_value(
                *shape,
                document_tape(self.parser_config(), vstd::utf8::encode_utf8(text@)),
                self.overlaps(),
            ).0,
    {
        let mut deserializer = Deserializer::from_config(self, text);
        deserializer.deserialize(shape)
    }

    /// Writes `value`, which is of `shape`, as a document, and gives the events of the
    /// document in order, with what came of the writing: the events up to the point where
    /// the value could not be written, if there is one.
    pub fn to_events(&self, shape: &Shape, value: &Value) -> (r: (Vec<WriteEvent>, Result<(), XmlError>))
        ensures
            done(r.1) == root_written(*shape, value@, blank(self.declared())).0,
            events_view(r.0@) == root_written(*shape, value@, blank(self.declared())).1.events,
    {
        let mut serializer = Serializer::new(self.namespaces.clone_table());
        let written = serializer.serialize(shape, value);
        (serializer.into_events(), written)
    }

    /// Writes `value`, which is of `shape`, as a document, and gives its text. The events
    /// that were written before a value could not be written go to the emitter all the
    /// same, and an event that the emitter refuses is reported before the value is.
    pub fn to_string(self, shape: &Shape, value: &Value) -> (r: Result<String, XmlError>)
        ensures
            outcome(r) == document_text(
                self.emitter_config(),
                root_written(*shape, value@, blank(self.declared())),
            ),
    {
        let (events, written) = self.to_events(shape, value);
        let bytes = match emit_events(self.emitter, &events) {
            Ok(bytes) => bytes,
            Err(error) => {
                return Err(error);
            },
        };
        if let Err(error) = written {
            return Err(error);
        }
        match text_of_bytes(bytes) {
            Ok(text) => Ok(text),
            Err(cause) => Err(XmlError::FromUtf8(cause)),
        }
    }
}

} // verus!
