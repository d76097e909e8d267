use crate::de::reader::{parse_xml_bool, xml_bool, Element, ElementView, Event, EventView};
use crate::de::source::EventSource;
use crate::error::{outcome, XmlError, XmlErrorView};
use std::collections::VecDeque;
use vstd::prelude::*;

verus! {

/// One place of the lookahead buffer: an event that no reader has consumed yet, or the mark
/// that a reader left when it consumed the event in place.
#[derive(Debug)]
pub enum Slot {
    Unused(Event),
    Used,
}

impl View for Slot {
    type V = Option<EventView>;

    open spec fn view(&self) -> Option<EventView> {
        match self {
            Slot::Unused(event) => Some(event@),
            Slot::Used => None,
        }
    }
}

/// The rest of a document as the readers over one buffer see it: the slots of the buffer
/// followed by a slot for each event that has not been pulled yet, and how the document ends
/// behind them. `None` is a slot whose event has been consumed in place. Behind the last
/// slot the end of input comes for ever, unless the document ends with an error.
pub struct Tape {
    pub slots: Seq<Option<EventView>>,
    pub failure: Option<XmlErrorView>,
    /// How many events have been consumed so far; the count stops at the largest `u64`.
    pub taken: nat,
}

impl Tape {
    /// The first place at or behind `from` that holds no consumed slot.
    pub open spec fn seek(self, from: int) -> int
        decreases self.slots.len() - from,
    {
        if 0 <= from < self.slots.len() && self.slots[from] is None {
            self.seek(from + 1)
        } else {
            from
        }
    }

    /// Whether an event can be had at `at`: the place holds a slot, or the document ends
    /// without an error.
    pub open spec fn reaches(self, at: int) -> bool {
        at < self.slots.len() || self.failure is None
    }

    /// The event at `at`; behind the last slot it is the end of input.
    pub open spec fn event(self, at: int) -> EventView {
        if 0 <= at < self.slots.len() && self.slots[at] is Some {
            self.slots[at]->0
        } else {
            EventView::Eof
        }
    }

    /// The error that a reader gets where no event can be had.
    pub open spec fn cause(self) -> XmlErrorView {
        self.failure->0
    }

    /// The tape with a slot for the end of input at each place from the last slot up to, but
    /// not including, `len`.
    pub open spec fn padded(self, len: int) -> Tape {
        if len <= self.slots.len() {
            self
        } else {
            Tape {
                slots: self.slots + Seq::new(
                    (len - self.slots.len()) as nat,
                    |i: int| Some(EventView::Eof),
                ),
                ..self
            }
        }
    }

    /// The tape after the event at `at` has been consumed: the first slot is removed, any
    /// other is marked in place.
    pub open spec fn without(self, at: int) -> Tape {
        let full = self.padded(at + 1);
        let taken = if self.taken < u64::MAX {
            self.taken + 1
        } else {
            self.taken
        };
        if at == 0 {
            Tape { slots: full.slots.skip(1), failure: self.failure, taken }
        } else {
            Tape { slots: full.slots.update(at, None), failure: self.failure, taken }
        }
    }

    /// What a reader at `from` gets when it looks at its next event.
    pub open spec fn peeked(self, from: int) -> Result<EventView, XmlErrorView> {
        let at = self.seek(from);
        if self.reaches(at) {
            Ok(self.event(at))
        } else {
            Err(self.cause())
        }
    }

    /// Where a reader at `from` stands after it has looked at or consumed its next event:
    /// at that event, or where it was if there is none to be had.
    pub open spec fn landing(self, from: int) -> int {
        if self.reaches(self.seek(from)) {
            self.seek(from)
        } else {
            from
        }
    }

    /// The tape after a reader at `from` has looked at its next event.
    pub open spec fn after_peek(self, from: int) -> Tape {
        if self.reaches(self.seek(from)) {
            self.padded(self.seek(from) + 1)
        } else {
            self
        }
    }

    /// The tape after a reader at `from` has consumed its next event.
    pub open spec fn after_next(self, from: int) -> Tape {
        if self.reaches(self.seek(from)) {
            self.without(self.seek(from))
        } else {
            self
        }
    }

    /// The place of the `n`-th of the events that a reader at `from` has before it, counted
    /// from nought, and the tape after the search for it.
    pub open spec fn nth_place(self, from: int, n: nat) -> (Result<int, XmlErrorView>, Tape)
        decreases n,
    {
        if !self.reaches(self.seek(from)) {
            (Err(self.cause()), self)
        } else if n == 0 {
            (Ok(self.seek(from)), self.after_peek(from))
        } else {
            self.after_peek(from).nth_place(self.seek(from) + 1, (n - 1) as nat)
        }
    }

    /// What a reader at `from` gets when it looks at the `n`-th of the events before it,
    /// and the tape after the look.
    pub open spec fn peeked_nth(self, from: int, n: nat) -> (Result<EventView, XmlErrorView>, Tape) {
        let found = self.nth_place(from, n);
        match found.0 {
            Ok(at) => (Ok(found.1.event(at)), found.1),
            Err(error) => (Err(error), found.1),
        }
    }

    /// What a reader at `from` gets when it consumes the `n`-th of the events before it,
    /// and the tape that is left: at the front of the buffer the slot is removed, anywhere
    /// else it is marked in place.
    pub open spec fn taken_nth(self, from: int, n: nat) -> (Result<EventView, XmlErrorView>, Tape) {
        let found = self.nth_place(from, n);
        match found.0 {
            Ok(at) => (Ok(found.1.event(at)), found.1.without(at)),
            Err(error) => (Err(error), found.1),
        }
    }

    /// The tape after the owner of the buffer has consumed the next event: the slots up to
    /// and with that of the event are removed.
    pub open spec fn after_front(self) -> Tape {
        let at = self.seek(0);
        if self.reaches(at) {
            Tape {
                slots: self.padded(at + 1).slots.skip(at + 1),
                failure: self.failure,
                taken: self.without(at).taken,
            }
        } else {
            self
        }
    }

    /// The text that a reader at `from` gets when it consumes its next event as text.
    pub open spec fn chars(self, from: int) -> Result<Seq<char>, XmlErrorView> {
        match self.peeked(from) {
            Ok(EventView::Text(text)) => Ok(text),
            Ok(event) => Err(unexpected_view("text"@, event)),
            Err(error) => Err(error),
        }
    }

    /// What a reader at `from` gets when it reads a text that may be missing: the
    /// character data, which it consumes, if that is its next event, and the empty text,
    /// with nothing consumed, if it is anything else.
    pub open spec fn text_or_empty(self, from: int) -> (Result<Seq<char>, XmlErrorView>, Tape) {
        match self.peeked(from) {
            Ok(EventView::Text(text)) => (Ok(text), self.after_next(from)),
            Ok(_) => (Ok(Seq::empty()), self.after_peek(from)),
            Err(error) => (Err(error), self),
        }
    }

    /// Whether the next event of a reader at `from` is the start of an element without
    /// attributes, and the event behind it the end of that element.
    pub open spec fn empty_element(self, from: int) -> bool {
        &&& self.peeked(from) matches Ok(EventView::StartElement(element))
            && element.attributes.len() == 0
        &&& self.after_peek(from).peeked(self.landing(from) + 1) matches Ok(EventView::EndElement)
    }

    /// What a reader at `from` gets when it consumes its next event as a boolean.
    pub open spec fn boolean(self, from: int) -> Result<bool, XmlErrorView> {
        match self.chars(from) {
            Ok(text) => match xml_bool(text) {
                Some(b) => Ok(b),
                None => Err(XmlErrorView::ParseBool(text)),
            },
            Err(error) => Err(error),
        }
    }

    /// The element that a reader at `from` gets when it consumes its next event as the
    /// start of an element.
    pub open spec fn started(self, from: int) -> Result<ElementView, XmlErrorView> {
        match self.peeked(from) {
            Ok(EventView::StartElement(element)) => Ok(element),
            Ok(event) => Err(unexpected_view("start of element"@, event)),
            Err(error) => Err(error),
        }
    }

    /// What a reader at `from` gets when it consumes its next event as the end of an
    /// element.
    pub open spec fn ended(self, from: int) -> Result<(), XmlErrorView> {
        match self.peeked(from) {
            Ok(EventView::EndElement) => Ok(()),
            Ok(event) => Err(unexpected_view("end of element"@, event)),
            Err(error) => Err(error),
        }
    }

    /// Walks from `from`, with `depth` elements open, to the place behind the end of the
    /// outermost of them, consuming nothing. Gives that place, or the error where the input
    /// ends first, and the tape as the walk leaves it.
    pub open spec fn crossing(self, from: int, depth: int) -> (Result<int, XmlErrorView>, Tape)
        decreases self.slots.len() - from,
    {
        if from < 0 || from >= self.slots.len() {
            if self.failure is None {
                (Err(unexpected_view("anything"@, EventView::Eof)), self.padded(from + 1))
            } else {
                (Err(self.cause()), self)
            }
        } else {
            match self.slots[from] {
                None => self.crossing(from + 1, depth),
                Some(EventView::Eof) => (Err(unexpected_view("anything"@, EventView::Eof)), self),
                Some(EventView::EndElement) => if depth <= 1 {
                    (Ok(from + 1), self)
                } else {
                    self.crossing(from + 1, depth - 1)
                },
                Some(EventView::StartElement(_)) => self.crossing(from + 1, depth + 1),
                Some(EventView::Text(_)) => self.crossing(from + 1, depth),
            }
        }
    }

    /// What `fast_forward` gives a reader at `from`: the place behind the element that
    /// starts at its next event, and the tape as the walk leaves it.
    pub open spec fn fast_forwarded(self, from: int) -> (Result<int, XmlErrorView>, Tape) {
        match self.peeked(from) {
            Ok(EventView::StartElement(_)) => self.crossing(self.seek(from) + 1, 1),
            Ok(event) => (Err(unexpected_view("start of element"@, event)), self.after_peek(from)),
            Err(error) => (Err(error), self),
        }
    }

    /// Consumes events from `from` on, with `depth` elements open, up to and including the
    /// end of the outermost of them. Gives the place of the last event consumed, or the
    /// error where the input ends first, and the tape that is left.
    pub open spec fn ignoring(self, from: int, depth: int) -> (Result<int, XmlErrorView>, Tape)
        decreases self.slots.len(), self.slots.len() - from,
    {
        if from < 0 || from >= self.slots.len() {
            if self.failure is None {
                (Err(unexpected_view("anything"@, EventView::Eof)), self.without(from))
            } else {
                (Err(self.cause()), self)
            }
        } else {
            match self.slots[from] {
                None => self.ignoring(from + 1, depth),
                Some(event) => {
                    let rest = self.without(from);
                    let next = if from == 0 {
                        0
                    } else {
                        from + 1
                    };
                    match event {
                        EventView::Eof => (Err(unexpected_view("anything"@, EventView::Eof)), rest),
                        EventView::EndElement => if depth <= 1 {
                            (Ok(from), rest)
                        } else {
                            rest.ignoring(next, depth - 1)
                        },
                        EventView::StartElement(_) => if depth >= usize::MAX {
                            (Err(XmlErrorView::Unsupported("nesting"@)), rest)
                        } else {
                            rest.ignoring(next, depth + 1)
                        },
                        EventView::Text(_) => rest.ignoring(next, depth),
                    }
                },
            }
        }
    }

    /// What `ignore` gives a reader at `from`: the element that starts at its next event is
    /// consumed whole.
    pub open spec fn ignored(self, from: int) -> (Result<int, XmlErrorView>, Tape) {
        match self.started(from) {
            Ok(_) => self.after_next(from).ignoring(self.seek(from), 1),
            Err(error) => (Err(error), self.after_next(from)),
        }
    }

    /// The events that a reader at `from` has before it, in order, as far as the slots go.
    pub open spec fn visible(self, from: int) -> Seq<EventView>
        decreases self.slots.len() - from,
    {
        if 0 <= from < self.slots.len() {
            match self.slots[from] {
                Some(event) => seq![event] + self.visible(from + 1),
                None => self.visible(from + 1),
            }
        } else {
            Seq::empty()
        }
    }
}

/// The error for an event that is not the one that a step needs.
pub open spec fn unexpected_view(expected: Seq<char>, found: EventView) -> XmlErrorView {
    XmlErrorView::Unexpected { expected, but_got: found.describe() }
}

/// The error for an event that is not the one that a step needs.
pub fn unexpected(expected: &'static str, found: &Event) -> (error: XmlError)
    ensures
        error@ == unexpected_view(expected@, found@),
{
    XmlError::Unexpected { expected, but_got: found.describe() }
}

pub proof fn lemma_seek(tape: Tape, from: int)
    requires
        0 <= from,
    ensures
        from <= tape.seek(from),
        from <= tape.slots.len() ==> tape.seek(from) <= tape.slots.len(),
        forall|i: int| from <= i < tape.seek(from) ==> tape.slots[i] is None,
        tape.seek(from) < tape.slots.len() ==> tape.slots[tape.seek(from)] is Some,
        tape.seek(tape.seek(from)) == tape.seek(from),
    decreases tape.slots.len() - from,
{
    if from < tape.slots.len() && tape.slots[from] is None {
        lemma_seek(tape, from + 1);
    }
}

/// Padding a tape moves no reader.
pub proof fn lemma_seek_padded(tape: Tape, len: int, from: int)
    requires
        0 <= from,
    ensures
        tape.padded(len).seek(from) == tape.seek(from),
    decreases tape.slots.len() - from,
{
    let p = tape.padded(len);
    if from < tape.slots.len() {
        assert(p.slots[from] == tape.slots[from]);
        if tape.slots[from] is None {
            lemma_seek_padded(tape, len, from + 1);
        }
    } else {
        if from < p.slots.len() {
            assert(p.slots[from] == Some(EventView::Eof));
        }
    }
}

/// Looking at the next event first makes no difference to what comes of consuming it.
pub proof fn lemma_after_peek(tape: Tape, from: int)
    requires
        0 <= from,
    ensures
        tape.after_peek(from).peeked(tape.landing(from)) == tape.peeked(from),
        tape.after_peek(from).landing(tape.landing(from)) == tape.landing(from),
        tape.after_peek(from).after_next(tape.landing(from)) == tape.after_next(from),
        tape.after_peek(from).after_peek(tape.landing(from)) == tape.after_peek(from),
        tape.after_peek(from).taken == tape.taken,
{
    let at = tape.seek(from);
    lemma_seek(tape, from);
    if tape.reaches(at) {
        let seen = tape.padded(at + 1);
        lemma_seek_padded(tape, at + 1, at);
        assert(seen.padded(at + 1) == seen);
        if at < tape.slots.len() {
            assert(seen == tape);
        } else {
            assert(seen.slots[at] == Some(EventView::Eof));
        }
    }
}

/// Looking first at the next event makes no difference to a search further on.
pub proof fn lemma_nth_place_landed(tape: Tape, from: int, n: nat)
    requires
        0 <= from,
        tape.reaches(tape.seek(from)),
    ensures
        tape.after_peek(from).nth_place(tape.seek(from), n) == tape.nth_place(from, n),
{
    lemma_after_peek(tape, from);
    lemma_seek(tape, from);
    let seen = tape.after_peek(from);
    let at = tape.seek(from);
    lemma_seek_padded(tape, at + 1, at);
    assert(seen.seek(at) == at);
    assert(seen.reaches(at));
    assert(seen.after_peek(at) == seen);
}

/// A walk over consumed slots changes nothing.
pub proof fn lemma_crossing_seek(tape: Tape, from: int, depth: int)
    requires
        0 <= from,
    ensures
        tape.crossing(from, depth) == tape.crossing(tape.seek(from), depth),
    decreases tape.slots.len() - from,
{
    if from < tape.slots.len() && tape.slots[from] is None {
        lemma_crossing_seek(tape, from + 1, depth);
    }
}

/// Consumed slots make no difference to what is ignored behind them.
pub proof fn lemma_ignoring_seek(tape: Tape, from: int, depth: int)
    requires
        0 <= from,
    ensures
        tape.ignoring(from, depth) == tape.ignoring(tape.seek(from), depth),
    decreases tape.slots.len() - from,
{
    if from < tape.slots.len() && tape.slots[from] is None {
        lemma_ignoring_seek(tape, from + 1, depth);
    }
}

/// The view of the slots that a buffer holds.
pub open spec fn slots_view(slots: Seq<Slot>) -> Seq<Option<EventView>> {
    slots.map_values(|slot: Slot| slot@)
}

/// The slots that stand for events which have not been pulled yet.
pub open spec fn unpulled(events: Seq<EventView>) -> Seq<Option<EventView>> {
    events.map_values(|event: EventView| Some(event))
}

/// The owner of the lookahead buffer: the event source and the queue of slots that every
/// reader over the document shares.
pub struct RootReader<'a> {
    source: EventSource<'a>,
    lookahead: VecDeque<Slot>,
    overlapping_sequences: bool,
    taken: u64,
}

/// A read position in the buffer of a `RootReader`. Several may be alive at once; each call
/// names the buffer that the reader works on.
#[derive(Debug)]
pub struct ChildReader {
    pub cursor: usize,
    pub overlapping_sequences: bool,
}

impl<'a> RootReader<'a> {
    /// The rest of the document as the readers see it.
    pub closed spec fn tape(&self) -> Tape {
        Tape {
            slots: slots_view(self.lookahead@) + unpulled(self.source.events()),
            failure: self.source.failure(),
            taken: self.taken as nat,
        }
    }

    /// Whether sequences look for their members behind siblings of other names.
    pub closed spec fn overlapping(&self) -> bool {
        self.overlapping_sequences
    }

    /// The number of slots that the buffer holds in memory.
    pub closed spec fn buffered(&self) -> nat {
        self.lookahead@.len()
    }

    /// A buffer over `source` with nothing pulled yet.
    pub fn new(source: EventSource<'a>, overlapping_sequences: bool) -> (root: Self)
        ensures
            root.tape() == (Tape {
                slots: unpulled(source.events()),
                failure: source.failure(),
                taken: 0,
            }),
            root.buffered() == 0,
            root.overlapping() == overlapping_sequences,
    {
        let root = RootReader {
            source,
            lookahead: VecDeque::new(),
            overlapping_sequences,
            taken: 0,
        };
        assert(root.tape().slots =~= unpulled(source.events()));
        root
    }

    /// Whether sequences look for their members behind siblings of other names.
    pub fn overlapping_sequences(&self) -> (overlapping: bool)
        ensures
            overlapping == self.overlapping(),
    {
        self.overlapping_sequences
    }

    /// How many events have been consumed from this buffer; the count stops at the largest
    /// `u64`.
    pub fn taken(&self) -> (taken: u64)
        ensures
            taken == self.tape().taken,
    {
        self.taken
    }

    /// A reader at the front of the buffer.
    pub fn child(&self) -> (reader: ChildReader)
        ensures
            reader.cursor == 0,
            reader.overlapping_sequences == self.overlapping(),
    {
        ChildReader { cursor: 0, overlapping_sequences: self.overlapping_sequences }
    }

    /// Pulls one event into the buffer. Behind the end of a document that ends without an
    /// error, the event is the end of input.
    fn pull(&mut self) -> (r: Result<(), XmlError>)
        ensures
            final(self).overlapping() == old(self).overlapping(),
            match r {
                Ok(()) => {
                    &&& final(self).buffered() == old(self).buffered() + 1
                    &&& final(self).tape() == old(self).tape().padded(final(self).buffered() as int)
                    &&& old(self).buffered() < old(self).tape().slots.len()
                        || old(self).tape().failure is None
                },
                Err(error) => {
                    &&& final(self).buffered() == old(self).buffered()
                    &&& final(self).tape() == old(self).tape()
                    &&& old(self).tape().slots.len() == old(self).buffered()
                    &&& old(self).tape().failure is Some
                    &&& error@ == old(self).tape().cause()
                },
            },
    {
        let ghost events = self.source.events();
        let ghost held = slots_view(self.lookahead@);
        match self.source.next() {
            Ok(event) => {
                let ghost seen = event@;
                self.lookahead.push_back(Slot::Unused(event));
                proof {
                    assert(slots_view(self.lookahead@) =~= held.push(Some(seen)));
                    if events.len() > 0 {
                        assert(unpulled(events) =~= seq![Some(seen)] + unpulled(events.skip(1)));
                        assert(self.tape().slots =~= old(self).tape().slots);
                    } else {
                        assert(unpulled(self.source.events()) =~= Seq::empty());
                        assert(unpulled(events) =~= Seq::empty());
                        assert(self.tape().slots =~= old(self).tape().padded(
                            self.buffered() as int,
                        ).slots);
                    }
                }
                Ok(())
            },
            Err(error) => {
                proof {
                    assert(unpulled(self.source.events()) =~= unpulled(events));
                    assert(self.tape().slots =~= old(self).tape().slots);
                }
                Err(error)
            },
        }
    }

    /// Looks at the next event of the document without consuming it.
    pub fn peek(&mut self) -> (r: Result<&Event, XmlError>)
        ensures
            outcome(r) == old(self).tape().peeked(0),
            final(self).tape() == old(self).tape().after_peek(0),
            final(self).overlapping() == old(self).overlapping(),
    {
        let at = self.locate(0)?;
        proof {
            lemma_seek(old(self).tape(), 0);
            assert(self.tape().slots[at as int] == self.lookahead@[at as int]@);
        }
        match &self.lookahead[at] {
            Slot::Unused(event) => Ok(event),
            Slot::Used => {
                proof {
                    assert(false);
                }
                Err(XmlError::Unsupported("lookahead"))
            },
        }
    }

    /// Consumes the next event of the document: the slots up to it, which readers have
    /// consumed in place, leave the buffer with it.
    pub fn next(&mut self) -> (r: Result<Event, XmlError>)
        ensures
            outcome(r) == old(self).tape().peeked(0),
            final(self).tape() == old(self).tape().after_front(),
            final(self).overlapping() == old(self).overlapping(),
    {
        let at = self.locate(0)?;
        let ghost full = self.tape();
        let mut dropped: usize = 0;
        proof {
            lemma_seek(old(self).tape(), 0);
            lemma_seek_padded(old(self).tape(), at + 1, 0);
            lemma_seek(full, 0);
            assert(full.slots.skip(0) =~= full.slots);
        }
        while dropped < at
            invariant
                dropped <= at,
                at < full.slots.len(),
                at == full.seek(0),
                self.overlapping() == old(self).overlapping(),
                self.tape().slots == full.slots.skip(dropped as int),
                self.tape().failure == full.failure,
                self.tape().taken == full.taken,
                self.buffered() + dropped > at,
            decreases at - dropped,
        {
            let ghost held = slots_view(self.lookahead@);
            let ghost before = self.tape().slots;
            let _ = self.lookahead.pop_front();
            proof {
                assert(slots_view(self.lookahead@) =~= held.skip(1));
                assert(self.tape().slots =~= before.skip(1));
                assert(full.slots.skip(dropped as int).skip(1) =~= full.slots.skip(dropped + 1));
            }
            dropped = dropped + 1;
        }
        proof {
            assert(self.tape().slots[0] == full.slots[at as int]);
            assert(self.tape().slots[0] == self.lookahead@[0]@);
            assert(full.slots.skip(at as int).skip(1) =~= full.slots.skip(at + 1));
            assert(self.tape().padded(1) == self.tape());
        }
        let event = self.consume(0);
        proof {
            let tape = old(self).tape();
            assert(full.event(at as int) == tape.event(at as int)) by {
                if at < tape.slots.len() {
                    assert(full.slots[at as int] == tape.slots[at as int]);
                }
            }
        }
        Ok(event)
    }

    /// Takes the event out of the slot at `at`: the first slot leaves the buffer, any other
    /// stays in it as a consumed slot.
    fn consume(&mut self, at: usize) -> (event: Event)
        requires
            at < old(self).buffered(),
            old(self).tape().slots[at as int] is Some,
        ensures
            final(self).overlapping() == old(self).overlapping(),
            event@ == old(self).tape().event(at as int),
            final(self).tape() == old(self).tape().without(at as int),
    {
        let ghost held = slots_view(self.lookahead@);
        let ghost rest = unpulled(self.source.events());
        assert(self.tape().slots[at as int] == held[at as int]);
        assert(self.tape().padded(at + 1) == self.tape());
        if self.taken < u64::MAX {
            self.taken = self.taken + 1;
        }
        let slot = if at == 0 {
            let slot = self.lookahead.pop_front();
            assert(slots_view(self.lookahead@) =~= held.skip(1));
            assert(self.tape().slots =~= old(self).tape().slots.skip(1));
            slot
        } else {
            let slot = self.lookahead.remove(at);
            self.lookahead.insert(at, Slot::Used);
            assert(slots_view(self.lookahead@) =~= held.update(at as int, None));
            assert(self.tape().slots =~= old(self).tape().slots.update(at as int, None));
            slot
        };
        match slot {
            Some(Slot::Unused(event)) => event,
            _ => {
                proof {
                    assert(false);
                }
                Event::Eof
            },
        }
    }

    /// Finds the first event at or behind `from` that no reader has consumed, pulling events
    /// into the buffer until it holds that place.
    fn locate(&mut self, from: usize) -> (r: Result<usize, XmlError>)
        ensures
            final(self).overlapping() == old(self).overlapping(),
            match r {
                Ok(at) => {
                    &&& at == old(self).tape().seek(from as int)
                    &&& old(self).tape().reaches(at as int)
                    &&& final(self).tape() == old(self).tape().padded(at + 1)
                    &&& at < final(self).buffered()
                    &&& at < usize::MAX
                },
                Err(error) => {
                    &&& !old(self).tape().reaches(old(self).tape().seek(from as int))
                    &&& error@ == old(self).tape().cause()
                    &&& final(self).tape() == old(self).tape()
                },
            },
    {
        let ghost start = self.tape();
        let ghost goal = start.seek(from as int);
        let mut at: usize = from;
        proof {
            lemma_seek(start, from as int);
        }
        loop
            invariant
                self.overlapping() == old(self).overlapping(),
                start == old(self).tape(),
                goal == start.seek(from as int),
                from <= at <= goal,
                start.seek(at as int) == goal,
                self.tape() == start.padded(self.buffered() as int),
                self.buffered() <= start.slots.len() || self.buffered() <= at + 1,
                self.buffered() > start.slots.len() ==> start.failure is None,
            decreases goal - at, goal + 1 - self.buffered(),
        {
            if at < self.lookahead.len() {
                proof {
                    lemma_seek(start, at as int);
                    assert(self.tape().slots[at as int] == self.lookahead@[at as int]@);
                    if at < start.slots.len() {
                        assert(self.tape().slots[at as int] == start.slots[at as int]);
                    }
                }
                match &self.lookahead[at] {
                    Slot::Unused(_) => {
                        proof {
                            if self.buffered() <= start.slots.len() {
                                assert(start.padded(self.buffered() as int) == start.padded(
                                    at + 1,
                                ));
                            }
                        }
                        return Ok(at);
                    },
                    Slot::Used => {
                        at = at + 1;
                    },
                }
            } else {
                let ghost before = self.tape();
                let ghost held = self.buffered() as int;
                match self.pull() {
                    Ok(()) => {
                        proof {
                            lemma_seek(start, at as int);
                            if held < start.slots.len() {
                                assert(before == start);
                                assert(self.tape() == start.padded(self.buffered() as int));
                            } else {
                                assert(before.padded(held + 1).slots =~= start.padded(
                                    held + 1,
                                ).slots);
                            }
                        }
                    },
                    Err(error) => {
                        proof {
                            lemma_seek(start, at as int);
                            assert(before.padded(held) == before);
                            if held > start.slots.len() {
                                assert(before.slots.len() == held);
                            }
                            assert(before == start);
                        }
                        return Err(error);
                    },
                }
            }
        }
    }
}

impl ChildReader {
    /// A reader at the same place as this one. What either of them consumes is gone for
    /// both; where they stand is their own.
    pub fn child(&self) -> (reader: ChildReader)
        ensures
            reader == *self,
    {
        ChildReader { cursor: self.cursor, overlapping_sequences: self.overlapping_sequences }
    }

    /// Looks at the next event without consuming it. The reader moves up to that event,
    /// past the slots that others have consumed; the buffer keeps every slot.
    pub fn peek<'r>(&mut self, root: &'r mut RootReader) -> (r: Result<&'r Event, XmlError>)
        ensures
            outcome(r) == old(root).tape().peeked(old(self).cursor as int),
            final(root).tape() == old(root).tape().after_peek(old(self).cursor as int),
            final(root).overlapping() == old(root).overlapping(),
            final(self).cursor == old(root).tape().landing(old(self).cursor as int),
            final(self).overlapping_sequences == old(self).overlapping_sequences,
            r is Ok ==> final(self).cursor < usize::MAX,
            r is Ok ==> final(self).cursor < final(root).tape().slots.len(),
    {
        let at = root.locate(self.cursor)?;
        self.cursor = at;
        assert(root.tape().slots[at as int] == root.lookahead@[at as int]@);
        proof {
            lemma_seek(old(root).tape(), old(self).cursor as int);
        }
        match &root.lookahead[at] {
            Slot::Unused(event) => Ok(event),
            Slot::Used => {
                proof {
                    assert(false);
                }
                Err(XmlError::Unsupported("lookahead"))
            },
        }
    }

    /// Finds the `n`-th of the events that the reader has before it, counted from nought.
    /// The reader moves up to the first of its events, as it does when it looks at that
    /// one.
    fn locate_nth(&mut self, root: &mut RootReader, n: usize) -> (r: Result<usize, XmlError>)
        ensures
            final(root).tape() == old(root).tape().nth_place(old(self).cursor as int, n as nat).1,
            final(root).overlapping() == old(root).overlapping(),
            final(self).cursor == old(root).tape().landing(old(self).cursor as int),
            final(self).overlapping_sequences == old(self).overlapping_sequences,
            match r {
                Ok(at) => {
                    &&& old(root).tape().nth_place(old(self).cursor as int, n as nat).0 == Ok::<
                        int,
                        XmlErrorView,
                    >(at as int)
                    &&& at < final(root).buffered()
                    &&& final(root).tape().slots[at as int] is Some
                },
                Err(error) => old(root).tape().nth_place(old(self).cursor as int, n as nat).0
                    == Err::<int, XmlErrorView>(error@),
            },
    {
        let ghost start = old(root).tape();
        let ghost whole = start.nth_place(old(self).cursor as int, n as nat);
        proof {
            lemma_seek(start, old(self).cursor as int);
        }
        let mut at = match root.locate(self.cursor) {
            Ok(at) => at,
            Err(error) => {
                return Err(error);
            },
        };
        self.cursor = at;
        let mut left = n;
        proof {
            lemma_nth_place_landed(start, old(self).cursor as int, n as nat);
            lemma_seek_padded(start, at + 1, at as int);
            assert(root.tape().slots[at as int] == root.lookahead@[at as int]@);
        }
        while left > 0
            invariant
                root.overlapping() == old(root).overlapping(),
                self.cursor == old(root).tape().landing(old(self).cursor as int),
                self.overlapping_sequences == old(self).overlapping_sequences,
                whole == old(root).tape().nth_place(old(self).cursor as int, n as nat),
                whole == root.tape().nth_place(at as int, left as nat),
                root.tape().seek(at as int) == at,
                root.tape().reaches(at as int),
                at < root.tape().slots.len(),
                root.tape().slots[at as int] is Some,
                at < root.buffered(),
                at < usize::MAX,
            decreases left,
        {
            let ghost now = root.tape();
            proof {
                assert(now.padded(at + 1) == now);
                assert(now.after_peek(at as int) == now);
                assert(now.nth_place(at as int, left as nat) == now.nth_place(
                    at + 1,
                    (left - 1) as nat,
                ));
                lemma_seek(now, at + 1);
                let next = now.seek(at + 1);
                if now.reaches(next) {
                    lemma_nth_place_landed(now, at + 1, (left - 1) as nat);
                    lemma_seek_padded(now, next + 1, next);
                }
            }
            at = match root.locate(at + 1) {
                Ok(at) => at,
                Err(error) => {
                    return Err(error);
                },
            };
            left = left - 1;
            proof {
                assert(root.tape().slots[at as int] == root.lookahead@[at as int]@);
            }
        }
        proof {
            assert(root.tape().padded(at + 1) == root.tape());
        }
        Ok(at)
    }

    /// Looks at the `n`-th of the events that the reader has before it, counted from nought,
    /// and consumes nothing. The reader moves up to the first of its events, as it does
    /// when it looks at that one.
    pub fn peek_nth<'r>(&mut self, root: &'r mut RootReader, n: usize) -> (r: Result<
        &'r Event,
        XmlError,
    >)
        ensures
            outcome(r) == old(root).tape().peeked_nth(old(self).cursor as int, n as nat).0,
            final(root).tape() == old(root).tape().peeked_nth(old(self).cursor as int, n as nat).1,
            final(root).overlapping() == old(root).overlapping(),
            final(self).cursor == old(root).tape().landing(old(self).cursor as int),
            final(self).overlapping_sequences == old(self).overlapping_sequences,
    {
        let at = self.locate_nth(root, n)?;
        proof {
            assert(root.tape().slots[at as int] == root.lookahead@[at as int]@);
        }
        match &root.lookahead[at] {
            Slot::Unused(event) => Ok(event),
            Slot::Used => {
                proof {
                    assert(false);
                }
                Err(XmlError::Unsupported("lookahead"))
            },
        }
    }

    /// Consumes the `n`-th of the events that the reader has before it, counted from
    /// nought. The reader moves up to the first of its events.
    pub fn take_nth(&mut self, root: &mut RootReader, n: usize) -> (r: Result<Event, XmlError>)
        ensures
            outcome(r) == old(root).tape().taken_nth(old(self).cursor as int, n as nat).0,
            final(root).tape() == old(root).tape().taken_nth(old(self).cursor as int, n as nat).1,
            final(root).overlapping() == old(root).overlapping(),
            final(self).cursor == old(root).tape().landing(old(self).cursor as int),
            final(self).overlapping_sequences == old(self).overlapping_sequences,
    {
        let at = self.locate_nth(root, n)?;
        Ok(root.consume(at))
    }

    /// Consumes the next event. At the front of the buffer the slot is removed, for every
    /// reader; anywhere else it is marked as consumed and keeps its place, so that no other
    /// reader's position shifts.
    pub fn next(&mut self, root: &mut RootReader) -> (r: Result<Event, XmlError>)
        ensures
            outcome(r) == old(root).tape().peeked(old(self).cursor as int),
            final(root).tape() == old(root).tape().after_next(old(self).cursor as int),
            final(root).overlapping() == old(root).overlapping(),
            final(self).cursor == old(root).tape().landing(old(self).cursor as int),
            final(self).overlapping_sequences == old(self).overlapping_sequences,
    {
        let at = root.locate(self.cursor)?;
        self.cursor = at;
        proof {
            let tape = old(root).tape();
            lemma_seek(tape, old(self).cursor as int);
            assert(root.tape().slots[at as int] == root.lookahead@[at as int]@);
            assert(tape.padded(at + 1).padded(at + 1) == tape.padded(at + 1));
        }
        Ok(root.consume(at))
    }

    /// Steps over the slot at which the reader stands without consuming it.
    pub fn skip(&mut self)
        requires
            old(self).cursor < usize::MAX,
        ensures
            final(self).cursor == old(self).cursor + 1,
            final(self).overlapping_sequences == old(self).overlapping_sequences,
    {
        self.cursor = self.cursor + 1;
    }

    /// Consumes the next event as text.
    pub fn chars(&mut self, root: &mut RootReader) -> (r: Result<String, XmlError>)
        ensures
            outcome(r) == old(root).tape().chars(old(self).cursor as int),
            final(root).tape() == old(root).tape().after_next(old(self).cursor as int),
            final(root).overlapping() == old(root).overlapping(),
            final(self).cursor == old(root).tape().landing(old(self).cursor as int),
            final(self).overlapping_sequences == old(self).overlapping_sequences,
    {
        match self.next(root)? {
            Event::Text(text) => Ok(text),
            event => Err(unexpected("text", &event)),
        }
    }

    /// Reads a text that may be missing: consumes the next event if it is character data,
    /// and gives the empty text if it is anything else.
    pub fn text_or_empty(&mut self, root: &mut RootReader) -> (r: Result<String, XmlError>)
        ensures
            (outcome(r), final(root).tape()) == old(root).tape().text_or_empty(
                old(self).cursor as int,
            ),
            final(root).overlapping() == old(root).overlapping(),
            final(self).cursor == old(root).tape().landing(old(self).cursor as int),
            final(self).overlapping_sequences == old(self).overlapping_sequences,
    {
        let is_text = match self.peek(root) {
            Ok(event) => match event {
                Event::Text(_) => true,
                _ => false,
            },
            Err(error) => {
                return Err(error);
            },
        };
        proof {
            lemma_after_peek(old(root).tape(), old(self).cursor as int);
        }
        if is_text {
            self.chars(root)
        } else {
            let text = String::new();
            assert(text@ =~= Seq::<char>::empty());
            Ok(text)
        }
    }

    /// Consumes the next event as a boolean.
    pub fn bool(&mut self, root: &mut RootReader) -> (r: Result<bool, XmlError>)
        ensures
            outcome(r) == old(root).tape().boolean(old(self).cursor as int),
            final(root).tape() == old(root).tape().after_next(old(self).cursor as int),
            final(root).overlapping() == old(root).overlapping(),
            final(self).cursor == old(root).tape().landing(old(self).cursor as int),
            final(self).overlapping_sequences == old(self).overlapping_sequences,
    {
        let text = self.chars(root)?;
        parse_xml_bool(text.as_str())
    }

    /// Consumes the next event as the start of an element.
    pub fn start_element(&mut self, root: &mut RootReader) -> (r: Result<Element, XmlError>)
        ensures
            outcome(r) == old(root).tape().started(old(self).cursor as int),
            final(root).tape() == old(root).tape().after_next(old(self).cursor as int),
            final(root).overlapping() == old(root).overlapping(),
            final(self).cursor == old(root).tape().landing(old(self).cursor as int),
            final(self).overlapping_sequences == old(self).overlapping_sequences,
    {
        match self.next(root)? {
            Event::StartElement(element) => Ok(element),
            event => Err(unexpected("start of element", &event)),
        }
    }

    /// Consumes the next event as the end of an element.
    pub fn end_element(&mut self, root: &mut RootReader) -> (r: Result<(), XmlError>)
        ensures
            outcome(r) == old(root).tape().ended(old(self).cursor as int),
            final(root).tape() == old(root).tape().after_next(old(self).cursor as int),
            final(root).overlapping() == old(root).overlapping(),
            final(self).cursor == old(root).tape().landing(old(self).cursor as int),
            final(self).overlapping_sequences == old(self).overlapping_sequences,
    {
        match self.next(root)? {
            Event::EndElement => Ok(()),
            event => Err(unexpected("end of element", &event)),
        }
    }

    /// Moves the reader behind the element that starts at its next event, and consumes
    /// nothing: the element stays in the buffer for another reader. Where the next event
    /// starts no element, or the input ends inside the element, the reader stays where it
    /// came to look.
    pub fn fast_forward(&mut self, root: &mut RootReader) -> (r: Result<(), XmlError>)
        ensures
            final(root).tape() == old(root).tape().fast_forwarded(old(self).cursor as int).1,
            final(root).overlapping() == old(root).overlapping(),
            final(self).overlapping_sequences == old(self).overlapping_sequences,
            match old(root).tape().fast_forwarded(old(self).cursor as int).0 {
                Ok(end) => r is Ok && final(self).cursor == end,
                Err(error) => {
                    &&& r matches Err(e)
                    &&& e@ == error
                    &&& final(self).cursor == old(root).tape().landing(old(self).cursor as int)
                },
            },
    {
        let ghost tape = old(root).tape();
        let ghost from = old(self).cursor as int;
        proof {
            lemma_seek(tape, from);
        }
        let starts = match self.peek(root) {
            Ok(event) => match event {
                Event::StartElement(_) => Ok(()),
                other => Err(unexpected("start of element", other)),
            },
            Err(error) => Err(error),
        };
        if let Err(error) = starts {
            return Err(error);
        }
        let landed = self.cursor;
        assert(root.tape() == tape);
        self.cursor = self.cursor + 1;
        let mut depth: usize = 1;
        while depth > 0
            invariant
                root.tape() == tape,
                tape == old(root).tape(),
                landed == tape.landing(old(self).cursor as int),
                tape.fast_forwarded(old(self).cursor as int) == tape.crossing(landed + 1, 1),
                root.overlapping() == old(root).overlapping(),
                self.overlapping_sequences == old(self).overlapping_sequences,
                1 <= self.cursor <= tape.slots.len(),
                depth <= self.cursor,
                depth > 0 ==> tape.crossing(self.cursor as int, depth as int) == tape.crossing(
                    landed + 1,
                    1,
                ),
                depth == 0 ==> tape.crossing(landed + 1, 1) == (
                    Ok::<int, XmlErrorView>(self.cursor as int),
                    tape,
                ),
            decreases tape.slots.len() - self.cursor,
        {
            let ghost here = self.cursor as int;
            proof {
                lemma_seek(tape, here);
                lemma_crossing_seek(tape, here, depth as int);
            }
            let change: Result<i8, XmlError> = match self.peek(root) {
                Ok(event) => match event {
                    Event::Eof => Err(unexpected("anything", event)),
                    Event::EndElement => Ok(-1),
                    Event::StartElement(_) => Ok(1),
                    Event::Text(_) => Ok(0),
                },
                Err(error) => Err(error),
            };
            match change {
                Err(error) => {
                    self.cursor = landed;
                    return Err(error);
                },
                Ok(step) => {
                    if step < 0 {
                        depth = depth - 1;
                    } else if step > 0 {
                        depth = depth + 1;
                    }
                    self.cursor = self.cursor + 1;
                },
            }
        }
        Ok(())
    }

    /// Consumes the element that starts at the next event, with all that it holds.
    pub fn ignore(&mut self, root: &mut RootReader) -> (r: Result<(), XmlError>)
        ensures
            final(root).tape() == old(root).tape().ignored(old(self).cursor as int).1,
            final(root).overlapping() == old(root).overlapping(),
            final(self).overlapping_sequences == old(self).overlapping_sequences,
            match old(root).tape().ignored(old(self).cursor as int).0 {
                Ok(end) => r is Ok && final(self).cursor == end,
                Err(error) => {
                    &&& r matches Err(e)
                    &&& e@ == error
                    &&& final(self).cursor == old(root).tape().landing(old(self).cursor as int)
                },
            },
    {
        let ghost tape = old(root).tape();
        let ghost from = old(self).cursor as int;
        proof {
            lemma_seek(tape, from);
        }
        if let Err(error) = self.start_element(root) {
            return Err(error);
        }
        let landed = self.cursor;
        let ghost first = root.tape();
        let mut depth: usize = 1;
        while depth > 0
            invariant
                landed == old(root).tape().landing(old(self).cursor as int),
                old(root).tape().ignored(old(self).cursor as int) == first.ignoring(
                    landed as int,
                    1,
                ),
                root.overlapping() == old(root).overlapping(),
                self.overlapping_sequences == old(self).overlapping_sequences,
                self.cursor == 0 || (self.cursor < root.tape().slots.len()
                    && root.tape().slots[self.cursor as int] is None),
                depth > 0 ==> root.tape().ignoring(self.cursor as int, depth as int)
                    == first.ignoring(landed as int, 1),
                depth == 0 ==> first.ignoring(landed as int, 1) == (
                    Ok::<int, XmlErrorView>(self.cursor as int),
                    root.tape(),
                ),
            decreases root.tape().slots.len(), root.tape().slots.len() - self.cursor,
        {
            let ghost now = root.tape();
            let ghost here = self.cursor as int;
            proof {
                lemma_seek(now, here);
                lemma_ignoring_seek(now, here, depth as int);
                let at = now.seek(here);
                if now.reaches(at) {
                    lemma_ignoring_seek(
                        now.without(at),
                        at,
                        depth as int,
                    );
                    lemma_ignoring_seek(
                        now.without(at),
                        at,
                        depth - 1,
                    );
                    lemma_ignoring_seek(
                        now.without(at),
                        at,
                        depth + 1,
                    );
                    lemma_seek(now.without(at), at);
                }
            }
            match self.next(root) {
                Err(error) => {
                    self.cursor = landed;
                    return Err(error);
                },
                Ok(event) => match event {
                    Event::Eof => {
                        let error = unexpected("anything", &event);
                        self.cursor = landed;
                        return Err(error);
                    },
                    Event::EndElement => {
                        depth = depth - 1;
                    },
                    Event::StartElement(_) => {
                        if depth == usize::MAX {
                            self.cursor = landed;
                            return Err(XmlError::Unsupported("nesting"));
                        }
                        depth = depth + 1;
                    },
                    Event::Text(_) => {},
                },
            }
        }
        Ok(())
    }
}

} // verus!
