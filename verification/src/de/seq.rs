use crate::de::buffer::{lemma_seek, ChildReader, RootReader, Tape};
use crate::de::child::{ChildDeserializer, ChildView};
use crate::de::reader::{prefix_view, Event, EventView};
use crate::error::{XmlError, XmlErrorView};
use crate::text::text_eq;
use vstd::prelude::*;

verus! {

/// The members of a sequence among the children of an element. With an element name the
/// members are the elements of that name; without one, every element that is left.
pub struct SeqAccess {
    reader: ChildReader,
    element_name: Option<String>,
    max_size: Option<usize>,
}

pub struct SeqAccessView {
    pub cursor: int,
    pub overlapping: bool,
    pub name: Option<Seq<char>>,
    /// How many members may still be handed out, where the caller has set a limit.
    pub max: Option<nat>,
}

pub struct MemberStep {
    pub member: Result<Option<ChildView>, XmlErrorView>,
    pub seq: SeqAccessView,
    pub tape: Tape,
}

/// A successful walk leaves the tape as it was and ends behind its start, within the
/// slots.
pub proof fn lemma_crossing_ok(tape: Tape, from: int, depth: int)
    requires
        0 <= from,
    ensures
        tape.crossing(from, depth).0 matches Ok(end) ==> {
            &&& from < end <= tape.slots.len()
            &&& tape.crossing(from, depth).1 == tape
        },
    decreases tape.slots.len() - from,
{
    if from < tape.slots.len() {
        match tape.slots[from] {
            None => lemma_crossing_ok(tape, from + 1, depth),
            Some(EventView::Eof) => {},
            Some(EventView::EndElement) => {
                if depth > 1 {
                    lemma_crossing_ok(tape, from + 1, depth - 1);
                }
            },
            Some(EventView::StartElement(_)) => lemma_crossing_ok(tape, from + 1, depth + 1),
            Some(EventView::Text(_)) => lemma_crossing_ok(tape, from + 1, depth),
        }
    }
}

/// Looks for the next member from where the sequence stands. By name, the start of an
/// element of that name is the next member; the start of any other element ends the
/// sequence, unless sequences may overlap: then the reader walks over that element, which
/// stays in the buffer, and looks on behind it. Without a name the start of any element is
/// the next member. Anything but the start of an element ends the sequence.
pub open spec fn find_member(seq: SeqAccessView, tape: Tape) -> MemberStep
    decreases tape.slots.len() - seq.cursor,
{
    let at = tape.seek(seq.cursor);
    let landed = SeqAccessView { cursor: tape.landing(seq.cursor), ..seq };
    let seen = tape.after_peek(seq.cursor);
    match tape.peeked(seq.cursor) {
        Ok(EventView::StartElement(element)) => match seq.name {
            Some(name) => if element.qname() == name {
                MemberStep {
                    member: Ok(
                        Some(ChildView { cursor: at, overlapping: seq.overlapping, name: Some(name) }),
                    ),
                    seq: landed,
                    tape: seen,
                }
            } else if seq.overlapping {
                match seen.fast_forwarded(at).0 {
                    Ok(end) => if seq.cursor < end <= tape.slots.len() {
                        find_member(SeqAccessView { cursor: end, ..seq }, tape)
                    } else {
                        MemberStep { member: Ok(None), seq: landed, tape: seen }
                    },
                    Err(error) => MemberStep {
                        member: Err(error),
                        seq: landed,
                        tape: seen.fast_forwarded(at).1,
                    },
                }
            } else {
                MemberStep { member: Ok(None), seq: landed, tape: seen }
            },
            None => MemberStep {
                member: Ok(Some(ChildView { cursor: at, overlapping: seq.overlapping, name: None })),
                seq: landed,
                tape: seen,
            },
        },
        Ok(_) => MemberStep { member: Ok(None), seq: landed, tape: seen },
        Err(error) => MemberStep { member: Err(error), seq: landed, tape: seen },
    }
}

/// The next member of the sequence, if it has one more. A sequence whose limit is used up
/// has none; any other call counts against the limit.
pub open spec fn next_member(seq: SeqAccessView, tape: Tape) -> MemberStep {
    match seq.max {
        Some(left) => if left == 0 {
            MemberStep { member: Ok(None), seq, tape }
        } else {
            find_member(SeqAccessView { max: Some((left - 1) as nat), ..seq }, tape)
        },
        None => find_member(seq, tape),
    }
}

/// What becomes of a member of a sequence once it has been read.
#[derive(Clone, Copy, Debug, PartialEq, Eq)]
pub enum MemberFate {
    /// The member is one of the sequence, and the next is looked for.
    Kept,
    /// The sequence ends before the member, without an error.
    Ends,
    /// The sequence fails with the member's error.
    Fails,
}

/// What becomes of a member. One that was read goes into the sequence if an event was
/// consumed for it; else the sequence ends before it, for it would be found again without
/// end. One that failed fails the sequence, unless the members are taken from all that is
/// left, whatever their names, and the error says that what stands there is no member:
/// then the sequence ends before it. `failure` holds, for a member that failed, whether its
/// error says so.
pub open spec fn member_fate(takes_all: bool, progressed: bool, failure: Option<bool>) -> MemberFate {
    match failure {
        None => if progressed {
            MemberFate::Kept
        } else {
            MemberFate::Ends
        },
        Some(ends_a_run) => if takes_all && ends_a_run {
            MemberFate::Ends
        } else {
            MemberFate::Fails
        },
    }
}

/// Says what becomes of a member, from whether the sequence takes all that is left, from
/// the count of consumed events before and after it was read, and, if it failed, from
/// whether its error ends a run.
pub fn settle_member(takes_all: bool, before: u64, after: u64, failure: Option<bool>) -> (fate:
    MemberFate)
    ensures
        fate == member_fate(takes_all, after > before, failure),
{
    match failure {
        None => if after > before {
            MemberFate::Kept
        } else {
            MemberFate::Ends
        },
        Some(ends_a_run) => if takes_all && ends_a_run {
            MemberFate::Ends
        } else {
            MemberFate::Fails
        },
    }
}

pub open spec fn limit_view(max_size: Option<usize>) -> Option<nat> {
    match max_size {
        Some(n) => Some(n as nat),
        None => None,
    }
}

impl View for SeqAccess {
    type V = SeqAccessView;

    closed spec fn view(&self) -> SeqAccessView {
        SeqAccessView {
            cursor: self.reader.cursor as int,
            overlapping: self.reader.overlapping_sequences,
            name: prefix_view(self.element_name),
            max: limit_view(self.max_size),
        }
    }
}

impl SeqAccess {
    /// The members that `reader` has before it, without a limit on their number.
    pub fn new(reader: ChildReader, element_name: Option<String>) -> (seq: Self)
        ensures
            seq@ == (SeqAccessView {
                cursor: reader.cursor as int,
                overlapping: reader.overlapping_sequences,
                name: prefix_view(element_name),
                max: None,
            }),
    {
        Self { reader, element_name, max_size: None }
    }

    /// The members that `reader` has before it, `max_size` of them at most.
    pub fn with_max_size(reader: ChildReader, element_name: Option<String>, max_size: usize) -> (seq:
        Self)
        ensures
            seq@ == (SeqAccessView {
                cursor: reader.cursor as int,
                overlapping: reader.overlapping_sequences,
                name: prefix_view(element_name),
                max: Some(max_size as nat),
            }),
    {
        Self { reader, element_name, max_size: Some(max_size) }
    }

    /// Whether the members are taken from all that is left, whatever their names.
    pub fn takes_all(&self) -> (all: bool)
        ensures
            all == (self@.name is None),
    {
        self.element_name.is_none()
    }

    /// Finds the next member and hands out a reader for it; `None` at the end of the
    /// sequence.
    pub fn next_element(&mut self, root: &mut RootReader) -> (r: Result<
        Option<ChildDeserializer>,
        XmlError,
    >)
        ensures
            final(self)@ == next_member(old(self)@, old(root).tape()).seq,
            final(root).tape() == next_member(old(self)@, old(root).tape()).tape,
            final(root).overlapping() == old(root).overlapping(),
            match r {
                Ok(Some(child)) => next_member(old(self)@, old(root).tape()).member == Ok::<
                    Option<ChildView>,
                    XmlErrorView,
                >(Some(child@)),
                Ok(None) => next_member(old(self)@, old(root).tape()).member == Ok::<
                    Option<ChildView>,
                    XmlErrorView,
                >(None),
                Err(error) => next_member(old(self)@, old(root).tape()).member == Err::<
                    Option<ChildView>,
                    XmlErrorView,
                >(error@),
            },
    {
        match self.max_size {
            Some(left) => {
                if left == 0 {
                    return Ok(None);
                }
                self.max_size = Some(left - 1);
            },
            None => {},
        }
        let ghost tape = old(root).tape();
        let ghost counted = self@;
        loop
            invariant
                root.tape() == tape,
                tape == old(root).tape(),
                root.overlapping() == old(root).overlapping(),
                next_member(old(self)@, tape) == find_member(counted, tape),
                find_member(self@, tape) == find_member(counted, tape),
                0 <= self@.cursor,
            decreases tape.slots.len() - self@.cursor,
        {
            let ghost here = self@;
            proof {
                lemma_seek(tape, here.cursor);
            }
            // Whether the next event starts an element, and whether the element is a member.
            let found: Result<Option<bool>, XmlError> = match self.reader.peek(root) {
                Ok(event) => match event {
                    Event::StartElement(element) => match &self.element_name {
                        Some(name) => {
                            let qname = element.qname();
                            Ok(Some(text_eq(qname.as_str(), name.as_str())))
                        },
                        None => Ok(Some(true)),
                    },
                    _ => Ok(None),
                },
                Err(error) => Err(error),
            };
            match found {
                Ok(Some(true)) => {
                    let child = match &self.element_name {
                        Some(name) => ChildDeserializer::new_with_element_name(
                            self.reader.child(),
                            name.clone(),
                        ),
                        None => ChildDeserializer::new(self.reader.child()),
                    };
                    return Ok(Some(child));
                },
                Ok(Some(false)) => {
                    if !self.reader.overlapping_sequences {
                        return Ok(None);
                    }
                    proof {
                        let at = tape.seek(here.cursor);
                        lemma_seek(tape, at);
                        lemma_crossing_ok(tape, at + 1, 1);
                    }
                    match self.reader.fast_forward(root) {
                        Ok(()) => {},
                        Err(error) => {
                            return Err(error);
                        },
                    }
                },
                Ok(None) => {
                    return Ok(None);
                },
                Err(error) => {
                    return Err(error);
                },
            }
        }
    }
}

} // verus!
