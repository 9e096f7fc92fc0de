//! One processing block: its frames in order, and the events due at each.
//!
//! The events of a block and its frames are walked together, each exactly once:
//! before a frame is handed out, the events from the cursor on are consumed for
//! as long as their offset is not beyond the frame. On events in ascending order
//! of offset this applies every event at the frame of its own offset.

use vstd::prelude::*;
use crate::event::NoteEvent;
use crate::voice::{
    lemma_last_note_on_holds, lemma_note_after_concat, note_after, retarget_after, EnvelopeTarget,
    Voice,
};

verus! {

/// Where the run of due events that starts at `start` ends, for the frame
/// `index`: the first place at or after `start` that holds no event, or an event
/// whose offset lies beyond `index`.
pub open spec fn due_end<V>(events: Seq<NoteEvent<V>>, start: int, index: int) -> int
    decreases events.len() - start,
{
    if 0 <= start < events.len() && events[start].offset() <= index {
        due_end(events, start + 1, index)
    } else {
        start
    }
}

/// How many events have been consumed once `frames` frames have been handed out.
pub open spec fn cursor_at<V>(events: Seq<NoteEvent<V>>, frames: nat) -> int
    decreases frames,
{
    if frames == 0 {
        0
    } else {
        due_end(events, cursor_at(events, (frames - 1) as nat), frames - 1)
    }
}

/// The events are in ascending order of offset.
pub open spec fn sorted_by_offset<V>(events: Seq<NoteEvent<V>>) -> bool {
    forall|i: int, j: int|
        0 <= i <= j < events.len() ==> (#[trigger] events[i]).offset() <= (#[trigger] events[j]).offset()
}

/// What drives the oscillator during one frame.
#[derive(Debug, PartialEq)]
pub enum Drive<V> {
    /// The manual frequency parameter, at full level.
    Manual,
    /// The voice: its note gives the pitch and its envelope the level.
    Voice {
        /// The note holding the voice, or `None` while it is idle.
        note: Option<u8>,
        /// The target to set on the envelope before it is advanced, if any.
        retarget: Option<EnvelopeTarget<V>>,
    },
}

/// The drive of a frame before which the events `due` were consumed, on a voice
/// that `active` held until then.
pub open spec fn drive_of<V>(use_midi: bool, active: Option<u8>, due: Seq<NoteEvent<V>>) -> Drive<V> {
    if use_midi {
        Drive::Voice { note: note_after(active, due), retarget: retarget_after(active, due) }
    } else {
        Drive::Manual
    }
}

/// One frame of a block: a sample position and what to render into it.
#[derive(Debug, PartialEq)]
pub struct Frame<V> {
    /// The position of the frame in the block.
    pub index: usize,
    /// What drives the oscillator during the frame.
    pub drive: Drive<V>,
}

/// A block in progress.
pub struct Block<'a, V> {
    events: &'a [NoteEvent<V>],
    cursor: usize,
    position: usize,
    length: usize,
}

/// A block in progress, as contracts speak of it.
pub ghost struct BlockView<V> {
    /// The events of the block, in the order of arrival.
    pub events: Seq<NoteEvent<V>>,
    /// How many frames the block has.
    pub length: nat,
    /// How many frames have been handed out.
    pub position: nat,
}

impl<V> BlockView<V> {
    /// How many events have been consumed.
    pub open spec fn cursor(self) -> int {
        cursor_at(self.events, self.position)
    }

    /// The events consumed before the frame that comes next.
    pub open spec fn due(self) -> Seq<NoteEvent<V>> {
        self.events.subrange(self.cursor(), cursor_at(self.events, self.position + 1))
    }

    /// The block once the frame that comes next has been handed out.
    pub open spec fn advanced(self) -> BlockView<V> {
        BlockView { events: self.events, length: self.length, position: self.position + 1 }
    }
}

impl<'a, V> View for Block<'a, V> {
    type V = BlockView<V>;

    closed spec fn view(&self) -> BlockView<V> {
        BlockView {
            events: self.events@,
            length: self.length as nat,
            position: self.position as nat,
        }
    }
}

impl<'a, V> Block<'a, V> {
    #[verifier::type_invariant]
    spec fn consistent(&self) -> bool {
        &&& self.position <= self.length
        &&& self.cursor == cursor_at(self.events@, self.position as nat)
    }
}

impl<'a, V: Copy> Block<'a, V> {
    /// Starts a block of `length` frames with the given events.
    pub fn new(events: &'a [NoteEvent<V>], length: usize) -> (block: Block<'a, V>)
        ensures
            block@ == (BlockView { events: events@, length: length as nat, position: 0 }),
    {
        Block { events, cursor: 0, position: 0, length }
    }

    /// How many frames have been handed out.
    pub fn position(&self) -> (position: usize)
        ensures
            position == self@.position,
            position <= self@.length,
    {
        proof {
            use_type_invariant(self);
        }
        self.position
    }

    /// How many frames the block has.
    pub fn length(&self) -> (length: usize)
        ensures
            length == self@.length,
    {
        self.length
    }

    /// How many events have been consumed.
    pub fn consumed(&self) -> (consumed: usize)
        ensures
            consumed == self@.cursor(),
            consumed <= self@.events.len(),
    {
        proof {
            use_type_invariant(self);
            lemma_cursor_bounds(self.events@, self.position as nat);
        }
        self.cursor
    }

    /// Hands out the next frame, or `None` once the block is complete.
    ///
    /// Before the frame is handed out, the events due at it are consumed. With
    /// `use_midi` they are applied to `voice`, and the frame is driven by the
    /// voice; without it they are dropped, and the frame is driven manually.
    pub fn next_frame(&mut self, voice: &mut Voice, use_midi: bool) -> (frame: Option<Frame<V>>)
        ensures
            old(self)@.position >= old(self)@.length ==> frame is None && final(self)@ == old(self)@
                && final(voice)@ == old(voice)@,
            old(self)@.position < old(self)@.length ==> frame == Some(
                Frame {
                    index: old(self)@.position as usize,
                    drive: drive_of(use_midi, old(voice)@, old(self)@.due()),
                },
            ) && final(self)@ == old(self)@.advanced(),
            old(self)@.position < old(self)@.length && use_midi ==> final(voice)@ == note_after(
                old(voice)@,
                old(self)@.due(),
            ),
            old(self)@.position < old(self)@.length && !use_midi ==> final(voice)@ == old(voice)@,
    {
        proof {
            use_type_invariant(&*self);
            lemma_cursor_bounds(self.events@, self.position as nat);
        }
        if self.position >= self.length {
            return None;
        }
        let events = self.events;
        let index: usize = self.position;
        let start: usize = self.cursor;
        let ghost held = voice@;
        let mut cursor: usize = start;
        let mut retarget: Option<EnvelopeTarget<V>> = None;
        while cursor < events.len() && events[cursor].timing() as usize <= index
            invariant
                start <= cursor <= events@.len(),
                due_end(events@, cursor as int, index as int) == due_end(
                    events@,
                    start as int,
                    index as int,
                ),
                use_midi ==> voice@ == note_after(held, events@.subrange(start as int, cursor as int)),
                use_midi ==> retarget == retarget_after(
                    held,
                    events@.subrange(start as int, cursor as int),
                ),
                !use_midi ==> voice@ == held && retarget is None,
            decreases events@.len() - cursor,
        {
            proof {
                let run = events@.subrange(start as int, cursor + 1);
                assert(run.drop_last() == events@.subrange(start as int, cursor as int));
                assert(run.last() == events@[cursor as int]);
            }
            if use_midi {
                match voice.apply(&events[cursor]) {
                    Some(target) => {
                        retarget = Some(target);
                    },
                    None => {},
                }
            }
            cursor += 1;
        }
        let drive = if use_midi {
            Drive::Voice { note: voice.active_note(), retarget }
        } else {
            Drive::Manual
        };
        *self = Block { events, cursor, position: index + 1, length: self.length };
        Some(Frame { index, drive })
    }
}

/// The consumed events are always a prefix of the events.
pub proof fn lemma_cursor_bounds<V>(events: Seq<NoteEvent<V>>, frames: nat)
    ensures
        0 <= cursor_at(events, frames) <= events.len(),
    decreases frames,
{
    if frames > 0 {
        lemma_cursor_bounds(events, (frames - 1) as nat);
        lemma_due_end(events, cursor_at(events, (frames - 1) as nat), frames - 1);
    }
}

/// A run of due events ends inside the sequence, holds only events that are due,
/// and stops at the end of the sequence or before an event that is not due.
pub proof fn lemma_due_end<V>(events: Seq<NoteEvent<V>>, start: int, index: int)
    requires
        0 <= start <= events.len(),
    ensures
        start <= due_end(events, start, index) <= events.len(),
        forall|i: int|
            start <= i < due_end(events, start, index) ==> (#[trigger] events[i]).offset() <= index,
        due_end(events, start, index) < events.len() ==> events[due_end(
            events,
            start,
            index,
        )].offset() > index,
    decreases events.len() - start,
{
    if start < events.len() && events[start].offset() <= index {
        lemma_due_end(events, start + 1, index);
    }
}

/// Consumption never runs backward.
pub proof fn lemma_cursor_monotonic<V>(events: Seq<NoteEvent<V>>, earlier: nat, later: nat)
    requires
        earlier <= later,
    ensures
        cursor_at(events, earlier) <= cursor_at(events, later),
    decreases later,
{
    if earlier < later {
        lemma_cursor_monotonic(events, earlier, (later - 1) as nat);
        lemma_cursor_bounds(events, (later - 1) as nat);
        lemma_due_end(events, cursor_at(events, (later - 1) as nat), later - 1);
    }
}

/// No event is consumed before the frame of its offset, whatever the order of
/// the events.
pub proof fn lemma_never_early<V>(events: Seq<NoteEvent<V>>, frames: nat)
    ensures
        forall|i: int|
            0 <= i < cursor_at(events, frames) ==> (#[trigger] events[i]).offset() < frames,
    decreases frames,
{
    if frames > 0 {
        let before = cursor_at(events, (frames - 1) as nat);
        lemma_never_early(events, (frames - 1) as nat);
        lemma_cursor_bounds(events, (frames - 1) as nat);
        lemma_due_end(events, before, frames - 1);
    }
}

/// On events in ascending order of offset, no event is consumed after the frame
/// of its offset.
pub proof fn lemma_sorted_never_late<V>(events: Seq<NoteEvent<V>>, frames: nat)
    requires
        sorted_by_offset(events),
    ensures
        forall|i: int|
            0 <= i < events.len() && (#[trigger] events[i]).offset() < frames ==> i < cursor_at(
                events,
                frames,
            ),
{
    if frames > 0 {
        let before = cursor_at(events, (frames - 1) as nat);
        let end = cursor_at(events, frames);
        lemma_cursor_bounds(events, (frames - 1) as nat);
        lemma_due_end(events, before, frames - 1);
        assert forall|i: int|
            0 <= i < events.len() && (#[trigger] events[i]).offset() < frames implies i < end by {
            if i >= end {
                assert(events[end].offset() <= events[i].offset());
            }
        }
    }
}

/// On events in ascending order of offset, an event is consumed right before a
/// frame if and only if its offset is that frame: each event is applied at the
/// frame of its own offset, neither earlier nor later.
pub proof fn lemma_sorted_applied_at_offset<V>(events: Seq<NoteEvent<V>>, frame: nat, i: int)
    requires
        sorted_by_offset(events),
        0 <= i < events.len(),
    ensures
        cursor_at(events, frame) <= i < cursor_at(events, frame + 1) <==> events[i].offset()
            == frame,
{
    lemma_never_early(events, frame);
    lemma_never_early(events, frame + 1);
    lemma_sorted_never_late(events, frame);
    lemma_sorted_never_late(events, frame + 1);
}

/// On events in ascending order of offset that all lie inside the block, the
/// block consumes every event.
pub proof fn lemma_block_consumes_all<V>(events: Seq<NoteEvent<V>>, length: nat)
    requires
        sorted_by_offset(events),
        forall|i: int| 0 <= i < events.len() ==> (#[trigger] events[i]).offset() < length,
    ensures
        cursor_at(events, length) == events.len(),
{
    lemma_cursor_bounds(events, length);
    lemma_sorted_never_late(events, length);
    if cursor_at(events, length) < events.len() {
        assert(events[events.len() - 1].offset() < length);
    }
}

/// An event whose offset lies at or beyond the end of the block is never
/// consumed in it, and neither is any event behind it.
pub proof fn lemma_beyond_block_ignored<V>(events: Seq<NoteEvent<V>>, length: nat, i: int)
    requires
        0 <= i < events.len(),
        events[i].offset() >= length,
    ensures
        cursor_at(events, length) <= i,
{
    lemma_never_early(events, length);
}

/// The note that holds the voice once `frames` frames have been handed out, all
/// of them with the voice driving, on a voice that `active` held at the start of
/// the block.
pub open spec fn note_at<V>(active: Option<u8>, events: Seq<NoteEvent<V>>, frames: nat) -> Option<
    u8,
> {
    note_after(active, events.subrange(0, cursor_at(events, frames)))
}

/// Handing out one more frame applies the events due at it to the voice as the
/// frames before left it.
pub proof fn lemma_note_at_step<V>(active: Option<u8>, events: Seq<NoteEvent<V>>, frames: nat)
    ensures
        note_at(active, events, frames + 1) == note_after(
            note_at(active, events, frames),
            events.subrange(cursor_at(events, frames), cursor_at(events, frames + 1)),
        ),
{
    let from = cursor_at(events, frames);
    let to = cursor_at(events, frames + 1);
    lemma_cursor_bounds(events, frames);
    lemma_cursor_bounds(events, frames + 1);
    lemma_cursor_monotonic(events, frames, frames + 1);
    assert(events.subrange(0, to) == events.subrange(0, from) + events.subrange(from, to));
    lemma_note_after_concat(active, events.subrange(0, from), events.subrange(from, to));
}

/// Stealing inside a block: on events in ascending order of offset, from the
/// frame of a note-on up to the frame before the next note-on, the voice is held
/// by the note of that note-on.
pub proof fn lemma_steal_within_block<V>(
    active: Option<u8>,
    events: Seq<NoteEvent<V>>,
    on: int,
    frame: nat,
)
    requires
        sorted_by_offset(events),
        0 <= on < events.len(),
        events[on] is NoteOn,
        events[on].offset() <= frame,
        forall|later: int|
            on < later < events.len() && (#[trigger] events[later]).offset() <= frame ==> !(
            events[later] is NoteOn),
    ensures
        note_at(active, events, frame + 1) == Some(events[on]->NoteOn_note),
{
    let end = cursor_at(events, frame + 1);
    let seen = events.subrange(0, end);
    lemma_cursor_bounds(events, frame + 1);
    lemma_never_early(events, frame + 1);
    lemma_sorted_never_late(events, frame + 1);
    assert(on < end);
    assert forall|later: int| on < later < seen.len() implies !(#[trigger] seen[later] is NoteOn) by {
        assert(seen[later] == events[later]);
    }
    assert(seen[on] == events[on]);
    lemma_last_note_on_holds(active, seen, on);
}

} // verus!
