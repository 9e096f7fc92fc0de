//! The single voice: which note it holds, and what each event asks of its
//! envelope.
//!
//! The voice is monophonic with last-note priority. A note-on always takes the
//! voice over. A note-off or a pressure change counts only when it names the
//! note that holds the voice, so that releasing a key that was already stolen
//! from cannot silence the note that stole the voice.

use vstd::prelude::*;
use crate::event::NoteEvent;

verus! {

/// What the envelope is told to move toward.
#[derive(Debug, PartialEq)]
pub enum EnvelopeTarget<V> {
    /// Fade out to nothing.
    Silence,
    /// Move to the given level.
    Level(V),
}

impl<V: Copy> Clone for EnvelopeTarget<V> {
    fn clone(&self) -> (copy: Self)
        ensures
            copy == *self,
    {
        *self
    }
}

impl<V: Copy> Copy for EnvelopeTarget<V> {

}

/// The note holding the voice once `event` has been applied to a voice held by
/// `active`.
pub open spec fn next_note<V>(active: Option<u8>, event: NoteEvent<V>) -> Option<u8> {
    match event {
        NoteEvent::NoteOn { note, .. } => Some(note),
        _ => active,
    }
}

/// The envelope target that `event` sets on a voice held by `active`, or `None`
/// where the event leaves the envelope alone.
pub open spec fn retarget<V>(active: Option<u8>, event: NoteEvent<V>) -> Option<EnvelopeTarget<V>> {
    match event {
        NoteEvent::NoteOn { velocity, .. } => Some(EnvelopeTarget::Level(velocity)),
        NoteEvent::NoteOff { note, .. } => if active == Some(note) {
            Some(EnvelopeTarget::Silence)
        } else {
            None
        },
        NoteEvent::PolyPressure { note, pressure, .. } => if active == Some(note) {
            Some(EnvelopeTarget::Level(pressure))
        } else {
            None
        },
        NoteEvent::Other { .. } => None,
    }
}

/// The note holding the voice after `events` have been applied in order.
pub open spec fn note_after<V>(active: Option<u8>, events: Seq<NoteEvent<V>>) -> Option<u8>
    decreases events.len(),
{
    if events.len() == 0 {
        active
    } else {
        next_note(note_after(active, events.drop_last()), events.last())
    }
}

/// The envelope target in force after `events` have been applied in order: the
/// one set last, or `None` where no event set any.
pub open spec fn retarget_after<V>(active: Option<u8>, events: Seq<NoteEvent<V>>) -> Option<
    EnvelopeTarget<V>,
>
    decreases events.len(),
{
    if events.len() == 0 {
        None
    } else {
        match retarget(note_after(active, events.drop_last()), events.last()) {
            Some(target) => Some(target),
            None => retarget_after(active, events.drop_last()),
        }
    }
}

/// The state of the single voice.
#[derive(Clone, Copy, Debug, PartialEq, Eq)]
pub struct Voice {
    active: Option<u8>,
}

impl View for Voice {
    type V = Option<u8>;

    /// The note that holds the voice, or `None` while the voice is idle.
    closed spec fn view(&self) -> Option<u8> {
        self.active
    }
}

impl Voice {
    /// An idle voice.
    pub fn new() -> (voice: Voice)
        ensures
            voice@ == None::<u8>,
    {
        Voice { active: None }
    }

    /// Puts the voice back to idle.
    pub fn reset(&mut self)
        ensures
            final(self)@ == None::<u8>,
    {
        self.active = None;
    }

    /// The note that holds the voice, or `None` while the voice is idle.
    pub fn active_note(&self) -> (note: Option<u8>)
        ensures
            note == self@,
    {
        self.active
    }

    /// Whether `note` holds the voice.
    pub fn holds(&self, note: u8) -> (held: bool)
        ensures
            held <==> self@ == Some(note),
    {
        match self.active {
            Some(active) => active == note,
            None => false,
        }
    }

    /// Applies one event and returns the envelope target that it sets, if any.
    pub fn apply<V: Copy>(&mut self, event: &NoteEvent<V>) -> (change: Option<EnvelopeTarget<V>>)
        ensures
            final(self)@ == next_note(old(self)@, *event),
            change == retarget(old(self)@, *event),
    {
        match event {
            NoteEvent::NoteOn { note, velocity, .. } => {
                self.active = Some(*note);
                Some(EnvelopeTarget::Level(*velocity))
            },
            NoteEvent::NoteOff { note, .. } => {
                if self.holds(*note) {
                    Some(EnvelopeTarget::Silence)
                } else {
                    None
                }
            },
            NoteEvent::PolyPressure { note, pressure, .. } => {
                if self.holds(*note) {
                    Some(EnvelopeTarget::Level(*pressure))
                } else {
                    None
                }
            },
            NoteEvent::Other { .. } => None,
        }
    }
}

impl Default for Voice {
    fn default() -> (voice: Voice)
        ensures
            voice@ == None::<u8>,
    {
        Voice::new()
    }
}

/// Applying one run of events and then another is applying the two joined: for
/// the note that holds the voice.
pub proof fn lemma_note_after_concat<V>(
    active: Option<u8>,
    first: Seq<NoteEvent<V>>,
    second: Seq<NoteEvent<V>>,
)
    ensures
        note_after(active, first + second) == note_after(note_after(active, first), second),
    decreases second.len(),
{
    if second.len() == 0 {
        assert(first + second == first);
    } else {
        assert((first + second).drop_last() == first + second.drop_last());
        assert((first + second).last() == second.last());
        lemma_note_after_concat(active, first, second.drop_last());
    }
}

/// Applying one run of events and then another is applying the two joined: the
/// envelope target in force is the one that the second run set, or else the one
/// that the first run set.
pub proof fn lemma_retarget_after_concat<V>(
    active: Option<u8>,
    first: Seq<NoteEvent<V>>,
    second: Seq<NoteEvent<V>>,
)
    ensures
        retarget_after(active, first + second) == match retarget_after(
            note_after(active, first),
            second,
        ) {
            Some(target) => Some(target),
            None => retarget_after(active, first),
        },
    decreases second.len(),
{
    if second.len() == 0 {
        assert(first + second == first);
    } else {
        assert((first + second).drop_last() == first + second.drop_last());
        assert((first + second).last() == second.last());
        lemma_note_after_concat(active, first, second.drop_last());
        lemma_retarget_after_concat(active, first, second.drop_last());
    }
}

/// Last-note priority: the voice is held by the note of the last note-on, whatever
/// held it before and whatever other events came.
pub proof fn lemma_last_note_on_holds<V>(active: Option<u8>, events: Seq<NoteEvent<V>>, last: int)
    requires
        0 <= last < events.len(),
        events[last] is NoteOn,
        forall|later: int| last < later < events.len() ==> !(#[trigger] events[later] is NoteOn),
    ensures
        note_after(active, events) == Some(events[last]->NoteOn_note),
    decreases events.len(),
{
    if last < events.len() - 1 {
        assert(!(events[events.len() - 1] is NoteOn));
        lemma_last_note_on_holds(active, events.drop_last(), last);
    }
}

/// Events other than a note-on never change which note holds the voice.
pub proof fn lemma_without_note_on<V>(active: Option<u8>, events: Seq<NoteEvent<V>>)
    requires
        forall|i: int| 0 <= i < events.len() ==> !(#[trigger] events[i] is NoteOn),
    ensures
        note_after(active, events) == active,
    decreases events.len(),
{
    if events.len() > 0 {
        assert(!(events[events.len() - 1] is NoteOn));
        lemma_without_note_on(active, events.drop_last());
    }
}

/// The note-off guard: after any events, a note-off silences the envelope if it
/// names the note that holds the voice, and otherwise changes nothing.
pub proof fn lemma_note_off_guard<V>(
    active: Option<u8>,
    events: Seq<NoteEvent<V>>,
    timing: u32,
    note: u8,
)
    ensures
        ({
            let off = NoteEvent::<V>::NoteOff { timing, note };
            let held = note_after(active, events);
            &&& note_after(active, events.push(off)) == held
            &&& retarget_after(active, events.push(off)) == if held == Some(note) {
                Some(EnvelopeTarget::Silence)
            } else {
                retarget_after(active, events)
            }
        }),
{
    let off = NoteEvent::<V>::NoteOff { timing, note };
    assert(events.push(off).drop_last() == events);
    assert(events.push(off).last() == off);
}

/// The pressure guard: after any events, a pressure change sets the envelope
/// target if it names the note that holds the voice, and otherwise changes
/// nothing.
pub proof fn lemma_pressure_guard<V>(
    active: Option<u8>,
    events: Seq<NoteEvent<V>>,
    timing: u32,
    note: u8,
    pressure: V,
)
    ensures
        ({
            let touch = NoteEvent::PolyPressure { timing, note, pressure };
            let held = note_after(active, events);
            &&& note_after(active, events.push(touch)) == held
            &&& retarget_after(active, events.push(touch)) == if held == Some(note) {
                Some(EnvelopeTarget::Level(pressure))
            } else {
                retarget_after(active, events)
            }
        }),
{
    let touch = NoteEvent::PolyPressure { timing, note, pressure };
    assert(events.push(touch).drop_last() == events);
    assert(events.push(touch).last() == touch);
}

/// Stealing: a note-on takes the voice whatever held it, and sets the envelope
/// target to its velocity.
pub proof fn lemma_note_on_steals<V>(
    active: Option<u8>,
    events: Seq<NoteEvent<V>>,
    timing: u32,
    note: u8,
    velocity: V,
)
    ensures
        ({
            let on = NoteEvent::NoteOn { timing, note, velocity };
            &&& note_after(active, events.push(on)) == Some(note)
            &&& retarget_after(active, events.push(on)) == Some(EnvelopeTarget::Level(velocity))
        }),
{
    let on = NoteEvent::NoteOn { timing, note, velocity };
    assert(events.push(on).drop_last() == events);
    assert(events.push(on).last() == on);
}

/// A note that lost the voice cannot release it: after a note-on for `first` and
/// then one for `second`, a note-off silences the envelope only if it names
/// `second`; for any other note the envelope keeps the target that the second
/// note-on set.
pub proof fn lemma_stolen_note_cannot_release<V>(
    active: Option<u8>,
    first: u8,
    first_velocity: V,
    second: u8,
    second_velocity: V,
    released: u8,
    timings: (u32, u32, u32),
)
    ensures
        ({
            let events = seq![
                NoteEvent::NoteOn { timing: timings.0, note: first, velocity: first_velocity },
                NoteEvent::NoteOn { timing: timings.1, note: second, velocity: second_velocity },
                NoteEvent::NoteOff { timing: timings.2, note: released },
            ];
            &&& note_after(active, events) == Some(second)
            &&& retarget_after(active, events) == if released == second {
                Some(EnvelopeTarget::Silence)
            } else {
                Some(EnvelopeTarget::Level(second_velocity))
            }
        }),
{
    let on_first = NoteEvent::NoteOn { timing: timings.0, note: first, velocity: first_velocity };
    let on_second = NoteEvent::NoteOn { timing: timings.1, note: second, velocity: second_velocity };
    let events = seq![on_first, on_second, NoteEvent::NoteOff { timing: timings.2, note: released }];
    let prefix = seq![on_first].push(on_second);
    assert(events == prefix.push(NoteEvent::NoteOff { timing: timings.2, note: released }));
    lemma_note_on_steals(active, seq![on_first], timings.1, second, second_velocity);
    lemma_note_off_guard(active, prefix, timings.2, released);
}

} // verus!
