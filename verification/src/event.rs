//! Timed note events as the host delivers them.

use vstd::prelude::*;

verus! {

/// A note event tagged with its sample offset inside the current block.
///
/// `V` is the type of a level (velocity or pressure); the crate never looks
/// inside one.
#[derive(Debug, PartialEq)]
pub enum NoteEvent<V> {
    /// A key went down.
    NoteOn { timing: u32, note: u8, velocity: V },
    /// A key was released.
    NoteOff { timing: u32, note: u8 },
    /// The pressure on a held key changed.
    PolyPressure { timing: u32, note: u8, pressure: V },
    /// Any other kind of event; it only occupies its place in the sequence.
    Other { timing: u32 },
}

impl<V: Copy> Clone for NoteEvent<V> {
    fn clone(&self) -> (copy: Self)
        ensures
            copy == *self,
    {
        *self
    }
}

impl<V: Copy> Copy for NoteEvent<V> {

}

impl<V> NoteEvent<V> {
    /// The sample offset of the event, as contracts speak of it.
    pub open spec fn offset(self) -> int {
        match self {
            NoteEvent::NoteOn { timing, .. } => timing as int,
            NoteEvent::NoteOff { timing, .. } => timing as int,
            NoteEvent::PolyPressure { timing, .. } => timing as int,
            NoteEvent::Other { timing } => timing as int,
        }
    }

    /// The sample offset of the event inside its block.
    pub fn timing(&self) -> (t: u32)
        ensures
            t == self.offset(),
    {
        match self {
            NoteEvent::NoteOn { timing, .. } => *timing,
            NoteEvent::NoteOff { timing, .. } => *timing,
            NoteEvent::PolyPressure { timing, .. } => *timing,
            NoteEvent::Other { timing } => *timing,
        }
    }
}

} // verus!
