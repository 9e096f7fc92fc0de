//! Decision core of a monophonic, last-note-priority tone generator and of a
//! noise generator: which note events are due at a sample, what they do to the
//! single voice, which source drives the oscillator, and where a rendered value
//! lands in the output block.
//!
//! The crate holds no sample arithmetic. Levels and samples are type parameters,
//! so that the caller decides how they are represented and computes with them.

pub mod event;
pub mod voice;
pub mod block;
pub mod output;
pub mod order;
