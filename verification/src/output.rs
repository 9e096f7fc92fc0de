//! Writing one rendered value into the output block.
//!
//! The source is mono: every channel receives the same value at the same
//! position, and nothing else in the block is touched.

use vstd::prelude::*;

verus! {

/// `channel` with `value` at `index`; a channel too short to have that position
/// is left as it is.
pub open spec fn written<S>(channel: Seq<S>, index: int, value: S) -> Seq<S> {
    if 0 <= index < channel.len() {
        channel.update(index, value)
    } else {
        channel
    }
}

/// Writes `value` at position `index` of every channel.
///
/// Each channel keeps its length and its other samples. The channels stay the
/// buffers they were: what is written lands in the caller's memory.
pub fn write_frame<S: Copy>(channels: &mut [&mut [S]], index: usize, value: S)
    ensures
        final(channels)@.len() == old(channels)@.len(),
        forall|c: int|
            0 <= c < old(channels)@.len() ==> (*#[trigger] final(channels)@[c])@ == written(
                (*old(channels)@[c])@,
                index as int,
                value,
            ),
        forall|c: int|
            0 <= c < old(channels)@.len() ==> final(#[trigger] final(channels)@[c])@
                == final(old(channels)@[c])@,
{
    let count: usize = channels.len();
    let mut c: usize = 0;
    while c < count
        invariant
            c <= count,
            count == channels@.len(),
            count == old(channels)@.len(),
            forall|k: int|
                0 <= k < c ==> (*#[trigger] channels@[k])@ == written(
                    (*old(channels)@[k])@,
                    index as int,
                    value,
                ),
            forall|k: int| c <= k < count ==> (*#[trigger] channels@[k])@ == (*old(channels)@[k])@,
            forall|k: int|
                0 <= k < count ==> final(#[trigger] channels@[k])@ == final(old(channels)@[k])@,
        decreases count - c,
    {
        if index < channels[c].len() {
            channels[c][index] = value;
        }
        c += 1;
    }
}

} // verus!
