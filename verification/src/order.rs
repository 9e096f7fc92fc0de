//! Putting the events of a block in ascending order of offset.
//!
//! The order is stable: events with the same offset keep their order of arrival.

use vstd::prelude::*;
use crate::block::sorted_by_offset;
use crate::event::NoteEvent;

verus! {

/// The events of `events` whose offset is `offset`, in their order.
pub open spec fn at_offset<V>(events: Seq<NoteEvent<V>>, offset: int) -> Seq<NoteEvent<V>>
    decreases events.len(),
{
    if events.len() == 0 {
        Seq::empty()
    } else if events.last().offset() == offset {
        at_offset(events.drop_last(), offset).push(events.last())
    } else {
        at_offset(events.drop_last(), offset)
    }
}

/// `sorted` holds the events of `given` in ascending order of offset, those
/// with the same offset in the order in which `given` holds them.
pub open spec fn stable_order_of<V>(sorted: Seq<NoteEvent<V>>, given: Seq<NoteEvent<V>>) -> bool {
    &&& sorted.len() == given.len()
    &&& sorted_by_offset(sorted)
    &&& forall|offset: int| #[trigger] at_offset(sorted, offset) == at_offset(given, offset)
}

/// Whether the events are in ascending order of offset.
pub fn is_sorted<V>(events: &[NoteEvent<V>]) -> (sorted: bool)
    ensures
        sorted == sorted_by_offset(events@),
{
    let count: usize = events.len();
    let mut i: usize = 1;
    while i < count
        invariant
            1 <= i,
            count == events@.len(),
            forall|a: int, b: int|
                0 <= a <= b < i && b < count ==> (#[trigger] events@[a]).offset() <= (
                #[trigger] events@[b]).offset(),
        decreases count - i,
    {
        if events[i - 1].timing() > events[i].timing() {
            return false;
        }
        i += 1;
    }
    true
}

/// Puts the events in ascending order of offset, keeping the order of arrival
/// among events with the same offset.
pub fn sort_by_offset<V: Copy>(events: &mut [NoteEvent<V>])
    ensures
        stable_order_of(final(events)@, old(events)@),
{
    let count: usize = events.len();
    let mut i: usize = 1;
    while i < count
        invariant
            1 <= i,
            count == events@.len(),
            count == old(events)@.len(),
            forall|a: int, b: int|
                0 <= a <= b < i && b < count ==> (#[trigger] events@[a]).offset() <= (
                #[trigger] events@[b]).offset(),
            forall|offset: int| #[trigger] at_offset(events@, offset) == at_offset(old(events)@, offset),
        decreases count - i,
    {
        let mut j: usize = i;
        while j > 0 && events[j - 1].timing() > events[j].timing()
            invariant
                j <= i < count,
                count == events@.len(),
                count == old(events)@.len(),
                forall|a: int, b: int|
                    0 <= a <= b <= i && a != j && b != j ==> (#[trigger] events@[a]).offset() <= (
                    #[trigger] events@[b]).offset(),
                forall|b: int|
                    j < b <= i ==> events@[j as int].offset() < (#[trigger] events@[b]).offset(),
                forall|offset: int| #[trigger]
                    at_offset(events@, offset) == at_offset(old(events)@, offset),
            decreases j,
        {
            let ghost before = events@;
            let moving = events[j];
            let passed = events[j - 1];
            events[j] = passed;
            events[j - 1] = moving;
            proof {
                assert(events@ == exchanged(before, j as int));
                assert forall|offset: int| #[trigger]
                    at_offset(events@, offset) == at_offset(old(events)@, offset) by {
                    lemma_exchange_keeps_at_offset(before, j as int, offset);
                }
            }
            j -= 1;
        }
        i += 1;
    }
}

/// `events` with the events at `at - 1` and `at` in each other's place.
spec fn exchanged<V>(events: Seq<NoteEvent<V>>, at: int) -> Seq<NoteEvent<V>> {
    events.update(at - 1, events[at]).update(at, events[at - 1])
}

/// Selecting the events at one offset from two runs joined selects them from
/// each and joins the results.
pub proof fn lemma_at_offset_concat<V>(
    first: Seq<NoteEvent<V>>,
    second: Seq<NoteEvent<V>>,
    offset: int,
)
    ensures
        at_offset(first + second, offset) == at_offset(first, offset) + at_offset(second, offset),
    decreases second.len(),
{
    if second.len() == 0 {
        assert(first + second == first);
    } else {
        assert((first + second).drop_last() == first + second.drop_last());
        assert((first + second).last() == second.last());
        lemma_at_offset_concat(first, second.drop_last(), offset);
    }
}

/// Two neighbours with different offsets can change places without changing,
/// for any offset, which events lie at it and in what order.
proof fn lemma_exchange_keeps_at_offset<V>(events: Seq<NoteEvent<V>>, at: int, offset: int)
    requires
        0 < at < events.len(),
        events[at - 1].offset() != events[at].offset(),
    ensures
        at_offset(exchanged(events, at), offset) == at_offset(events, offset),
{
    let head = events.subrange(0, at - 1);
    let tail = events.subrange(at + 1, events.len() as int);
    let pair = seq![events[at - 1], events[at]];
    let turned = seq![events[at], events[at - 1]];
    assert(events == head + pair + tail);
    assert(exchanged(events, at) == head + turned + tail);
    lemma_at_offset_concat(head + pair, tail, offset);
    lemma_at_offset_concat(head, pair, offset);
    lemma_at_offset_concat(head + turned, tail, offset);
    lemma_at_offset_concat(head, turned, offset);
    assert(at_offset(pair, offset) == at_offset(turned, offset)) by {
        reveal_with_fuel(at_offset, 3);
        assert(pair.drop_last() == seq![events[at - 1]]);
        assert(turned.drop_last() == seq![events[at]]);
        assert(seq![events[at - 1]].drop_last() == Seq::<NoteEvent<V>>::empty());
        assert(seq![events[at]].drop_last() == Seq::<NoteEvent<V>>::empty());
    }
}

/// Where the selection at an offset holds an event, the sequence holds an event
/// at that offset.
proof fn lemma_at_offset_witness<V>(events: Seq<NoteEvent<V>>, offset: int) -> (at: int)
    requires
        at_offset(events, offset).len() > 0,
    ensures
        0 <= at < events.len(),
        events[at].offset() == offset,
    decreases events.len(),
{
    if events.last().offset() == offset {
        events.len() - 1
    } else {
        lemma_at_offset_witness(events.drop_last(), offset)
    }
}

/// There is only one stable order: two sequences in ascending order of offset
/// that hold, at every offset, the same events in the same order are equal.
pub proof fn lemma_stable_order_unique<V>(one: Seq<NoteEvent<V>>, other: Seq<NoteEvent<V>>)
    requires
        sorted_by_offset(one),
        sorted_by_offset(other),
        one.len() == other.len(),
        forall|offset: int| #[trigger] at_offset(one, offset) == at_offset(other, offset),
    ensures
        one == other,
    decreases one.len(),
{
    if one.len() > 0 {
        let high = one.last().offset();
        let reach = other.last().offset();
        assert(at_offset(one, high).len() > 0);
        assert(at_offset(other, reach).len() > 0);
        assert(at_offset(other, high) == at_offset(one, high));
        assert(at_offset(one, reach) == at_offset(other, reach));
        let in_other = lemma_at_offset_witness(other, high);
        let in_one = lemma_at_offset_witness(one, reach);
        assert(other[in_other].offset() <= other[other.len() - 1].offset());
        assert(one[in_one].offset() <= one[one.len() - 1].offset());
        assert(high == reach);
        assert(one.last() == at_offset(one, high).last());
        assert(other.last() == at_offset(other, high).last());
        assert forall|offset: int| #[trigger]
            at_offset(one.drop_last(), offset) == at_offset(other.drop_last(), offset) by {
            assert(at_offset(one, offset) == at_offset(other, offset));
            if offset == high {
                assert(at_offset(one.drop_last(), offset) == at_offset(one, offset).drop_last());
                assert(at_offset(other.drop_last(), offset) == at_offset(other, offset).drop_last());
            }
        }
        assert(sorted_by_offset(one.drop_last())) by {
            assert forall|i: int, j: int| 0 <= i <= j < one.drop_last().len() implies (
            #[trigger] one.drop_last()[i]).offset() <= (#[trigger] one.drop_last()[j]).offset() by {
                assert(one[i].offset() <= one[j].offset());
            }
        }
        assert(sorted_by_offset(other.drop_last())) by {
            assert forall|i: int, j: int| 0 <= i <= j < other.drop_last().len() implies (
            #[trigger] other.drop_last()[i]).offset() <= (#[trigger] other.drop_last()[j]).offset() by {
                assert(other[i].offset() <= other[j].offset());
            }
        }
        lemma_stable_order_unique(one.drop_last(), other.drop_last());
        assert(one == one.drop_last().push(one.last()));
        assert(other == other.drop_last().push(other.last()));
    }
}

/// Events that are in ascending order of offset are their own stable order, so
/// that sorting them changes nothing.
pub proof fn lemma_sorted_stays<V>(sorted: Seq<NoteEvent<V>>, given: Seq<NoteEvent<V>>)
    requires
        sorted_by_offset(given),
        stable_order_of(sorted, given),
    ensures
        sorted == given,
{
    lemma_stable_order_unique(sorted, given);
}

} // verus!
