//! What the slots know of the past: the packets of the seconds just before the present one.
use vstd::prelude::*;

use crate::laws::lemma_sample_beside_update;
use crate::model::{
    empty_slot, empty_slots, oldest_counted, rate_of, sampled, sampled_acks, sampled_losses,
    seconds_since, slot_index, BrutalState, Slot, PKT_INFO_SLOT_COUNT,
};
use crate::time::NANOS_PER_SEC;

verus! {

/// What can happen to a packet.
pub enum Event {
    /// It was acknowledged, and the round trip time was known by then.
    Ack { now: nat, rtt: nat },
    /// It was lost.
    Loss { now: nat },
}

impl Event {
    /// The time of the event.
    pub open spec fn now(self) -> nat {
        match self {
            Event::Ack { now, .. } => now,
            Event::Loss { now } => now,
        }
    }

    /// Whether the packet was acknowledged.
    pub open spec fn acked(self) -> bool {
        self is Ack
    }
}

/// The controller after one event.
pub open spec fn after(state: BrutalState, event: Event) -> BrutalState {
    match event {
        Event::Ack { now, rtt } => state.after_ack(now, rtt),
        Event::Loss { now } => state.after_loss(now),
    }
}

/// The controller after a sequence of events.
pub open spec fn replay(state: BrutalState, events: Seq<Event>) -> BrutalState
    decreases events.len(),
{
    if events.len() == 0 {
        state
    } else {
        after(replay(state, events.drop_last()), events.last())
    }
}

/// No event is earlier than one before it.
pub open spec fn in_order(events: Seq<Event>) -> bool {
    forall|i: int, j: int|
        0 <= i <= j < events.len() ==> #[trigger] events[i].now() <= #[trigger] events[j].now()
}

/// How many of the packets of `events` were acknowledged, or lost, from the second `low`
/// up to but not in the second `high`. Seconds begin at `base`.
pub open spec fn packets(events: Seq<Event>, base: nat, acked: bool, low: int, high: int) -> nat
    decreases events.len(),
{
    if events.len() == 0 {
        0
    } else {
        let before = packets(events.drop_last(), base, acked, low, high);
        let second = seconds_since(base, events.last().now());
        if events.last().acked() == acked && low <= second < high {
            before + 1
        } else {
            before
        }
    }
}

proof fn lemma_packets_split(
    events: Seq<Event>,
    base: nat,
    acked: bool,
    low: int,
    mid: int,
    high: int,
)
    requires
        low <= mid <= high,
    ensures
        packets(events, base, acked, low, high) == packets(events, base, acked, low, mid)
            + packets(events, base, acked, mid, high),
    decreases events.len(),
{
    if events.len() > 0 {
        lemma_packets_split(events.drop_last(), base, acked, low, mid, high);
    }
}

proof fn lemma_no_negative_seconds(events: Seq<Event>, base: nat, acked: bool, t: int)
    requires
        t < 0,
    ensures
        packets(events, base, acked, t, t + 1) == 0,
    decreases events.len(),
{
    if events.len() > 0 {
        lemma_no_negative_seconds(events.drop_last(), base, acked, t);
    }
}

proof fn lemma_packets_push(
    events: Seq<Event>,
    event: Event,
    base: nat,
    acked: bool,
    low: int,
    high: int,
)
    ensures
        packets(events.push(event), base, acked, low, high) == packets(
            events,
            base,
            acked,
            low,
            high,
        ) + (if event.acked() == acked && low <= seconds_since(base, event.now()) < high {
            1nat
        } else {
            0nat
        }),
{
    assert(events.push(event).drop_last() =~= events);
}

/// The slot of the second `t` tells what became of the packets of `t`,
/// unless a later second has taken it over.
spec fn remembers(slot: Slot, events: Seq<Event>, base: nat, t: nat) -> bool {
    &&& t == slot.second ==> {
        &&& slot.acks == packets(events, base, true, t as int, t as int + 1)
        &&& slot.losses == packets(events, base, false, t as int, t as int + 1)
    }
    &&& t > slot.second ==> {
        &&& packets(events, base, true, t as int, t as int + 1) == 0
        &&& packets(events, base, false, t as int, t as int + 1) == 0
    }
}

/// The state of a controller that has seen `events`, the first of which came at `base`.
spec fn tracks(state: BrutalState, events: Seq<Event>, base: nat) -> bool {
    &&& state.base == Some(base)
    &&& state.slots.len() == PKT_INFO_SLOT_COUNT
    &&& state.second == seconds_since(base, events.last().now())
    &&& forall|t: nat| #[trigger]
        remembers(state.slots[slot_index(t)], events, base, t)
    &&& forall|j: int|
        0 <= j < PKT_INFO_SLOT_COUNT ==> {
            let slot = #[trigger] state.slots[j];
            &&& slot.second <= state.second
            &&& slot_index(slot.second) != j ==> slot == empty_slot()
        }
}

proof fn lemma_seconds_in_order(base: nat, a: nat, b: nat)
    requires
        a <= b,
    ensures
        seconds_since(base, a) <= seconds_since(base, b),
{
    if a > base {
        vstd::arithmetic::div_mod::lemma_div_is_ordered(
            a - base,
            b - base,
            NANOS_PER_SEC as int,
        );
    }
}

/// One event keeps the slots in step with the past.
proof fn lemma_tracks_after(state: BrutalState, events: Seq<Event>, base: nat, event: Event)
    requires
        events.len() > 0 ==> tracks(state, events, base) && events.last().now() <= event.now(),
        events.len() == 0 ==> state.base is None && state.slots == empty_slots() && base
            == event.now(),
    ensures
        tracks(after(state, event), events.push(event), base),
{
    let now = event.now();
    let acked = event.acked();
    let next = after(state, event);
    let all = events.push(event);
    let c = seconds_since(base, now);
    let k = slot_index(c);
    assert(all.drop_last() =~= events);
    if events.len() > 0 {
        lemma_seconds_in_order(base, events.last().now(), now);
    }
    assert(state.second_at(now) == c);
    assert(next.slots == state.slots.update(k, state.slots[k].counting(c, acked)));
    assert(remembers(state.slots[k], events, base, c)) by {
        if events.len() > 0 {
            assert(remembers(state.slots[slot_index(c)], events, base, c));
        }
    }
    assert(state.slots[k].second <= c);
    assert forall|t: nat| #[trigger] remembers(next.slots[slot_index(t)], all, base, t) by {
        if events.len() > 0 {
            assert(remembers(state.slots[slot_index(t)], events, base, t));
        }
        lemma_packets_push(events, event, base, true, t as int, t as int + 1);
        lemma_packets_push(events, event, base, false, t as int, t as int + 1);
        if events.len() == 0 {
            assert(state.slots[slot_index(t)] == empty_slot());
        }
    }
    assert forall|j: int| 0 <= j < PKT_INFO_SLOT_COUNT implies ({
        let slot = #[trigger] next.slots[j];
        &&& slot.second <= next.second
        &&& slot_index(slot.second) != j ==> slot == empty_slot()
    }) by {
        if events.len() > 0 {
            assert(state.slots[j].second <= state.second);
        }
    }
}

proof fn lemma_replay_tracks(start: BrutalState, events: Seq<Event>)
    requires
        events.len() > 0,
        in_order(events),
        start.base is None,
        start.slots == empty_slots(),
    ensures
        tracks(replay(start, events), events, events[0].now()),
    decreases events.len(),
{
    let before = events.drop_last();
    let base = events[0].now();
    assert(before.push(events.last()) =~= events);
    if before.len() > 0 {
        assert(in_order(before)) by {
            assert forall|i: int, j: int| 0 <= i <= j < before.len() implies #[trigger] before[i].now()
                <= #[trigger] before[j].now() by {
                assert(events[i].now() <= events[j].now());
            }
        }
        lemma_replay_tracks(start, before);
        assert(events[events.len() - 2].now() <= events[events.len() - 1].now());
        lemma_tracks_after(replay(start, before), before, base, events.last());
    } else {
        reveal_with_fuel(replay, 2);
        assert(replay(start, before) == start);
        lemma_tracks_after(start, before, base, events.last());
    }
}

/// What slot `j` adds to the sample at second `c` are the packets of the one second
/// among the last four that it stands for.
proof fn lemma_slot_of_second(state: BrutalState, events: Seq<Event>, base: nat, j: int, back: int)
    requires
        events.len() > 0,
        tracks(state, events, base),
        1 <= back <= 4,
        j == (state.second - back) % 5,
    ensures
        ({
            let t = state.second - back;
            let skip = slot_index(state.second);
            let oldest = oldest_counted(state.second);
            &&& packets(events, base, true, t, t + 1) == acks_of(state.slots, skip, oldest, j)
            &&& packets(events, base, false, t, t + 1) == losses_of(state.slots, skip, oldest, j)
        }),
{
    let c = state.second;
    let t = c - back;
    let slot = state.slots[j];
    assert(slot.second <= c);
    if t < 0 {
        lemma_no_negative_seconds(events, base, true, t);
        lemma_no_negative_seconds(events, base, false, t);
    } else {
        assert(slot_index(t as nat) == j);
        assert(remembers(state.slots[slot_index(t as nat)], events, base, t as nat));
    }
}

/// What slot `i` adds to the acknowledgements of a sample.
spec fn acks_of(slots: Seq<Slot>, skip: int, oldest: nat, i: int) -> nat {
    if sampled(slots, skip, oldest, i) {
        slots[i].acks
    } else {
        0
    }
}

/// What slot `i` adds to the losses of a sample.
spec fn losses_of(slots: Seq<Slot>, skip: int, oldest: nat, i: int) -> nat {
    if sampled(slots, skip, oldest, i) {
        slots[i].losses
    } else {
        0
    }
}

/// A sample is the sum of what its slots add.
proof fn lemma_sample_by_slot(slots: Seq<Slot>, skip: int, oldest: nat)
    ensures
        sampled_acks(slots, skip, oldest, 5) == acks_of(slots, skip, oldest, 0) + acks_of(
            slots,
            skip,
            oldest,
            1,
        ) + acks_of(slots, skip, oldest, 2) + acks_of(slots, skip, oldest, 3) + acks_of(
            slots,
            skip,
            oldest,
            4,
        ),
        sampled_losses(slots, skip, oldest, 5) == losses_of(slots, skip, oldest, 0) + losses_of(
            slots,
            skip,
            oldest,
            1,
        ) + losses_of(slots, skip, oldest, 2) + losses_of(slots, skip, oldest, 3) + losses_of(
            slots,
            skip,
            oldest,
            4,
        ),
{
    reveal_with_fuel(sampled_acks, 6);
    reveal_with_fuel(sampled_losses, 6);
}

/// The seconds before `c` have the places before that of `c`, going round.
proof fn lemma_place_before(c: nat, back: int)
    requires
        1 <= back <= 4,
    ensures
        (c - back) % 5 == (if slot_index(c) >= back {
            slot_index(c) - back
        } else {
            slot_index(c) - back + 5
        }),
        0 <= slot_index(c) < 5,
{
}

/// A sample beside the slot of the second `c` is the sum over the four seconds before.
proof fn lemma_sample_by_second(slots: Seq<Slot>, c: nat, oldest: nat)
    ensures
        ({
            let r = slot_index(c);
            &&& sampled_acks(slots, r, oldest, 5) == acks_of(slots, r, oldest, (c - 1) % 5)
                + acks_of(slots, r, oldest, (c - 2) % 5) + acks_of(slots, r, oldest, (c - 3) % 5)
                + acks_of(slots, r, oldest, (c - 4) % 5)
            &&& sampled_losses(slots, r, oldest, 5) == losses_of(slots, r, oldest, (c - 1) % 5)
                + losses_of(slots, r, oldest, (c - 2) % 5) + losses_of(
                slots,
                r,
                oldest,
                (c - 3) % 5,
            ) + losses_of(slots, r, oldest, (c - 4) % 5)
        }),
{
    let r = slot_index(c);
    lemma_sample_by_slot(slots, r, oldest);
    lemma_place_before(c, 1);
    lemma_place_before(c, 2);
    lemma_place_before(c, 3);
    lemma_place_before(c, 4);
    assert(acks_of(slots, r, oldest, r) == 0 && losses_of(slots, r, oldest, r) == 0);
    assert(r == 0 || r == 1 || r == 2 || r == 3 || r == 4);
}

/// The packets of four seconds are those of each of them.
proof fn lemma_packets_of_four(events: Seq<Event>, base: nat, acked: bool, c: int)
    ensures
        packets(events, base, acked, c - 4, c) == packets(events, base, acked, c - 1, c) + packets(
            events,
            base,
            acked,
            c - 2,
            c - 1,
        ) + packets(events, base, acked, c - 3, c - 2) + packets(
            events,
            base,
            acked,
            c - 4,
            c - 3,
        ),
{
    lemma_packets_split(events, base, acked, c - 4, c - 3, c);
    lemma_packets_split(events, base, acked, c - 3, c - 2, c);
    lemma_packets_split(events, base, acked, c - 2, c - 1, c);
}

/// The four slots beside the present one stand for the last four seconds.
proof fn lemma_sample_of_past(state: BrutalState, events: Seq<Event>, base: nat)
    requires
        events.len() > 0,
        tracks(state, events, base),
    ensures
        ({
            let c = state.second;
            &&& state.acks_beside(slot_index(c)) == packets(events, base, true, c - 4, c as int)
            &&& state.losses_beside(slot_index(c)) == packets(events, base, false, c - 4, c as int)
        }),
{
    let c = state.second;
    assert(state.slots.len() == 5);
    lemma_sample_by_second(state.slots, c, oldest_counted(c));
    lemma_packets_of_four(events, base, true, c as int);
    lemma_packets_of_four(events, base, false, c as int);
    lemma_slot_of_second(state, events, base, (c - 1) % 5, 1);
    lemma_slot_of_second(state, events, base, (c - 2) % 5, 2);
    lemma_slot_of_second(state, events, base, (c - 3) % 5, 3);
    lemma_slot_of_second(state, events, base, (c - 4) % 5, 4);
}

/// The ack rate is that of the sample beside the slot of the present second.
proof fn lemma_rate_follows_sample(state: BrutalState, event: Event)
    ensures
        ({
            let next = after(state, event);
            let i = slot_index(next.second);
            next.ack_rate == rate_of(
                next.acks_beside(i),
                next.losses_beside(i),
                next.config.min_ack_rate,
            )
        }),
{
}

/// The sample that the ack rate follows holds exactly the packets of the four whole seconds
/// before the second of the last event: no older packet counts, and none of those is missed.
pub proof fn law_sliding_window(start: BrutalState, events: Seq<Event>)
    requires
        events.len() > 0,
        in_order(events),
        start.base is None,
        start.slots == empty_slots(),
    ensures
        ({
            let base = events[0].now();
            let second = seconds_since(base, events.last().now());
            let acks = packets(events, base, true, second - 4, second as int);
            let losses = packets(events, base, false, second - 4, second as int);
            let state = replay(start, events);
            &&& state.second == second
            &&& state.acks_beside(slot_index(second)) == acks
            &&& state.losses_beside(slot_index(second)) == losses
            &&& state.ack_rate == rate_of(acks, losses, state.config.min_ack_rate)
        }),
{
    lemma_replay_tracks(start, events);
    lemma_sample_of_past(replay(start, events), events, events[0].now());
    lemma_rate_follows_sample(replay(start, events.drop_last()), events.last());
}

/// Every slot that has counted a packet stands at the place of its second.
pub open spec fn in_place(slots: Seq<Slot>) -> bool {
    &&& slots.len() == PKT_INFO_SLOT_COUNT
    &&& forall|i: int|
        0 <= i < PKT_INFO_SLOT_COUNT ==> {
            let slot = #[trigger] slots[i];
            (slot.acks == 0 && slot.losses == 0) || slot_index(slot.second) == i
        }
}

/// Whatever the order of the times, every slot that has counted a packet stands at the place
/// of its second, and the slot of the last event has counted it. That holds of a new
/// controller and after a transfer, and events keep it.
pub proof fn law_slots_in_place(start: BrutalState, events: Seq<Event>)
    requires
        in_place(start.slots),
    ensures
        in_place(empty_slots()),
        in_place(replay(start, events).slots),
        events.len() > 0 ==> {
            let state = replay(start, events);
            let slot = state.slots[slot_index(state.second)];
            &&& slot.second == state.second
            &&& events.last().acked() ==> slot.acks >= 1
            &&& !events.last().acked() ==> slot.losses >= 1
        },
    decreases events.len(),
{
    if events.len() > 0 {
        law_slots_in_place(start, events.drop_last());
        let before = replay(start, events.drop_last());
        let state = replay(start, events);
        let event = events.last();
        let k = slot_index(state.second);
        assert(state.slots == before.slots.update(
            k,
            before.slots[k].counting(state.second, event.acked()),
        ));
        assert forall|i: int| 0 <= i < PKT_INFO_SLOT_COUNT implies ({
            let slot = #[trigger] state.slots[i];
            (slot.acks == 0 && slot.losses == 0) || slot_index(slot.second) == i
        }) by {
            if i != k {
                assert(state.slots[i] == before.slots[i]);
            }
        }
    }
}

impl Event {
    /// The same event, `d` nanoseconds later.
    pub open spec fn delayed(self, d: nat) -> Event {
        match self {
            Event::Ack { now, rtt } => Event::Ack { now: now + d, rtt },
            Event::Loss { now } => Event::Loss { now: now + d },
        }
    }
}

/// The same controller on a clock that is `d` nanoseconds ahead.
pub open spec fn delayed(state: BrutalState, d: nat) -> BrutalState {
    BrutalState {
        base: match state.base {
            Some(base) => Some(base + d),
            None => None,
        },
        ..state
    }
}

/// Only the time since the first event matters: the same events, all later by the same span,
/// lead to the same controller, but for the time of its first event.
pub proof fn law_time_shift(start: BrutalState, events: Seq<Event>, d: nat)
    ensures
        replay(delayed(start, d), events.map_values(|event: Event| event.delayed(d))) == delayed(
            replay(start, events),
            d,
        ),
        start.base is None ==> delayed(start, d) == start,
    decreases events.len(),
{
    let late = events.map_values(|event: Event| event.delayed(d));
    if events.len() > 0 {
        let before = events.drop_last();
        law_time_shift(start, before, d);
        assert(late.drop_last() =~= before.map_values(|event: Event| event.delayed(d)));
        assert(late.last() == events.last().delayed(d));
        lemma_delayed_step(replay(start, before), events.last(), d);
    }
}

proof fn lemma_delayed_step(state: BrutalState, event: Event, d: nat)
    ensures
        after(delayed(state, d), event.delayed(d)) == delayed(after(state, event), d),
{
    let now = event.now();
    assert(delayed(state, d).second_at(now + d) == state.second_at(now));
    assert(after(delayed(state, d), event.delayed(d)) =~= delayed(after(state, event), d));
}

/// Of an acknowledgement and a loss at the same moment, it does not matter which comes first.
pub proof fn law_order_within_moment(state: BrutalState, now: nat, rtt: nat)
    requires
        state.slots.len() == PKT_INFO_SLOT_COUNT,
    ensures
        state.after_packet(now, true).after_packet(now, false) == state.after_packet(
            now,
            false,
        ).after_packet(now, true),
        state.after_ack(now, rtt).after_loss(now) == state.after_loss(now).after_ack(now, rtt),
{
    lemma_packets_commute(state, now);
    lemma_packets_commute(BrutalState { rtt, ..state }, now);
    assert((BrutalState { rtt, ..state.after_loss(now) }) == (BrutalState {
        rtt,
        ..state
    }).after_loss(now));
}

proof fn lemma_packets_commute(state: BrutalState, now: nat)
    requires
        state.slots.len() == PKT_INFO_SLOT_COUNT,
    ensures
        state.after_packet(now, true).after_packet(now, false) == state.after_packet(
            now,
            false,
        ).after_packet(now, true),
{
    let second = state.second_at(now);
    let i = slot_index(second);
    let one_way = state.after_packet(now, true);
    let other_way = state.after_packet(now, false);
    assert(one_way.second_at(now) == second && other_way.second_at(now) == second);
    assert(one_way.counted(now, false).slots =~= other_way.counted(now, true).slots);
}

/// A second event in the same second leaves the ack rate and the pace as they are, and a loss
/// also leaves the window: events of the running second take effect only in a later one.
pub proof fn law_same_second(state: BrutalState, first: Event, second: Event)
    requires
        state.slots.len() == PKT_INFO_SLOT_COUNT,
        after(state, first).second_at(second.now()) == after(state, first).second,
    ensures
        ({
            let once = after(state, first);
            let twice = after(once, second);
            &&& twice.ack_rate == once.ack_rate
            &&& twice.pacing_rate() == once.pacing_rate()
            &&& second is Loss ==> twice.window() == once.window()
        }),
{
    let once = after(state, first);
    let i = slot_index(once.second);
    lemma_rate_follows_sample(state, first);
    lemma_rate_follows_sample(once, second);
    lemma_sample_beside_update(
        once.slots,
        i,
        once.slots[i].counting(once.second, second.acked()),
        oldest_counted(once.second),
        5,
    );
}

} // verus!
