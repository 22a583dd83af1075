//! What the results of the controller are in whole numbers, for every state.
//!
//! The statements here speak of bytes, nanoseconds, packets and units alone, and of no step
//! on the way to a result but the rounding to a nearest number, which has laws of its own.
use vstd::arithmetic::power2::{
    lemma_pow2_adds, lemma_pow2_pos, lemma_pow2_strictly_increases, lemma_pow2_unfold, pow2,
};
use vstd::prelude::*;

use crate::accuracy::{
    law_pace_formula, law_window_formula, lemma_beyond_range, lemma_seconds_in_range,
};
use crate::datum::{finite, limit_units, nearest, of_int, one_units, Datum};
use crate::history::{in_order, law_sliding_window, packets, replay, Event};
use crate::laws::lemma_share;
use crate::model::{
    empty_slots, flight, oldest_counted, pace, packets_held, rate_of, sampled, sampled_acks,
    sampled_losses, seconds_since, slot_index, BrutalState, ConfigState, Slot,
};
use crate::order::{lemma_of_int_finite, lemma_of_int_positive, lemma_of_small_int, lemma_seconds};
use crate::rounding::{
    lemma_floor, lemma_floor_unique, lemma_nearest_at_least, lemma_nearest_at_most,
    lemma_nearest_error, lemma_nearest_exact, lemma_nearest_ratio, lemma_pow2_le,
    lemma_pow2_values,
};
use crate::time::seconds;

verus! {

/// The integer part of a number of units, brought into the range of a `u64`.
pub open spec fn whole(units: nat) -> nat {
    if units / pow2(1074) > 0xFFFF_FFFF_FFFF_FFFF {
        0xFFFF_FFFF_FFFF_FFFF
    } else {
        units / pow2(1074)
    }
}

proof fn lemma_truncated_is_whole(units: nat)
    ensures
        rounded_units(units).truncated() == whole(units),
{
    if units >= limit_units() {
        lemma_beyond_range(units);
    }
}

/// The datum of a number of units, which is infinite beyond the range.
spec fn rounded_units(units: nat) -> Datum {
    if units >= limit_units() {
        Datum::Infinite { negative: false }
    } else {
        Datum::Finite { negative: false, units }
    }
}

/// The number of units that stands for a span of `nanos` nanoseconds in seconds.
pub open spec fn second_units(nanos: nat) -> nat {
    nearest(
        nearest(nanos / 1_000_000_000 * pow2(1074), 1) + nearest(
            nanos % 1_000_000_000 * pow2(1074),
            1_000_000_000,
        ),
        1,
    )
}

proof fn lemma_second_units(nanos: nat)
    requires
        0 < nanos,
        nanos / 1_000_000_000 <= u64::MAX,
    ensures
        seconds(nanos) == finite(second_units(nanos)),
        second_units(nanos) <= pow2(1139),
{
    let g: nat = 1_000_000_000;
    let o = one_units();
    let f = nanos % g;
    lemma_seconds_in_range(nanos);
    lemma_of_int_finite(nanos / g);
    lemma_pow2_values();
    lemma_pow2_pos(1074);
    lemma_of_small_int(f);
    lemma_of_small_int(g);
    assert(g * o > 0 && (f * o) * o * g == (f * o) * (g * o)) by (nonlinear_arith)
        requires
            g == 1_000_000_000,
            o > 0,
    ;
    lemma_nearest_ratio((f * o) * o, g * o, f * o, g);
    // The fraction is at most one.
    assert(f * o <= 1 * pow2(1074) * g) by (nonlinear_arith)
        requires
            f <= g,
            o == pow2(1074),
    ;
    lemma_nearest_at_most(f * o, g, 1, 1074);
    assert(1 * pow2(1074) == pow2(1074)) by (nonlinear_arith);
    lemma_pow2_strictly_increases(1074, 2098);
}

/// The window before its lower bound, each operation rounded once.
proof fn lemma_flight(target: nat, rtt: nat, rate: nat)
    requires
        target <= u64::MAX,
        0 < rtt,
        rtt / 1_000_000_000 <= u64::MAX,
        0 < rate,
    ensures
        flight(target, rtt, finite(rate)) == whole(
            nearest(
                nearest(
                    nearest(nearest(target * pow2(1074), 1) * second_units(rtt), pow2(1074)) * 2,
                    1,
                ) * pow2(1074),
                rate,
            ),
        ),
{
    let o = one_units();
    let t = nearest(target * o, 1);
    let s = second_units(rtt);
    lemma_of_int_finite(target);
    lemma_second_units(rtt);
    lemma_pow2_values();
    lemma_pow2_pos(1074);
    lemma_of_small_int(2);
    let u1 = nearest(t * s, o);
    lemma_pow2_adds(1138, 1139);
    lemma_pow2_adds(1203, 1074);
    assert(t * s <= 1 * pow2(1203) * o) by (nonlinear_arith)
        requires
            t <= pow2(1138),
            s <= pow2(1139),
            pow2(1138) * pow2(1139) == pow2(1203) * o,
    ;
    lemma_nearest_at_most(t * s, o, 1, 1203);
    lemma_pow2_strictly_increases(1203, 2098);
    assert(1 * pow2(1203) == pow2(1203) && 1 * pow2(1204) == pow2(1204)) by (nonlinear_arith);
    assert(of_int(target).product(seconds(rtt)) == finite(u1));
    let u2 = nearest(u1 * 2, 1);
    assert(u1 * (2 * o) * 1 == (u1 * 2) * o) by (nonlinear_arith);
    lemma_nearest_ratio(u1 * (2 * o), o, u1 * 2, 1);
    lemma_pow2_unfold(1204);
    assert(u1 * 2 <= 1 * pow2(1204) * 1);
    lemma_nearest_at_most(u1 * 2, 1, 1, 1204);
    lemma_pow2_strictly_increases(1204, 2098);
    assert(finite(u1).product(of_int(2)) == finite(u2));
    let u3 = nearest(u2 * o, rate);
    assert(finite(u2).quotient(finite(rate)) == rounded_units(u3));
    lemma_truncated_is_whole(u3);
}

/// The pace, each operation rounded once.
proof fn lemma_pace(target: nat, rate: nat)
    requires
        target <= u64::MAX,
        0 < rate,
    ensures
        pace(target, finite(rate)) == whole(
            nearest(nearest(nearest(target * pow2(1074), 1) * pow2(1074), rate) * 8, 1),
        ),
{
    let o = one_units();
    let t = nearest(target * o, 1);
    lemma_of_int_finite(target);
    lemma_pow2_values();
    lemma_pow2_pos(1074);
    lemma_of_small_int(8);
    let u1 = nearest(t * o, rate);
    let u2 = nearest(u1 * 8, 1);
    assert(u1 * (8 * o) * 1 == (u1 * 8) * o) by (nonlinear_arith);
    lemma_nearest_ratio(u1 * (8 * o), o, u1 * 8, 1);
    if u1 >= limit_units() {
        assert(1 * pow2(2098) * 1 <= u1 * 8);
        lemma_nearest_at_least(u1 * 8, 1, 1, 2098);
        assert(1 * pow2(2098) == pow2(2098)) by (nonlinear_arith);
        lemma_beyond_range(u2);
        assert(8 * o > 0);
    } else {
        assert(of_int(target).quotient(finite(rate)) == finite(u1));
        assert(finite(u1).product(of_int(8)) == rounded_units(u2));
        lemma_truncated_is_whole(u2);
    }
}

/// The congestion window is the bytes that the target bandwidth puts on the way in two round
/// trips, over the ack rate, to within one part in 2 to the power of 50 and one byte, up to
/// the limit of 64 bits. Where four packets are more than that, it is exactly four packets.
/// Nothing else of the state matters.
pub proof fn law_window(state: BrutalState, rate: nat)
    requires
        state.ack_rate == (Datum::Finite { negative: false, units: rate }),
        0 < rate <= pow2(1074),
        0 < state.rtt,
        state.rtt / 1_000_000_000 <= 0xFFFF_FFFF_FFFF_FFFF,
        state.config.target_bps <= 0xFFFF_FFFF_FFFF_FFFF,
        state.mtu <= 0xFFFF,
    ensures
        ({
            let num = 2 * state.config.target_bps * state.rtt * pow2(1074);
            let den = 1_000_000_000 * rate;
            let n: nat = 0x4_0000_0000_0000;
            &&& num < 4 * state.mtu * den ==> state.window() == 4 * state.mtu
            &&& num >= 4 * state.mtu * den ==> {
                &&& state.window() >= 4 * state.mtu
                &&& state.window() * den * n <= num * (n + 1)
                &&& state.window() == 0xFFFF_FFFF_FFFF_FFFF || num * (n - 1) < (state.window() + 1)
                    * den * n
            }
            &&& state.window() <= 0xFFFF_FFFF_FFFF_FFFF
        }),
{
    let num = 2 * state.config.target_bps * state.rtt * pow2(1074);
    let den = 1_000_000_000 * rate;
    let n: nat = 0x4_0000_0000_0000;
    let wanted = flight(state.config.target_bps, state.rtt, finite(rate));
    let least = 4 * state.mtu;
    law_window_formula(state.config.target_bps, state.rtt, rate);
    lemma_flight(state.config.target_bps, state.rtt, rate);
    assert(den > 0);
    if num < least * den {
        assert(wanted <= least) by (nonlinear_arith)
            requires
                wanted * den * n <= num * (n + 1),
                num < least * den,
                least <= 262140,
                n == 0x4_0000_0000_0000,
                den > 0,
        ;
    } else {
        assert(least * den * n <= num * (n + 1)) by (nonlinear_arith)
            requires
                num >= least * den,
        ;
        assert(wanted < least ==> (wanted + 1) * den * n <= (least + 1) * den * n)
            by (nonlinear_arith);
    }
}

/// The congestion window, rounding by rounding: that of the target, of the round trip time in
/// seconds, of their product, of its double and of the quotient by the ack rate.
pub proof fn law_window_roundings(state: BrutalState, rate: nat)
    requires
        state.ack_rate == (Datum::Finite { negative: false, units: rate }),
        0 < rate,
        0 < state.rtt,
        state.rtt / 1_000_000_000 <= 0xFFFF_FFFF_FFFF_FFFF,
        state.config.target_bps <= 0xFFFF_FFFF_FFFF_FFFF,
    ensures
        ({
            let target = nearest(state.config.target_bps * pow2(1074), 1);
            let bytes = nearest(target * second_units(state.rtt), pow2(1074));
            let wanted = whole(nearest(nearest(bytes * 2, 1) * pow2(1074), rate));
            &&& wanted >= 4 * state.mtu ==> state.window() == wanted
            &&& wanted <= 4 * state.mtu ==> state.window() == 4 * state.mtu
        }),
{
    lemma_flight(state.config.target_bps, state.rtt, rate);
}

/// As long as there is no round trip time the congestion window is the initial window,
/// or four packets where those are more.
pub proof fn law_window_without_rtt(state: BrutalState)
    requires
        state.rtt == 0,
    ensures
        state.config.initial_window >= 4 * state.mtu ==> state.window()
            == state.config.initial_window,
        state.config.initial_window <= 4 * state.mtu ==> state.window() == 4 * state.mtu,
{
}

/// The pacing rate is eight bits for each byte of the target bandwidth, over the ack rate,
/// to within one part in 2 to the power of 50 and one bit per second, up to the limit of
/// 64 bits. Nothing else of the state matters.
pub proof fn law_pacing_rate(state: BrutalState, rate: nat)
    requires
        state.ack_rate == (Datum::Finite { negative: false, units: rate }),
        0 < rate <= pow2(1074),
        state.config.target_bps <= 0xFFFF_FFFF_FFFF_FFFF,
    ensures
        ({
            let num = 8 * state.config.target_bps * pow2(1074);
            let n: nat = 0x4_0000_0000_0000;
            &&& state.pacing_rate() * rate * n <= num * (n + 1)
            &&& state.pacing_rate() == 0xFFFF_FFFF_FFFF_FFFF || num * (n - 1) < (
            state.pacing_rate() + 1) * rate * n
            &&& state.pacing_rate() <= 0xFFFF_FFFF_FFFF_FFFF
        }),
{
    law_pace_formula(state.config.target_bps, rate);
    lemma_pace(state.config.target_bps, rate);
}

/// The pacing rate, rounding by rounding: that of the target, of the quotient by the ack rate
/// and of eight times that.
pub proof fn law_pacing_rate_roundings(state: BrutalState, rate: nat)
    requires
        state.ack_rate == (Datum::Finite { negative: false, units: rate }),
        0 < rate,
        state.config.target_bps <= 0xFFFF_FFFF_FFFF_FFFF,
    ensures
        ({
            let target = nearest(state.config.target_bps * pow2(1074), 1);
            let bytes = nearest(target * pow2(1074), rate);
            state.pacing_rate() == whole(nearest(bytes * 8, 1))
        }),
{
    lemma_pace(state.config.target_bps, rate);
}

/// Where no packet at all gets through and there is no floor, the window and the pacing rate
/// are as large as 64 bits allow, unless nothing is to be sent in the first place.
pub proof fn law_nothing_gets_through(state: BrutalState)
    requires
        state.ack_rate == (Datum::Finite { negative: false, units: 0 }),
        state.mtu <= 0xFFFF,
        state.config.target_bps <= 0xFFFF_FFFF_FFFF_FFFF,
        state.rtt / 1_000_000_000 <= 0xFFFF_FFFF_FFFF_FFFF,
    ensures
        state.config.target_bps > 0 ==> state.pacing_rate() == 0xFFFF_FFFF_FFFF_FFFF,
        state.config.target_bps == 0 ==> state.pacing_rate() == 0,
        state.config.target_bps > 0 && state.rtt > 0 ==> state.window() == 0xFFFF_FFFF_FFFF_FFFF,
        state.config.target_bps == 0 && state.rtt > 0 ==> state.window() == 4 * state.mtu,
{
    let target = state.config.target_bps;
    let o = one_units();
    lemma_pow2_values();
    lemma_pow2_pos(1074);
    lemma_pow2_pos(2098);
    lemma_of_int_finite(target);
    lemma_of_small_int(0);
    lemma_of_small_int(2);
    lemma_of_small_int(8);
    assert(0 * o == 0 && 0 * pow2(0) == 0 && 0 * pow2(0) * o == 0) by (nonlinear_arith);
    if target > 0 {
        lemma_of_int_positive(target);
    }
    if state.rtt > 0 {
        let t = nearest(target * o, 1);
        let s = second_units(state.rtt);
        lemma_second_units(state.rtt);
        lemma_seconds(state.rtt);
        lemma_nearest_exact(0, 0, o);
        let u1 = nearest(t * s, o);
        if target > 0 {
            assert(1 * pow2(0) * o <= t * s) by (nonlinear_arith)
                requires
                    t >= o,
                    s >= 1,
                    pow2(0) == 1,
            ;
            lemma_nearest_at_least(t * s, o, 1, 0);
            assert(1 * pow2(0) == 1 && u1 * (2 * o) >= 1 * pow2(0) * o) by (nonlinear_arith)
                requires
                    pow2(0) == 1,
                    u1 >= 1,
            ;
            lemma_nearest_at_least(u1 * (2 * o), o, 1, 0);
        } else {
            assert(0 * s == 0 && 0 * (2 * o) == 0) by (nonlinear_arith);
        }
    }
}

/// A new controller has the configuration and the packet size that it was given, takes all
/// packets for acknowledged and a round trip for 100 milliseconds, and has counted nothing.
pub proof fn law_new_controller(config: ConfigState, mtu: nat)
    ensures
        ({
            let state = BrutalState::fresh(config, mtu);
            &&& state.config == config
            &&& state.mtu == mtu
            &&& state.minimum_window() == 4 * mtu
            &&& state.ack_rate == (Datum::Finite { negative: false, units: pow2(1074) })
            &&& state.rtt == 100_000_000
            &&& state.base is None
            &&& state.slots.len() == 5
            &&& forall|i: int|
                0 <= i < 5 ==> (#[trigger] state.slots[i]).acks == 0 && state.slots[i].losses == 0
        }),
{
}

/// To take over from another controller is to forget all packets and nothing else: the
/// configuration, the packet size and the round trip time stay, the ack rate is one again,
/// and the next event is the first one.
pub proof fn law_transfer_keeps(state: BrutalState)
    ensures
        state.reset().config == state.config,
        state.reset().mtu == state.mtu,
        state.reset().rtt == state.rtt,
        state.reset().minimum_window() == 4 * state.mtu,
        state.reset().ack_rate == (Datum::Finite { negative: false, units: pow2(1074) }),
        state.reset().base is None,
        state.reset().slots.len() == 5,
        forall|i: int|
            0 <= i < 5 ==> (#[trigger] state.reset().slots[i]).acks == 0
                && state.reset().slots[i].losses == 0,
{
}

/// An acknowledgement brings its round trip time, at any time and in any state,
/// and a loss leaves the last one. Neither changes the configuration or the packet size.
pub proof fn law_event_rtt(state: BrutalState, now: nat, rtt: nat)
    ensures
        state.after_ack(now, rtt).rtt == rtt,
        state.after_ack(now, rtt).config == state.config,
        state.after_ack(now, rtt).mtu == state.mtu,
        state.after_loss(now).rtt == state.rtt,
        state.after_loss(now).config == state.config,
        state.after_loss(now).mtu == state.mtu,
{
}

/// The round trip time of the last acknowledgement among `events`, or `start` if there is none.
pub open spec fn last_rtt(start: nat, events: Seq<Event>) -> nat
    decreases events.len(),
{
    if events.len() == 0 {
        start
    } else {
        match events.last() {
            Event::Ack { rtt, .. } => rtt,
            Event::Loss { .. } => last_rtt(start, events.drop_last()),
        }
    }
}

/// The round trip time of a controller is that of the last acknowledgement, whatever came
/// before or after it, or the one it began with. The configuration and the packet size are
/// those it began with.
pub proof fn law_last_rtt(start: BrutalState, events: Seq<Event>)
    ensures
        replay(start, events).rtt == last_rtt(start.rtt, events),
        replay(start, events).config == start.config,
        replay(start, events).mtu == start.mtu,
    decreases events.len(),
{
    if events.len() > 0 {
        law_last_rtt(start, events.drop_last());
    }
}

/// Events are counted by whole seconds since the first one, in five slots that take turns.
/// An event changes the slot of its second only: it adds its packet to what that slot has
/// counted in the same second, and forgets what the slot has counted in another one.
/// `c` is the second of an event at `now`; an event before the first one is in second zero.
pub proof fn law_packet_is_counted(state: BrutalState, now: nat, acked: bool, c: nat)
    requires
        state.slots.len() == 5,
        state.base is None ==> c == 0,
        state.base matches Some(first) ==> (now <= first ==> c == 0) && (now >= first ==> c
            * 1_000_000_000 <= now - first < (c + 1) * 1_000_000_000),
    ensures
        ({
            let next = state.after_packet(now, acked);
            let slot = state.slots[c as int % 5];
            &&& next.second == c
            &&& next.base == (match state.base {
                Some(first) => Some(first),
                None => Some(now),
            })
            &&& next.config == state.config
            &&& next.mtu == state.mtu
            &&& next.rtt == state.rtt
            &&& next.slots.len() == 5
            &&& forall|j: int|
                0 <= j < 5 && j != c as int % 5 ==> #[trigger] next.slots[j] == state.slots[j]
            &&& next.slots[c as int % 5].second == c
            &&& slot.second == c ==> {
                &&& next.slots[c as int % 5].acks == slot.acks + (if acked {
                    1int
                } else {
                    0
                })
                &&& next.slots[c as int % 5].losses == slot.losses + (if acked {
                    0int
                } else {
                    1
                })
            }
            &&& slot.second != c ==> {
                &&& next.slots[c as int % 5].acks == (if acked {
                    1nat
                } else {
                    0
                })
                &&& next.slots[c as int % 5].losses == (if acked {
                    0nat
                } else {
                    1
                })
            }
        }),
{
    assert(state.second_at(now) == c) by {
        match state.base {
            Some(first) => {
                if now > first {
                    lemma_floor_unique((now - first) as nat, 1_000_000_000, c);
                }
            },
            None => {},
        }
    }
}

/// An acknowledged or lost packet is all that an event brings, apart from the round trip time.
pub proof fn law_events_count_packets(state: BrutalState, now: nat, rtt: nat)
    ensures
        state.after_ack(now, rtt) == (BrutalState { rtt, ..state.after_packet(now, true) }),
        state.after_loss(now) == state.after_packet(now, false),
{
}

/// The number of units that stands for the share of `acks` packets in `total`.
pub open spec fn share_units(acks: nat, total: nat) -> nat {
    nearest(nearest(acks * pow2(1074), 1) * pow2(1074), nearest(total * pow2(1074), 1))
}

/// Whether `rate` is the ack rate of a sample of `acks` acknowledged and `losses` lost packets:
/// one where there are less than fifty of them, else the share of the acknowledged ones,
/// but not less than the floor.
pub open spec fn follows(rate: Datum, acks: nat, losses: nat, floor: Datum) -> bool {
    let share = share_units(acks, acks + losses);
    &&& acks + losses < 50 ==> rate == (Datum::Finite { negative: false, units: pow2(1074) })
    &&& acks + losses >= 50 ==> {
        &&& floor is Nan ==> rate == (Datum::Finite { negative: false, units: share })
        &&& floor matches Datum::Finite { negative, units } ==> {
            &&& negative || units <= share ==> rate == (Datum::Finite {
                negative: false,
                units: share,
            })
            &&& !negative && share < units ==> rate == floor
        }
    }
}

/// A sample of less than fifty packets is taken for a perfect one, whatever it holds. From
/// fifty packets on the rate is the share of the acknowledged ones, or the floor where that
/// is higher.
pub proof fn law_rate_follows_sample(acks: nat, losses: nat, floor: Datum)
    requires
        acks + losses <= 0xFFFF_FFFF_FFFF_FFFF,
    ensures
        follows(rate_of(acks, losses, floor), acks, losses, floor),
{
    if acks + losses >= 50 {
        lemma_share(acks, acks + losses);
        lemma_of_int_finite(acks);
        lemma_of_int_finite(acks + losses);
        lemma_of_int_positive(acks + losses);
        lemma_pow2_pos(1074);
    }
}

/// A sample of less than fifty packets is taken for a perfect one, whatever it holds.
pub proof fn law_small_sample(acks: nat, losses: nat, floor: Datum)
    requires
        acks + losses < 50,
    ensures
        rate_of(acks, losses, floor) == (Datum::Finite { negative: false, units: pow2(1074) }),
{
}

/// What slot `i` adds to the acknowledgements that count in second `c`: those that are at most
/// five seconds old, but for the slot of the present second.
pub open spec fn counted_acks(slots: Seq<Slot>, c: nat, i: int) -> nat {
    if i != c as int % 5 && slots[i].second + 5 >= c {
        slots[i].acks
    } else {
        0
    }
}

/// What slot `i` adds to the losses that count in second `c`.
pub open spec fn counted_losses(slots: Seq<Slot>, c: nat, i: int) -> nat {
    if i != c as int % 5 && slots[i].second + 5 >= c {
        slots[i].losses
    } else {
        0
    }
}

/// After every event, in whatever order the times come, the ack rate follows the slots
/// that are at most five seconds old, without the slot of the present second.
pub proof fn law_rate_after_packet(state: BrutalState, now: nat, acked: bool)
    requires
        state.slots.len() == 5,
        ({
            let next = state.after_packet(now, acked);
            let c = next.second;
            let s = next.slots;
            counted_acks(s, c, 0) + counted_acks(s, c, 1) + counted_acks(s, c, 2) + counted_acks(
                s,
                c,
                3,
            ) + counted_acks(s, c, 4) + counted_losses(s, c, 0) + counted_losses(s, c, 1)
                + counted_losses(s, c, 2) + counted_losses(s, c, 3) + counted_losses(s, c, 4)
                <= 0xFFFF_FFFF_FFFF_FFFF
        }),
    ensures
        ({
            let next = state.after_packet(now, acked);
            let c = next.second;
            let s = next.slots;
            follows(
                next.ack_rate,
                counted_acks(s, c, 0) + counted_acks(s, c, 1) + counted_acks(s, c, 2)
                    + counted_acks(s, c, 3) + counted_acks(s, c, 4),
                counted_losses(s, c, 0) + counted_losses(s, c, 1) + counted_losses(s, c, 2)
                    + counted_losses(s, c, 3) + counted_losses(s, c, 4),
                next.config.min_ack_rate,
            )
        }),
{
    let next = state.after_packet(now, acked);
    let c = next.second;
    let s = next.slots;
    let skip = slot_index(c);
    let oldest = oldest_counted(c);
    assert forall|i: int| 0 <= i < 5 implies #[trigger] sampled(s, skip, oldest, i) == (i
        != c as int % 5 && s[i].second + 5 >= c) by {}
    reveal_with_fuel(sampled_acks, 6);
    reveal_with_fuel(sampled_losses, 6);
    assert(sampled_acks(s, skip, oldest, 5) == counted_acks(s, c, 0) + counted_acks(s, c, 1)
        + counted_acks(s, c, 2) + counted_acks(s, c, 3) + counted_acks(s, c, 4));
    assert(sampled_losses(s, skip, oldest, 5) == counted_losses(s, c, 0) + counted_losses(s, c, 1)
        + counted_losses(s, c, 2) + counted_losses(s, c, 3) + counted_losses(s, c, 4));
    law_rate_follows_sample(
        sampled_acks(s, skip, oldest, 5),
        sampled_losses(s, skip, oldest, 5),
        next.config.min_ack_rate,
    );
}

/// The share of the acknowledged packets as a number is what it is as a ratio, to within one
/// part in 2 to the power of 50.
pub proof fn law_share(acks: nat, total: nat)
    requires
        acks <= total,
        0 < total <= 0xFFFF_FFFF_FFFF_FFFF,
    ensures
        ({
            let share = share_units(acks, total);
            let n: nat = 0x4_0000_0000_0000;
            &&& share * total * n <= acks * pow2(1074) * (n + 1)
            &&& acks * pow2(1074) * (n - 1) <= share * total * n
            &&& share <= pow2(1074)
        }),
{
    let o = pow2(1074);
    let a = nearest(acks * o, 1);
    let t = nearest(total * o, 1);
    let s = nearest(a * o, t);
    let e = pow2(53);
    let n: nat = 0x4_0000_0000_0000;
    lemma_pow2_values();
    lemma_pow2_pos(1074);
    lemma_share(acks, total);
    lemma_of_int_finite(acks);
    lemma_of_int_finite(total);
    lemma_of_int_positive(total);
    lemma_pow2_le(52, 1074);
    if acks == 0 {
        lemma_of_small_int(0);
        assert(0 * o == 0 && 0 * pow2(0) * t == 0 && 0 * pow2(0) == 0) by (nonlinear_arith);
        lemma_nearest_exact(0, 0, t);
        assert(0 * total == 0 && 0 * n == 0 && 0 * (n + 1) == 0 && 0 * (n - 1) == 0)
            by (nonlinear_arith);
        assert(0 * total * n == 0) by (nonlinear_arith);
    } else {
        lemma_of_int_positive(acks);
        assert(pow2(52) * 1 <= acks * o && pow2(52) * 1 <= total * o) by (nonlinear_arith)
            requires
                acks >= 1,
                total >= 1,
                pow2(52) <= o,
        ;
        lemma_nearest_error(acks * o, 1);
        lemma_nearest_error(total * o, 1);
        lemma_pow2_adds(52, 1138);
        lemma_pow2_adds(1074, 1074);
        lemma_pow2_le(1190, 2148);
        assert(pow2(52) * t <= a * o) by (nonlinear_arith)
            requires
                t <= pow2(1138),
                a >= o,
                pow2(52) * pow2(1138) <= o * o,
        ;
        lemma_nearest_error(a * o, t);
        lemma_share_bounds(acks, total, o, a, t, s, e, n);
    }
}

/// The errors of three roundings in a quotient.
proof fn lemma_share_bounds(
    acks: nat,
    total: nat,
    o: nat,
    a: nat,
    t: nat,
    s: nat,
    e: nat,
    n: nat,
)
    requires
        o > 0,
        e == 0x20_0000_0000_0000,
        n == 0x4_0000_0000_0000,
        a * 1 * e <= acks * o * (e + 1),
        acks * o * (e - 1) <= a * 1 * e,
        t * 1 * e <= total * o * (e + 1),
        total * o * (e - 1) <= t * 1 * e,
        s * t * e <= a * o * (e + 1),
        a * o * (e - 1) <= s * t * e,
    ensures
        s * total * n <= acks * o * (n + 1),
        acks * o * (n - 1) <= s * total * n,
{
    let x = s * total;
    let y = acks * o;
    // From above.
    assert(x * (e - 1) * e * o <= y * (e + 1) * (e + 1) * o) by {
        assert(s * (total * o * (e - 1)) * e <= s * (t * e) * e) by (nonlinear_arith)
            requires
                total * o * (e - 1) <= t * 1 * e,
        ;
        assert(s * (t * e) * e == (s * t * e) * e) by (nonlinear_arith);
        assert((s * t * e) * e <= (a * o * (e + 1)) * e) by (nonlinear_arith)
            requires
                s * t * e <= a * o * (e + 1),
        ;
        assert((a * o * (e + 1)) * e == (a * e) * (o * (e + 1))) by (nonlinear_arith);
        assert((a * e) * (o * (e + 1)) <= (y * (e + 1)) * (o * (e + 1))) by (nonlinear_arith)
            requires
                a * 1 * e <= y * (e + 1),
        ;
        assert((y * (e + 1)) * (o * (e + 1)) == y * (e + 1) * (e + 1) * o) by (nonlinear_arith);
        assert(s * (total * o * (e - 1)) * e == x * (e - 1) * e * o) by (nonlinear_arith)
            requires
                x == s * total,
        ;
    }
    assert(x * (e - 1) * e <= y * (e + 1) * (e + 1)) by (nonlinear_arith)
        requires
            x * (e - 1) * e * o <= y * (e + 1) * (e + 1) * o,
            o > 0,
    ;
    assert(x * n <= y * (n + 1)) by (nonlinear_arith)
        requires
            x * (e - 1) * e <= y * (e + 1) * (e + 1),
            e == 0x20_0000_0000_0000,
            n == 0x4_0000_0000_0000,
    ;
    // From below.
    assert(y * (e - 1) * (e - 1) * o <= x * (e + 1) * e * o) by {
        assert(s * (t * e) * e <= s * (total * o * (e + 1)) * e) by (nonlinear_arith)
            requires
                t * 1 * e <= total * o * (e + 1),
        ;
        assert(s * (t * e) * e == (s * t * e) * e) by (nonlinear_arith);
        assert((a * o * (e - 1)) * e <= (s * t * e) * e) by (nonlinear_arith)
            requires
                a * o * (e - 1) <= s * t * e,
        ;
        assert((a * o * (e - 1)) * e == (a * e) * (o * (e - 1))) by (nonlinear_arith);
        assert((y * (e - 1)) * (o * (e - 1)) <= (a * e) * (o * (e - 1))) by (nonlinear_arith)
            requires
                y * (e - 1) <= a * 1 * e,
                e >= 1,
        ;
        assert((y * (e - 1)) * (o * (e - 1)) == y * (e - 1) * (e - 1) * o) by (nonlinear_arith);
        assert(s * (total * o * (e + 1)) * e == x * (e + 1) * e * o) by (nonlinear_arith)
            requires
                x == s * total,
        ;
    }
    assert(y * (e - 1) * (e - 1) <= x * (e + 1) * e) by (nonlinear_arith)
        requires
            y * (e - 1) * (e - 1) * o <= x * (e + 1) * e * o,
            o > 0,
    ;
    assert(y * (n - 1) <= x * n) by (nonlinear_arith)
        requires
            y * (e - 1) * (e - 1) <= x * (e + 1) * e,
            e == 0x20_0000_0000_0000,
            n == 0x4_0000_0000_0000,
    ;
}

/// How many of the packets of `events` were acknowledged, or lost, from the time `low`
/// up to but not at the time `high`.
pub open spec fn packets_between(events: Seq<Event>, acked: bool, low: int, high: int) -> nat
    decreases events.len(),
{
    if events.len() == 0 {
        0
    } else {
        let before = packets_between(events.drop_last(), acked, low, high);
        match events.last() {
            Event::Ack { now, .. } => if acked && low <= now < high {
                before + 1
            } else {
                before
            },
            Event::Loss { now } => if !acked && low <= now < high {
                before + 1
            } else {
                before
            },
        }
    }
}

proof fn lemma_packets_between(events: Seq<Event>, base: nat, acked: bool, low: int, high: int)
    requires
        forall|i: int| 0 <= i < events.len() ==> base <= (#[trigger] events[i]).now(),
    ensures
        packets(events, base, acked, low, high) == packets_between(
            events,
            acked,
            base + low * 1_000_000_000,
            base + high * 1_000_000_000,
        ),
    decreases events.len(),
{
    if events.len() > 0 {
        let before = events.drop_last();
        assert forall|i: int| 0 <= i < before.len() implies base <= (
        #[trigger] before[i]).now() by {
            assert(before[i] == events[i]);
        }
        lemma_packets_between(before, base, acked, low, high);
        assert(base <= events[events.len() - 1].now());
        lemma_floor((events.last().now() - base) as nat, 1_000_000_000);
    }
}

/// The ack rate of a controller whose events came in the order of time follows the packets of
/// the four whole seconds before the present one, where seconds are counted from the first
/// event: no other packet has a say. `c` is the present second.
pub proof fn law_recent_packets(config: ConfigState, mtu: nat, events: Seq<Event>, c: nat)
    requires
        0 < events.len() <= 0xFFFF_FFFF_FFFF_FFFF,
        in_order(events),
        c * 1_000_000_000 <= events.last().now() - events[0].now() < (c + 1) * 1_000_000_000,
    ensures
        ({
            let low = events[0].now() + (c - 4) * 1_000_000_000;
            let high = events[0].now() + (c as int) * 1_000_000_000;
            follows(
                replay(BrutalState::fresh(config, mtu), events).ack_rate,
                packets_between(events, true, low, high),
                packets_between(events, false, low, high),
                config.min_ack_rate,
            )
        }),
{
    lemma_recent_packets(BrutalState::fresh(config, mtu), events, c);
}

/// The same holds of the events after a controller has taken over from another one:
/// what it had counted until then has no say either.
pub proof fn law_recent_packets_after_transfer(state: BrutalState, events: Seq<Event>, c: nat)
    requires
        0 < events.len() <= 0xFFFF_FFFF_FFFF_FFFF,
        in_order(events),
        c * 1_000_000_000 <= events.last().now() - events[0].now() < (c + 1) * 1_000_000_000,
    ensures
        ({
            let low = events[0].now() + (c - 4) * 1_000_000_000;
            let high = events[0].now() + (c as int) * 1_000_000_000;
            follows(
                replay(state.reset(), events).ack_rate,
                packets_between(events, true, low, high),
                packets_between(events, false, low, high),
                state.config.min_ack_rate,
            )
        }),
{
    lemma_recent_packets(state.reset(), events, c);
}

proof fn lemma_recent_packets(start: BrutalState, events: Seq<Event>, c: nat)
    requires
        start.base is None,
        start.slots == empty_slots(),
        0 < events.len() <= 0xFFFF_FFFF_FFFF_FFFF,
        in_order(events),
        c * 1_000_000_000 <= events.last().now() - events[0].now() < (c + 1) * 1_000_000_000,
    ensures
        ({
            let low = events[0].now() + (c - 4) * 1_000_000_000;
            let high = events[0].now() + (c as int) * 1_000_000_000;
            follows(
                replay(start, events).ack_rate,
                packets_between(events, true, low, high),
                packets_between(events, false, low, high),
                start.config.min_ack_rate,
            )
        }),
{
    let first = events[0].now();
    let low = first + (c - 4) * 1_000_000_000;
    let high = first + (c as int) * 1_000_000_000;
    assert forall|i: int| 0 <= i < events.len() implies first <= (#[trigger] events[i]).now() by {
        assert(events[0].now() <= events[i].now());
    }
    assert(first <= events[events.len() - 1].now());
    lemma_floor_unique((events.last().now() - first) as nat, 1_000_000_000, c);
    assert(seconds_since(first, events.last().now()) == c);
    law_sliding_window(start, events);
    law_last_rtt(start, events);
    lemma_packets_between(events, first, true, c - 4, c as int);
    lemma_packets_between(events, first, false, c - 4, c as int);
    lemma_no_more_than_events(events, low, high);
    law_rate_follows_sample(
        packets_between(events, true, low, high),
        packets_between(events, false, low, high),
        start.config.min_ack_rate,
    );
}

proof fn lemma_no_more_than_events(events: Seq<Event>, low: int, high: int)
    ensures
        packets_between(events, true, low, high) + packets_between(events, false, low, high)
            <= events.len(),
    decreases events.len(),
{
    if events.len() > 0 {
        lemma_no_more_than_events(events.drop_last(), low, high);
    }
}

/// The packets that a controller holds are those that its five slots have counted.
pub proof fn law_held(state: BrutalState)
    requires
        state.slots.len() == 5,
    ensures
        state.held() == state.slots[0].acks + state.slots[0].losses + state.slots[1].acks
            + state.slots[1].losses + state.slots[2].acks + state.slots[2].losses
            + state.slots[3].acks + state.slots[3].losses + state.slots[4].acks
            + state.slots[4].losses,
{
    reveal_with_fuel(packets_held, 6);
}

/// A span of time in seconds is its whole seconds and its fraction, each rounded once, and
/// so is their sum.
pub proof fn law_seconds_roundings(nanos: nat)
    requires
        nanos / 1_000_000_000 <= 0xFFFF_FFFF_FFFF_FFFF,
    ensures
        seconds(nanos) == (Datum::Finite { negative: false, units: second_units(nanos) }),
        nanos == 0 ==> second_units(nanos) == 0,
{
    if nanos > 0 {
        lemma_second_units(nanos);
    } else {
        let o = one_units();
        lemma_pow2_values();
        lemma_pow2_pos(1074);
        lemma_pow2_pos(2098);
        lemma_of_small_int(0);
        lemma_of_small_int(1_000_000_000);
        assert(0 * o == 0 && 0 * pow2(0) == 0 && 0 * pow2(0) * 1 == 0 && 0 * pow2(0)
            * 1_000_000_000 == 0) by (nonlinear_arith);
        assert(0 * pow2(0) * (1_000_000_000 * o) == 0 && 1_000_000_000 * o > 0)
            by (nonlinear_arith)
            requires
                o > 0,
        ;
        lemma_nearest_exact(0, 0, 1);
        lemma_nearest_exact(0, 0, 1_000_000_000);
        lemma_nearest_exact(0, 0, 1_000_000_000 * o);
    }
}

} // verus!
