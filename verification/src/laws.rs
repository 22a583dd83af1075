//! What holds of the controller in every state.
use vstd::arithmetic::power2::{lemma_pow2_adds, lemma_pow2_pos, pow2};
use vstd::prelude::*;

use crate::config::{bytes_per_second, lemma_constants};
use crate::datum::{finite, nearest, of_int, of_ratio, one, one_units, Datum};
use crate::history::{after, replay, Event};
use crate::model::{
    oldest_counted, pace, packets_held, rate_of, sampled_acks, sampled_losses, slot_index,
    BrutalState, ConfigState, Slot, MIN_SAMPLE_COUNT, PKT_INFO_SLOT_COUNT,
};
use crate::order::{
    lemma_greater_monotonic, lemma_of_int_finite, lemma_of_int_monotonic, lemma_of_int_positive,
    lemma_of_small_int, lemma_product_monotonic, lemma_quotient_antitone, lemma_rounded_monotonic,
    lemma_seconds, lemma_truncated_monotonic,
};
use crate::rounding::{
    lemma_floor_unique, lemma_nearest_exact, lemma_nearest_ratio, lemma_pow2_le, lemma_pow2_values,
};
use crate::time::seconds;

verus! {

/// The window is never below four packets, whatever has happened.
pub proof fn law_minimum_window(state: BrutalState)
    ensures
        state.window() >= 4 * state.mtu,
{
}

/// A larger MTU never makes the window smaller.
pub proof fn law_mtu_raises_window(state: BrutalState, mtu: nat)
    requires
        state.mtu <= mtu,
    ensures
        state.window() <= (BrutalState { mtu, ..state }).window(),
{
}

/// A lower ack rate never makes the window smaller or the pace slower:
/// the controller makes up for losses by sending more.
pub proof fn law_lower_rate_sends_more(state: BrutalState, lower: Datum)
    requires
        state.ack_rate is Finite,
        !state.ack_rate.negative(),
        lower is Finite,
        !lower.negative(),
        lower.at_most(state.ack_rate),
    ensures
        state.window() <= (BrutalState { ack_rate: lower, ..state }).window(),
        state.pacing_rate() <= (BrutalState { ack_rate: lower, ..state }).pacing_rate(),
{
    let a = lower->Finite_units;
    let b = state.ack_rate->Finite_units;
    let target = of_int(state.config.target_bps);
    lemma_of_int_monotonic(0, state.config.target_bps);
    lemma_seconds(state.rtt);
    lemma_pow2_values();
    lemma_of_small_int(2);
    lemma_of_small_int(8);
    let goal = target.product(seconds(state.rtt)).product(of_int(2));
    lemma_quotient_antitone(goal, a, b);
    lemma_truncated_monotonic(goal.quotient(state.ack_rate), goal.quotient(lower));
    lemma_quotient_antitone(target, a, b);
    lemma_pow2_adds(3, 1074);
    lemma_pow2_le(1077, 2098);
    vstd::arithmetic::power2::lemma2_to64();
    vstd::arithmetic::power2::lemma_pow2_strictly_increases(1077, 2098);
    lemma_pow2_pos(1074);
    lemma_product_monotonic(
        target.quotient(state.ack_rate),
        target.quotient(lower),
        8 * one_units(),
    );
    lemma_truncated_monotonic(
        target.quotient(state.ack_rate).product(of_int(8)),
        target.quotient(lower).product(of_int(8)),
    );
}

/// The share of acknowledged packets is a number from zero to one.
pub(crate) proof fn lemma_share(acks: nat, total: nat)
    requires
        acks <= total,
        0 < total <= u64::MAX,
    ensures
        ({
            let share = of_int(acks).quotient(of_int(total));
            &&& share is Finite
            &&& !share.negative()
            &&& share.at_most(one())
        }),
{
    lemma_of_int_finite(acks);
    lemma_of_int_finite(total);
    lemma_of_int_positive(total);
    lemma_of_int_monotonic(acks, total);
    lemma_pow2_pos(1074);
    lemma_pow2_values();
    vstd::arithmetic::power2::lemma_pow2_strictly_increases(1074, 2098);
    let u = of_int(acks)->Finite_units;
    let v = of_int(total)->Finite_units;
    assert(u * one_units() * 1 <= one_units() * v) by (nonlinear_arith)
        requires
            u <= v,
    ;
    lemma_rounded_monotonic(u * one_units(), v, one_units(), 1);
    lemma_nearest_exact(1, 1074, 1);
    assert(1 * one_units() * 1 == one_units() && 1 * one_units() == one_units())
        by (nonlinear_arith);
}

/// The ack rate of a sample is the datum nearest to the share of its acknowledged packets,
/// or the floor where that is higher.
pub proof fn law_rate_is_share(acks: nat, losses: nat, floor: Datum)
    requires
        50 <= acks + losses < pow2(53),
    ensures
        rate_of(acks, losses, floor) == of_ratio(acks, acks + losses).greater(floor),
{
    let total = acks + losses;
    let o = one_units();
    lemma_pow2_pos(1074);
    lemma_of_small_int(acks);
    lemma_of_small_int(total);
    assert(total * o > 0 && (acks * o) * o * total == (acks * o) * (total * o)) by (nonlinear_arith)
        requires
            total > 0,
            o > 0,
    ;
    lemma_nearest_ratio((acks * o) * o, total * o, acks * o, total);
}

/// With the acknowledged packets of a sample unchanged, more lost ones never raise the ack rate.
pub proof fn law_losses_lower_rate(acks: nat, losses: nat, more: nat, floor: Datum)
    requires
        floor is Nan || floor.at_most(one()),
        losses <= more,
        acks + more <= u64::MAX,
    ensures
        rate_of(acks, more, floor).at_most(rate_of(acks, losses, floor)),
{
    if acks + more >= MIN_SAMPLE_COUNT {
        lemma_share(acks, acks + more);
        if acks + losses >= MIN_SAMPLE_COUNT {
            let x = of_int(acks);
            lemma_of_int_finite(acks + losses);
            lemma_of_int_finite(acks + more);
            lemma_of_int_monotonic(0, acks);
            lemma_of_int_monotonic(acks + losses, acks + more);
            lemma_of_int_monotonic(0, acks + losses);
            lemma_quotient_antitone(
                x,
                of_int(acks + losses)->Finite_units,
                of_int(acks + more)->Finite_units,
            );
            lemma_share(acks, acks + losses);
            lemma_greater_monotonic(
                x.quotient(of_int(acks + more)),
                x.quotient(of_int(acks + losses)),
                floor,
            );
        }
    }
}

/// A sample without a loss has an ack rate of one.
pub proof fn law_sample_without_loss(acks: nat, floor: Datum)
    requires
        acks <= u64::MAX,
        floor is Nan || floor.at_most(one()),
    ensures
        rate_of(acks, 0, floor) == one(),
{
    if acks >= MIN_SAMPLE_COUNT {
        lemma_of_int_finite(acks);
        lemma_of_int_positive(acks);
        lemma_pow2_pos(1074);
        lemma_pow2_values();
        vstd::arithmetic::power2::lemma_pow2_strictly_increases(1074, 2098);
        let u = of_int(acks)->Finite_units;
        assert(u * one_units() * 1 == one_units() * u) by (nonlinear_arith);
        lemma_nearest_ratio(u * one_units(), u, one_units(), 1);
        lemma_nearest_exact(1, 1074, 1);
        assert(1 * one_units() * 1 == one_units() && 1 * one_units() == one_units())
            by (nonlinear_arith);
    }
}

/// The rate of a sample is a number from zero to one that is not below its floor.
pub(crate) proof fn lemma_rate_in_range(acks: nat, losses: nat, floor: Datum)
    requires
        acks + losses <= u64::MAX,
        floor is Nan || (of_ratio(1, 10).at_most(floor) && floor.at_most(one())),
    ensures
        ({
            let rate = rate_of(acks, losses, floor);
            &&& rate is Finite
            &&& !rate.negative()
            &&& rate.at_most(one())
            &&& floor is Nan || (floor.at_most(rate) && rate.position() > 0)
        }),
{
    lemma_constants();
    lemma_pow2_pos(1074);
    vstd::arithmetic::power2::lemma_pow2_strictly_increases(1074, 2098);
    if acks + losses >= MIN_SAMPLE_COUNT {
        lemma_share(acks, acks + losses);
    }
    assert(0 <= nearest(1 * one_units(), 10));
}

/// With the acknowledged packets of the sample unchanged, more lost ones never make the window
/// smaller or the pace slower.
pub proof fn law_losses_send_more(state: BrutalState, acks: nat, losses: nat, more: nat)
    requires
        state.config.valid(),
        losses <= more,
        acks + more <= u64::MAX,
    ensures
        ({
            let floor = state.config.min_ack_rate;
            let fewer_lost = BrutalState { ack_rate: rate_of(acks, losses, floor), ..state };
            let more_lost = BrutalState { ack_rate: rate_of(acks, more, floor), ..state };
            &&& fewer_lost.window() <= more_lost.window()
            &&& fewer_lost.pacing_rate() <= more_lost.pacing_rate()
        }),
{
    let floor = state.config.min_ack_rate;
    law_losses_lower_rate(acks, losses, more, floor);
    lemma_rate_in_range(acks, losses, floor);
    lemma_rate_in_range(acks, more, floor);
    law_lower_rate_sends_more(
        BrutalState { ack_rate: rate_of(acks, losses, floor), ..state },
        rate_of(acks, more, floor),
    );
}

/// A new controller has a valid ack rate, if its configuration has a valid floor.
pub proof fn law_fresh_is_valid(config: ConfigState, mtu: nat)
    requires
        config.valid(),
    ensures
        BrutalState::fresh(config, mtu).valid(),
{
    lemma_pow2_pos(1074);
}

/// Every event keeps the ack rate between its floor and one.
pub proof fn law_events_keep_valid(state: BrutalState, event: Event)
    requires
        state.valid(),
        state.has_room(event.now(), event.acked()),
    ensures
        after(state, event).valid(),
{
    let i = slot_index(state.second_at(event.now()));
    let next = state.counted(event.now(), event.acked());
    lemma_rate_in_range(next.acks_beside(i), next.losses_beside(i), state.config.min_ack_rate);
    let seen = after(state, event);
    assert(seen.ack_rate == rate_of(
        next.acks_beside(i),
        next.losses_beside(i),
        state.config.min_ack_rate,
    ));
}

/// A transfer and a change of the MTU keep the ack rate valid too.
pub proof fn law_changes_keep_valid(state: BrutalState, mtu: nat)
    requires
        state.valid(),
    ensures
        state.reset().valid(),
        (BrutalState { mtu, ..state }).valid(),
{
    lemma_pow2_pos(1074);
}

/// A transfer leaves a controller that is like a new one, but for the round trip time.
pub proof fn law_transfer_starts_over(state: BrutalState)
    ensures
        state.reset() == (BrutalState {
            rtt: state.rtt,
            ..BrutalState::fresh(state.config, state.mtu)
        }),
{
}

/// After a transfer nothing is left of what happened before, but for the round trip time.
pub proof fn law_transfer_forgets(state: BrutalState, events: Seq<Event>)
    ensures
        replay(state, events).reset() == (BrutalState {
            rtt: replay(state, events).rtt,
            ..state.reset()
        }),
    decreases events.len(),
{
    if events.len() > 0 {
        law_transfer_forgets(state, events.drop_last());
    }
}

/// Where all packets get through, the pace in bits is exactly the target in bytes.
pub proof fn law_pace_at_full_rate(state: BrutalState)
    requires
        state.ack_rate == one(),
        state.config.target_bps < pow2(53),
    ensures
        state.pacing_rate() == 8 * state.config.target_bps,
{
    let t = state.config.target_bps;
    lemma_pow2_values();
    vstd::arithmetic::power2::lemma2_to64();
    lemma_pow2_pos(1074);
    lemma_of_small_int(t);
    lemma_of_small_int(8);
    let u = t * one_units();
    // Dividing by one changes nothing.
    lemma_nearest_exact(t, 1074, one_units());
    assert(of_int(t).quotient(one()) == finite(u));
    // Eight times as much still fits.
    let v = 8 * t * one_units();
    lemma_pow2_adds(3, 1074);
    lemma_nearest_exact(t, 1077, one_units());
    assert(t * pow2(1077) == v && t * pow2(1077) * one_units() == u * (8 * one_units()))
        by (nonlinear_arith)
        requires
            u == t * one_units(),
            v == 8 * t * one_units(),
            pow2(1077) == 8 * one_units(),
    ;
    lemma_pow2_adds(53, 1077);
    lemma_pow2_le(1130, 2098);
    assert(v < pow2(1130)) by (nonlinear_arith)
        requires
            v == 8 * t * one_units(),
            t < pow2(53),
            pow2(1130) == pow2(53) * (8 * one_units()),
            one_units() > 0,
    ;
    assert(finite(u).product(of_int(8)) == finite(v));
    assert((8 * t + 1) * one_units() == 8 * t * one_units() + one_units()) by (nonlinear_arith);
    lemma_floor_unique(v, one_units(), 8 * t);
}

/// A new controller paces at the bandwidth that it was configured for.
pub proof fn law_new_controller_paces_at_target(config: ConfigState, mbps: nat, mtu: nat)
    requires
        config.target_bps == bytes_per_second(mbps),
        config.target_bps < pow2(53),
    ensures
        BrutalState::fresh(config, mtu).pacing_rate() == mbps * 1_000_000,
{
    law_pace_at_full_rate(BrutalState::fresh(config, mtu));
}

/// Events leave the configuration and the MTU alone.
pub proof fn law_events_keep_configuration(state: BrutalState, events: Seq<Event>)
    ensures
        replay(state, events).config == state.config,
        replay(state, events).mtu == state.mtu,
    decreases events.len(),
{
    if events.len() > 0 {
        law_events_keep_configuration(state, events.drop_last());
    }
}

proof fn lemma_sample_is_held(slots: Seq<Slot>, skip: int, oldest: nat, n: nat)
    ensures
        sampled_acks(slots, skip, oldest, n) + sampled_losses(slots, skip, oldest, n)
            <= packets_held(slots, n),
    decreases n,
{
    if n > 0 {
        lemma_sample_is_held(slots, skip, oldest, (n - 1) as nat);
    }
}

proof fn lemma_slot_is_held(slots: Seq<Slot>, i: int, n: nat)
    requires
        0 <= i < n,
    ensures
        slots[i].acks + slots[i].losses <= packets_held(slots, n),
    decreases n,
{
    if i < n - 1 {
        lemma_slot_is_held(slots, i, (n - 1) as nat);
    }
}

pub(crate) proof fn lemma_sample_beside_update(slots: Seq<Slot>, i: int, slot: Slot, oldest: nat, n: nat)
    requires
        0 <= i < slots.len(),
        n <= slots.len(),
    ensures
        sampled_acks(slots.update(i, slot), i, oldest, n) == sampled_acks(slots, i, oldest, n),
        sampled_losses(slots.update(i, slot), i, oldest, n) == sampled_losses(slots, i, oldest, n),
    decreases n,
{
    if n > 0 {
        lemma_sample_beside_update(slots, i, slot, oldest, (n - 1) as nat);
    }
}

proof fn lemma_held_after_update(slots: Seq<Slot>, i: int, slot: Slot, n: nat)
    requires
        0 <= i < slots.len(),
        n <= slots.len(),
    ensures
        packets_held(slots.update(i, slot), n) == packets_held(slots, n) + (if i < n {
            slot.acks + slot.losses - slots[i].acks - slots[i].losses
        } else {
            0
        }),
    decreases n,
{
    if n > 0 {
        lemma_held_after_update(slots, i, slot, (n - 1) as nat);
    }
}

/// A controller that holds fewer than the greatest 64-bit number of packets has room for
/// another one at any time, and an event adds at most one.
pub proof fn law_room(state: BrutalState, event: Event)
    requires
        state.slots.len() == PKT_INFO_SLOT_COUNT,
    ensures
        state.held() < u64::MAX ==> state.has_room(event.now(), event.acked()),
        after(state, event).held() <= state.held() + 1,
{
    let second = state.second_at(event.now());
    let i = slot_index(second);
    let slot = state.slots[i].counting(second, event.acked());
    let oldest = oldest_counted(second);
    lemma_slot_is_held(state.slots, i, 5);
    lemma_sample_beside_update(state.slots, i, slot, oldest, 5);
    lemma_sample_is_held(state.slots, i, oldest, 5);
    lemma_held_after_update(state.slots, i, slot, 5);
}

/// The packets of the present second do not count yet: whether a packet was acknowledged or
/// lost makes no difference to the ack rate, the window and the pace before the next second.
pub proof fn law_present_second_does_not_count(state: BrutalState, now: nat)
    requires
        state.slots.len() == PKT_INFO_SLOT_COUNT,
    ensures
        ({
            let acked = state.after_packet(now, true);
            let lost = state.after_packet(now, false);
            &&& acked.ack_rate == lost.ack_rate
            &&& acked.window() == lost.window()
            &&& acked.pacing_rate() == lost.pacing_rate()
        }),
{
    let second = state.second_at(now);
    let i = slot_index(second);
    let oldest = oldest_counted(second);
    lemma_sample_beside_update(state.slots, i, state.slots[i].counting(second, true), oldest, 5);
    lemma_sample_beside_update(state.slots, i, state.slots[i].counting(second, false), oldest, 5);
}

/// Every controller that is reached from a new one by events has an ack rate between its
/// floor and one.
pub proof fn law_reached_is_valid(config: ConfigState, mtu: nat, events: Seq<Event>)
    requires
        config.valid(),
        events.len() <= u64::MAX,
    ensures
        replay(BrutalState::fresh(config, mtu), events).valid(),
        replay(BrutalState::fresh(config, mtu), events).held() <= events.len(),
    decreases events.len(),
{
    let start = BrutalState::fresh(config, mtu);
    if events.len() == 0 {
        reveal_with_fuel(packets_held, 6);
        law_fresh_is_valid(config, mtu);
    } else {
        law_reached_is_valid(config, mtu, events.drop_last());
        let before = replay(start, events.drop_last());
        law_room(before, events.last());
        law_events_keep_valid(before, events.last());
    }
}

/// `bold` and `shy` have seen the same, but `bold` has no higher floor of the ack rate.
/// A NaN is no floor at all.
pub open spec fn bolder(bold: BrutalState, shy: BrutalState) -> bool {
    let low = bold.config.min_ack_rate;
    &&& bold.valid()
    &&& shy.valid()
    &&& low is Nan || low.at_most(shy.config.min_ack_rate)
    &&& bold.ack_rate.at_most(shy.ack_rate)
    &&& bold == BrutalState {
        config: ConfigState { min_ack_rate: low, ..shy.config },
        ack_rate: bold.ack_rate,
        ..shy
    }
}

/// Of two controllers that have seen the same, the one with the lower floor has no smaller
/// window and no slower pace.
pub proof fn law_bolder_sends_more(bold: BrutalState, shy: BrutalState)
    requires
        bolder(bold, shy),
    ensures
        shy.window() <= bold.window(),
        shy.pacing_rate() <= bold.pacing_rate(),
{
    law_lower_rate_sends_more(shy, bold.ack_rate);
}

/// Whatever happens to both of two controllers, a change of the MTU and a transfer too,
/// the one with the lower floor stays the bolder one.
pub proof fn law_bolder_stays_bolder(bold: BrutalState, shy: BrutalState, event: Event, mtu: nat)
    requires
        bolder(bold, shy),
    ensures
        shy.has_room(event.now(), event.acked()) ==> bolder(after(bold, event), after(shy, event)),
        bolder(BrutalState { mtu, ..bold }, BrutalState { mtu, ..shy }),
        bolder(bold.reset(), shy.reset()),
{
    law_changes_keep_valid(bold, mtu);
    law_changes_keep_valid(shy, mtu);
    let now = event.now();
    let acked = event.acked();
    if shy.has_room(now, acked) {
        let i = slot_index(shy.second_at(now));
        let acks = shy.counted(now, acked).acks_beside(i);
        let losses = shy.counted(now, acked).losses_beside(i);
        let low = bold.config.min_ack_rate;
        let high = shy.config.min_ack_rate;
        assert(bold.counted(now, acked).slots == shy.counted(now, acked).slots);
        assert(bold.has_room(now, acked));
        law_events_keep_valid(bold, event);
        law_events_keep_valid(shy, event);
        if acks + losses >= MIN_SAMPLE_COUNT {
            lemma_share(acks, acks + losses);
        }
        assert(after(bold, event).ack_rate == rate_of(acks, losses, low));
        assert(after(shy, event).ack_rate == rate_of(acks, losses, high));
    }
}

/// A lower floor compensates more for losses: two new controllers whose configurations differ
/// only in the floor see the same events, and the one with the lower floor then has no smaller
/// window and no slower pace.
pub proof fn law_lower_floor_sends_more(
    config: ConfigState,
    lower: Datum,
    mtu: nat,
    events: Seq<Event>,
)
    requires
        config.valid(),
        (ConfigState { min_ack_rate: lower, ..config }).valid(),
        lower is Nan || lower.at_most(config.min_ack_rate),
        events.len() <= u64::MAX,
    ensures
        ({
            let bold = replay(
                BrutalState::fresh(ConfigState { min_ack_rate: lower, ..config }, mtu),
                events,
            );
            let shy = replay(BrutalState::fresh(config, mtu), events);
            &&& bolder(bold, shy)
            &&& shy.window() <= bold.window()
            &&& shy.pacing_rate() <= bold.pacing_rate()
        }),
    decreases events.len(),
{
    let low = ConfigState { min_ack_rate: lower, ..config };
    let bold = BrutalState::fresh(low, mtu);
    let shy = BrutalState::fresh(config, mtu);
    if events.len() == 0 {
        law_fresh_is_valid(config, mtu);
        law_fresh_is_valid(low, mtu);
    } else {
        let before = events.drop_last();
        law_lower_floor_sends_more(config, lower, mtu, before);
        law_reached_is_valid(config, mtu, before);
        law_room(replay(shy, before), events.last());
        law_bolder_stays_bolder(replay(bold, before), replay(shy, before), events.last(), mtu);
    }
    law_bolder_sends_more(replay(bold, events), replay(shy, events));
}

} // verus!
