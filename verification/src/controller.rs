//! The controller.
use vstd::prelude::*;

use std::sync::Arc;

use crate::binary64::Binary64;
use crate::config::{lemma_constants, BrutalConfig, ONE_BITS};
use crate::datum::{finite, of_int, one, one_units};
use crate::history::{after, Event};
use crate::laws::{law_events_keep_valid, law_fresh_is_valid, law_room};
use crate::model::{
    empty_slots, flight, packets_held, sampled, sampled_acks, sampled_losses, slot_index,
    BrutalState, ConfigState, Slot, MIN_SAMPLE_COUNT, PKT_INFO_SLOT_COUNT,
};
use crate::order::{lemma_of_small_int, lemma_seconds};
use crate::rounding::lemma_pow2_values;
use crate::time::{seconds, Duration, Instant};

verus! {

/// Congestion window multiplier.
pub const CWND_MULTIPLIER: u64 = 2;

/// Round trip time that is taken for granted at first, in milliseconds.
pub const DEFAULT_INITIAL_RTT_MILLIS: u64 = 100;

/// Packet statistics for a time slot.
#[derive(Clone, Copy, Debug)]
struct PktInfo {
    /// Slot identifier, which increments each second.
    slot_id: u64,
    /// Number of acknowledged packets.
    ack_count: u64,
    /// Number of lost packets.
    loss_count: u64,
}

impl View for PktInfo {
    type V = Slot;

    closed spec fn view(&self) -> Slot {
        Slot {
            second: self.slot_id as nat,
            acks: self.ack_count as nat,
            losses: self.loss_count as nat,
        }
    }
}

/// What a controller reports of itself.
#[derive(Clone, Copy, Debug)]
pub struct ControllerMetrics {
    /// Congestion window in bytes.
    pub congestion_window: u64,
    /// Slow start threshold in bytes.
    pub ssthresh: Option<u64>,
    /// Pacing rate in bits per second.
    pub pacing_rate: Option<u64>,
}

/// What a controller hands over to the one that takes its place.
#[derive(Clone, Copy, Debug)]
pub struct TransferableState {
    /// Congestion window in bytes.
    pub congestion_window: u64,
    /// Slow start threshold in bytes.
    pub ssthresh: Option<u64>,
    /// Whether the controller is recovering from a loss.
    pub in_recovery: bool,
}

/// Brutal congestion controller.
///
/// A bandwidth-driven congestion control algorithm that maintains a user-specified
/// target bandwidth by dynamically adjusting the send rate based on the ack rate.
/// Unlike traditional congestion control algorithms, Brutal increases the send rate
/// when packet loss occurs to compensate and maintain throughput.
///
/// The congestion window is calculated as
/// `(target_bps * rtt * multiplier) / ack_rate`, where `ack_rate` is the ratio of
/// acknowledged packets to all packets, sampled over a sliding window of five seconds,
/// of which the present one does not count yet.
///
/// This algorithm is not TCP-friendly and will aggressively consume bandwidth.
/// It should only be used in controlled environments where the available bandwidth
/// is known and dedicated.
#[derive(Debug)]
pub struct Brutal {
    config: Arc<BrutalConfig>,
    /// Current MTU.
    current_mtu: u64,
    /// Statistics slots for tracking acks and losses over time.
    pkt_info_slots: [PktInfo; PKT_INFO_SLOT_COUNT],
    /// Current ack rate.
    ack_rate: Binary64,
    /// Last known round trip time.
    last_rtt: Duration,
    /// The slot of the last event.
    current_slot_id: u64,
    /// Base time for slot calculation.
    base_time: Option<Instant>,
}

impl View for Brutal {
    type V = BrutalState;

    closed spec fn view(&self) -> BrutalState {
        BrutalState {
            config: self.config@,
            mtu: self.current_mtu as nat,
            slots: self.pkt_info_slots@.map_values(|slot: PktInfo| slot@),
            ack_rate: self.ack_rate@,
            rtt: self.last_rtt@,
            second: self.current_slot_id as nat,
            base: match self.base_time {
                Some(base) => Some(base@),
                None => None,
            },
        }
    }
}

fn no_packets() -> (r: [PktInfo; PKT_INFO_SLOT_COUNT])
    ensures
        r@.map_values(|slot: PktInfo| slot@) == empty_slots(),
{
    let slot = PktInfo { slot_id: 0, ack_count: 0, loss_count: 0 };
    [slot; PKT_INFO_SLOT_COUNT]
}

impl Brutal {
    #[verifier::type_invariant]
    closed spec fn wf(self) -> bool {
        self.current_mtu <= u16::MAX
    }

    /// Construct a new Brutal controller with the given configuration.
    pub fn new(config: Arc<BrutalConfig>, current_mtu: u16) -> (r: Brutal)
        ensures
            r@ == BrutalState::fresh(config@, current_mtu as nat),
            r@.config == config@,
            r@.mtu == current_mtu,
            r@.rtt == 100_000_000,
            r@.ack_rate == one(),
            r@.base is None,
            r@.held() == 0,
            forall|now: nat, acked: bool| #[trigger] r@.has_room(now, acked),
            config@.valid() ==> r@.valid(),
    {
        proof {
            lemma_constants();
            lemma_fresh(config@, current_mtu as nat);
        }
        Brutal {
            config,
            current_mtu: current_mtu as u64,
            pkt_info_slots: no_packets(),
            ack_rate: Binary64 { bits: ONE_BITS },
            last_rtt: Duration::from_millis(DEFAULT_INITIAL_RTT_MILLIS),
            current_slot_id: 0,
            base_time: None,
        }
    }

    /// Get the current time slot index based on elapsed time.
    fn get_slot_index(&mut self, now: Instant) -> (index: usize)
        ensures
            final(self)@ == old(self)@.at(now@),
            index == slot_index(old(self)@.second_at(now@)),
            index < PKT_INFO_SLOT_COUNT,
    {
        proof {
            use_type_invariant(&*self);
        }
        let base = match self.base_time {
            Some(base) => base,
            None => now,
        };
        self.base_time = Some(base);
        let slot_id = now.saturating_duration_since(base).as_secs();
        // The slot changes when another second has begun.
        if slot_id != self.current_slot_id {
            self.current_slot_id = slot_id;
        }
        (slot_id % PKT_INFO_SLOT_COUNT as u64) as usize
    }
}

/// A sample grows with the slots that are looked at.
proof fn lemma_sample_grows(slots: Seq<Slot>, skip: int, oldest: nat, n: nat, m: nat)
    requires
        n <= m,
    ensures
        sampled_acks(slots, skip, oldest, n) <= sampled_acks(slots, skip, oldest, m),
        sampled_losses(slots, skip, oldest, n) <= sampled_losses(slots, skip, oldest, m),
    decreases m,
{
    if n < m {
        lemma_sample_grows(slots, skip, oldest, n, (m - 1) as nat);
    }
}

impl Brutal {
    /// Update the ack rate based on statistics from all slots except the current one.
    fn update_ack_rate(&mut self, current_slot_index: usize)
        requires
            old(self)@.acks_beside(current_slot_index as int) + old(self)@.losses_beside(
                current_slot_index as int,
            ) <= u64::MAX,
        ensures
            final(self)@ == old(self)@.rated_beside(current_slot_index as int),
    {
        proof {
            use_type_invariant(&*self);
            lemma_constants();
        }
        // Slots of earlier seconds are stale.
        let min_slot_id: u64 = self.current_slot_id.saturating_sub(PKT_INFO_SLOT_COUNT as u64);
        let mut ack_count: u64 = 0;
        let mut loss_count: u64 = 0;
        let ghost slots = self@.slots;
        let ghost skip = current_slot_index as int;
        let mut i: usize = 0;
        while i < PKT_INFO_SLOT_COUNT
            invariant
                i <= PKT_INFO_SLOT_COUNT,
                slots == self@.slots,
                slots.len() == PKT_INFO_SLOT_COUNT,
                skip == current_slot_index,
                ack_count == sampled_acks(slots, skip, min_slot_id as nat, i as nat),
                loss_count == sampled_losses(slots, skip, min_slot_id as nat, i as nat),
                sampled_acks(slots, skip, min_slot_id as nat, 5) + sampled_losses(
                    slots,
                    skip,
                    min_slot_id as nat,
                    5,
                ) <= u64::MAX,
            decreases PKT_INFO_SLOT_COUNT - i,
        {
            let slot = self.pkt_info_slots[i];
            proof {
                assert(slots[i as int] == slot@);
                lemma_sample_grows(slots, skip, min_slot_id as nat, (i + 1) as nat, 5);
            }
            if i != current_slot_index && slot.slot_id >= min_slot_id {
                ack_count = ack_count + slot.ack_count;
                loss_count = loss_count + slot.loss_count;
            }
            i = i + 1;
        }
        let total: u64 = ack_count + loss_count;
        if total < MIN_SAMPLE_COUNT {
            // Not enough samples, assume perfect delivery.
            self.ack_rate = Binary64 { bits: ONE_BITS };
            return ;
        }
        let rate = Binary64::from_int(ack_count).over(Binary64::from_int(total));
        self.ack_rate = rate.max(self.config.min_ack_rate);
    }

    /// Record an ack event in the current slot.
    fn record_ack(&mut self, now: Instant)
        requires
            old(self)@.has_room(now@, true),
        ensures
            final(self)@ == old(self)@.after_packet(now@, true),
    {
        let ghost before = self@;
        let slot_index = self.get_slot_index(now);
        proof {
            use_type_invariant(&*self);
        }
        let slot_id = self.current_slot_id;
        let slot = self.pkt_info_slots[slot_index];
        assert(slot@ == before.slots[slot_index as int]);
        let counted = if slot.slot_id != slot_id {
            // New slot, reset counters.
            PktInfo { slot_id, ack_count: 1, loss_count: 0 }
        } else {
            PktInfo { ack_count: slot.ack_count + 1, ..slot }
        };
        self.pkt_info_slots[slot_index] = counted;
        assert(self@ =~= before.counted(now@, true));
        self.update_ack_rate(slot_index);
    }

    /// Record a loss event in the current slot.
    fn record_loss(&mut self, now: Instant)
        requires
            old(self)@.has_room(now@, false),
        ensures
            final(self)@ == old(self)@.after_packet(now@, false),
    {
        let ghost before = self@;
        let slot_index = self.get_slot_index(now);
        proof {
            use_type_invariant(&*self);
        }
        let slot_id = self.current_slot_id;
        let slot = self.pkt_info_slots[slot_index];
        assert(slot@ == before.slots[slot_index as int]);
        let counted = if slot.slot_id != slot_id {
            // New slot, reset counters.
            PktInfo { slot_id, ack_count: 0, loss_count: 1 }
        } else {
            PktInfo { loss_count: slot.loss_count + 1, ..slot }
        };
        self.pkt_info_slots[slot_index] = counted;
        assert(self@ =~= before.counted(now@, false));
        self.update_ack_rate(slot_index);
    }

    /// Calculate the congestion window based on target bandwidth and ack rate.
    /// Without a round trip time it is the initial window. It is never below the minimum.
    pub fn calculate_cwnd(&self) -> (r: u64)
        ensures
            r == self@.window(),
            r >= 4 * self@.mtu,
            self@.rtt == 0 && self@.config.initial_window >= 4 * self@.mtu ==> r
                == self@.config.initial_window,
    {
        proof {
            use_type_invariant(self);
            lemma_seconds(self.last_rtt@);
            lemma_zero();
        }
        let rtt_secs = self.last_rtt.as_secs_f64();
        let cwnd: u64 = if Binary64::from_int(0).less(rtt_secs) {
            let target_bps = Binary64::from_int(self.config.target_bps);
            let goal = target_bps.times(rtt_secs).times(Binary64::from_int(CWND_MULTIPLIER));
            goal.over(self.ack_rate).to_int()
        } else {
            self.config.initial_window
        };
        let minimum = self.minimum_window();
        if cwnd > minimum {
            cwnd
        } else {
            minimum
        }
    }

    /// Calculate the pacing rate in bits per second.
    pub fn pacing_rate(&self) -> (r: u64)
        ensures
            r == self@.pacing_rate(),
    {
        let adjusted_bps = Binary64::from_int(self.config.target_bps).over(self.ack_rate);
        adjusted_bps.times(Binary64::from_int(8)).to_int()
    }

    /// Minimum congestion window, four times the MTU.
    pub fn minimum_window(&self) -> (r: u64)
        ensures
            r == self@.minimum_window(),
            r == 4 * self@.mtu,
    {
        proof {
            use_type_invariant(self);
        }
        4 * self.current_mtu
    }

    /// The share of the packets that were acknowledged, which the rates are adjusted by.
    pub fn ack_rate(&self) -> (r: Binary64)
        ensures
            r@ == self@.ack_rate,
    {
        self.ack_rate
    }

    /// Whether the counters have room for one more packet, whenever it is
    /// acknowledged or lost. Only some 2 to the power of 64 packets use it up.
    pub fn has_room(&self) -> (r: bool)
        ensures
            r == (self@.held() < u64::MAX),
            r ==> forall|now: nat, acked: bool| #[trigger] self@.has_room(now, acked),
    {
        let mut held: u128 = 0;
        let ghost slots = self@.slots;
        let mut i: usize = 0;
        while i < PKT_INFO_SLOT_COUNT
            invariant
                i <= PKT_INFO_SLOT_COUNT,
                slots == self@.slots,
                slots.len() == PKT_INFO_SLOT_COUNT,
                held == packets_held(slots, i as nat),
                held <= i * (2 * u64::MAX),
            decreases PKT_INFO_SLOT_COUNT - i,
        {
            let slot = self.pkt_info_slots[i];
            assert(slots[i as int] == slot@);
            held = held + slot.ack_count as u128 + slot.loss_count as u128;
            i = i + 1;
        }
        proof {
            lemma_room(self@);
        }
        held < u64::MAX as u128
    }

    /// Handle the acknowledgement of a packet, with the round trip time known by then.
    pub fn on_ack(
        &mut self,
        now: Instant,
        _sent: Instant,
        _bytes: u64,
        _app_limited: bool,
        rtt: Duration,
    )
        requires
            old(self)@.has_room(now@, true),
        ensures
            final(self)@ == old(self)@.after_ack(now@, rtt@),
            final(self)@.rtt == rtt@,
            final(self)@.config == old(self)@.config,
            final(self)@.mtu == old(self)@.mtu,
            final(self)@.held() <= old(self)@.held() + 1,
            final(self)@.held() < u64::MAX ==> forall|now: nat, acked: bool| #[trigger]
                final(self)@.has_room(now, acked),
            old(self)@.valid() ==> final(self)@.valid(),
    {
        let ghost before = self@;
        proof {
            use_type_invariant(&*self);
            lemma_after_event(before, Event::Ack { now: now@, rtt: rtt@ });
            lemma_room_ignores_rtt(before, rtt@, now@, true);
        }
        self.last_rtt = rtt;
        self.record_ack(now);
    }

    /// Handle the loss of packets.
    pub fn on_congestion_event(
        &mut self,
        now: Instant,
        _sent: Instant,
        _is_persistent_congestion: bool,
        _lost_bytes: u64,
    )
        requires
            old(self)@.has_room(now@, false),
        ensures
            final(self)@ == old(self)@.after_loss(now@),
            final(self)@.rtt == old(self)@.rtt,
            final(self)@.config == old(self)@.config,
            final(self)@.mtu == old(self)@.mtu,
            final(self)@.held() <= old(self)@.held() + 1,
            final(self)@.held() < u64::MAX ==> forall|now: nat, acked: bool| #[trigger]
                final(self)@.has_room(now, acked),
            old(self)@.valid() ==> final(self)@.valid(),
    {
        proof {
            lemma_after_event(self@, Event::Loss { now: now@ });
        }
        // Brutal compensates for loss by increasing the send rate.
        self.record_loss(now);
    }

    /// Handle a change of the MTU.
    pub fn on_mtu_update(&mut self, new_mtu: u16)
        ensures
            final(self)@ == (BrutalState { mtu: new_mtu as nat, ..old(self)@ }),
            old(self)@.valid() ==> final(self)@.valid(),
    {
        self.current_mtu = new_mtu as u64;
    }

    /// Number of bytes that may be in flight.
    pub fn window(&self) -> (r: u64)
        ensures
            r == self@.window(),
            r >= 4 * self@.mtu,
            self@.rtt == 0 && self@.config.initial_window >= 4 * self@.mtu ==> r
                == self@.config.initial_window,
    {
        self.calculate_cwnd()
    }

    /// What the controller reports of itself.
    pub fn metrics(&self) -> (r: ControllerMetrics)
        ensures
            r.congestion_window == self@.window(),
            r.ssthresh == None::<u64>,
            r.pacing_rate matches Some(rate) && rate == self@.pacing_rate(),
    {
        ControllerMetrics {
            congestion_window: self.window(),
            ssthresh: None,
            pacing_rate: Some(self.pacing_rate()),
        }
    }

    /// The window to begin with.
    pub fn initial_window(&self) -> (r: u64)
        ensures
            r == self@.config.initial_window,
    {
        self.config.initial_window
    }

    /// What the controller hands over to the one that takes its place.
    pub fn transferable_state(&self) -> (r: TransferableState)
        ensures
            r.congestion_window == self@.window(),
            r.ssthresh == None::<u64>,
            !r.in_recovery,
    {
        TransferableState { congestion_window: self.window(), ssthresh: None, in_recovery: false }
    }

    /// Take over from another controller. Brutal is driven by its target bandwidth,
    /// so it resets its statistics and rediscovers the rate.
    pub fn apply_transferred_state(&mut self, _state: &TransferableState) -> (applied: bool)
        ensures
            applied,
            final(self)@ == old(self)@.reset(),
            final(self)@.config == old(self)@.config,
            final(self)@.mtu == old(self)@.mtu,
            final(self)@.rtt == old(self)@.rtt,
            final(self)@.ack_rate == one(),
            final(self)@.base is None,
            final(self)@.held() == 0,
            forall|now: nat, acked: bool| #[trigger] final(self)@.has_room(now, acked),
            old(self)@.valid() ==> final(self)@.valid(),
    {
        proof {
            use_type_invariant(&*self);
            lemma_fresh(self@.config, self@.mtu);
            lemma_room(self@.reset());
            lemma_constants();
        }
        self.pkt_info_slots = no_packets();
        self.ack_rate = Binary64 { bits: ONE_BITS };
        self.current_slot_id = 0;
        self.base_time = None;
        true
    }

    /// Name of the algorithm.
    pub fn name(&self) -> (r: &'static str)
        ensures
            r@ == "brutal"@,
    {
        "brutal"
    }

    /// A copy of the controller on the heap.
    pub fn clone_box(&self) -> (r: Box<Brutal>)
        ensures
            *r == *self,
    {
        Box::new(self.clone())
    }
}

impl Clone for Brutal {
    fn clone(&self) -> (r: Brutal)
        ensures
            r == *self,
    {
        proof {
            use_type_invariant(self);
        }
        Brutal {
            config: self.config.clone(),
            current_mtu: self.current_mtu,
            pkt_info_slots: self.pkt_info_slots,
            ack_rate: self.ack_rate,
            last_rtt: self.last_rtt,
            current_slot_id: self.current_slot_id,
            base_time: self.base_time,
        }
    }
}

/// A controller with room has it at all times.
proof fn lemma_room(state: BrutalState)
    requires
        state.slots.len() == PKT_INFO_SLOT_COUNT,
    ensures
        state.held() < u64::MAX ==> forall|now: nat, acked: bool| #[trigger]
            state.has_room(now, acked),
{
    assert forall|now: nat, acked: bool| state.held() < u64::MAX implies #[trigger] state.has_room(
        now,
        acked,
    ) by {
        let event = if acked {
            Event::Ack { now, rtt: 0 }
        } else {
            Event::Loss { now }
        };
        law_room(state, event);
    }
}

/// A new controller holds no packet.
proof fn lemma_fresh(config: ConfigState, mtu: nat)
    ensures
        BrutalState::fresh(config, mtu).held() == 0,
        forall|now: nat, acked: bool| #[trigger]
            BrutalState::fresh(config, mtu).has_room(now, acked),
        config.valid() ==> BrutalState::fresh(config, mtu).valid(),
{
    reveal_with_fuel(packets_held, 6);
    lemma_room(BrutalState::fresh(config, mtu));
    if config.valid() {
        law_fresh_is_valid(config, mtu);
    }
}

/// What holds of the controller after an event that there was room for.
proof fn lemma_after_event(state: BrutalState, event: Event)
    requires
        state.slots.len() == PKT_INFO_SLOT_COUNT,
        state.has_room(event.now(), event.acked()),
    ensures
        after(state, event).held() <= state.held() + 1,
        after(state, event).held() < u64::MAX ==> forall|now: nat, acked: bool| #[trigger]
            after(state, event).has_room(now, acked),
        state.valid() ==> after(state, event).valid(),
{
    law_room(state, event);
    lemma_room(after(state, event));
    if state.valid() {
        law_events_keep_valid(state, event);
    }
}

/// The room for an event does not depend on the round trip time.
proof fn lemma_room_ignores_rtt(state: BrutalState, rtt: nat, now: nat, acked: bool)
    ensures
        (BrutalState { rtt, ..state }).has_room(now, acked) == state.has_room(now, acked),
{
}

/// Zero.
proof fn lemma_zero()
    ensures
        of_int(0) == finite(0),
{
    lemma_pow2_values();
    lemma_of_small_int(0);
    assert(0 * one_units() == 0) by (nonlinear_arith);
}

impl BrutalConfig {
    /// Build a controller of this configuration.
    pub fn build(self: Arc<BrutalConfig>, _now: Instant, current_mtu: u16) -> (r: Box<Brutal>)
        ensures
            r@ == BrutalState::fresh(self@, current_mtu as nat),
            r@.config == self@,
            r@.mtu == current_mtu,
            r@.rtt == 100_000_000,
            r@.ack_rate == one(),
            r@.base is None,
            r@.held() == 0,
            forall|now: nat, acked: bool| #[trigger] r@.has_room(now, acked),
            self@.valid() ==> r@.valid(),
    {
        Box::new(Brutal::new(self, current_mtu))
    }
}

} // verus!
