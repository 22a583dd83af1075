//! The controller as a mathematical object: its state, and what each event makes of it.
//!
//! Time is given in nanoseconds, windows in bytes.
use vstd::prelude::*;

use crate::datum::{of_int, of_ratio, one, Datum};
use crate::time::{seconds, NANOS_PER_SEC};

verus! {

/// Number of sampling slots, which is also the number of seconds that they cover.
pub const PKT_INFO_SLOT_COUNT: usize = 5;

/// Number of packets that a sample must hold before the rate follows it.
pub const MIN_SAMPLE_COUNT: u64 = 50;

/// What became of the packets of one second.
#[verifier::ext_equal]
pub struct Slot {
    /// The second that is counted, since the first event.
    pub second: nat,
    /// Number of acknowledged packets.
    pub acks: nat,
    /// Number of lost packets.
    pub losses: nat,
}

/// A configuration.
#[verifier::ext_equal]
pub struct ConfigState {
    /// Target bandwidth in bytes per second.
    pub target_bps: nat,
    /// Initial congestion window.
    pub initial_window: nat,
    /// Floor of the ack rate.
    pub min_ack_rate: Datum,
}

/// A controller.
#[verifier::ext_equal]
pub struct BrutalState {
    pub config: ConfigState,
    /// Size of the largest packet.
    pub mtu: nat,
    pub slots: Seq<Slot>,
    /// Share of the packets that were acknowledged.
    pub ack_rate: Datum,
    /// The last round trip time.
    pub rtt: nat,
    /// The second of the last event.
    pub second: nat,
    /// The time of the first event.
    pub base: Option<nat>,
}

/// A slot that has counted nothing.
pub open spec fn empty_slot() -> Slot {
    Slot { second: 0, acks: 0, losses: 0 }
}

/// The slots of a controller that has seen nothing.
pub open spec fn empty_slots() -> Seq<Slot> {
    Seq::new(PKT_INFO_SLOT_COUNT as nat, |i: int| empty_slot())
}

/// The whole seconds from `base` to `now`, none where `now` is the earlier one.
pub open spec fn seconds_since(base: nat, now: nat) -> nat {
    if now > base {
        ((now - base) as nat) / NANOS_PER_SEC as nat
    } else {
        0
    }
}

/// The slot that counts the packets of `second`.
pub open spec fn slot_index(second: nat) -> int {
    second as int % PKT_INFO_SLOT_COUNT as int
}

/// The earliest second that still counts at `second`.
pub open spec fn oldest_counted(second: nat) -> nat {
    if second > PKT_INFO_SLOT_COUNT {
        (second - PKT_INFO_SLOT_COUNT) as nat
    } else {
        0
    }
}

impl Slot {
    /// The slot after one more packet, which was acknowledged or lost in `second`.
    /// Counts of another second are forgotten.
    pub open spec fn counting(self, second: nat, acked: bool) -> Slot {
        let kept = if self.second == second {
            self
        } else {
            Slot { second, acks: 0, losses: 0 }
        };
        if acked {
            Slot { acks: kept.acks + 1, ..kept }
        } else {
            Slot { losses: kept.losses + 1, ..kept }
        }
    }
}

/// Whether slot `i` is part of a sample that leaves out the slot `skip`
/// and all seconds before `oldest`.
pub open spec fn sampled(slots: Seq<Slot>, skip: int, oldest: nat, i: int) -> bool {
    i != skip && slots[i].second >= oldest
}

/// Acknowledged packets of such a sample, over the first `n` slots.
pub open spec fn sampled_acks(slots: Seq<Slot>, skip: int, oldest: nat, n: nat) -> nat
    decreases n,
{
    if n == 0 {
        0
    } else {
        let before = sampled_acks(slots, skip, oldest, (n - 1) as nat);
        if sampled(slots, skip, oldest, n - 1) {
            before + slots[n - 1].acks
        } else {
            before
        }
    }
}

/// Lost packets of such a sample, over the first `n` slots.
pub open spec fn sampled_losses(slots: Seq<Slot>, skip: int, oldest: nat, n: nat) -> nat
    decreases n,
{
    if n == 0 {
        0
    } else {
        let before = sampled_losses(slots, skip, oldest, (n - 1) as nat);
        if sampled(slots, skip, oldest, n - 1) {
            before + slots[n - 1].losses
        } else {
            before
        }
    }
}

/// All packets that the first `n` slots have counted, whether they still matter or not.
pub open spec fn packets_held(slots: Seq<Slot>, n: nat) -> nat
    decreases n,
{
    if n == 0 {
        0
    } else {
        packets_held(slots, (n - 1) as nat) + slots[n - 1].acks + slots[n - 1].losses
    }
}

/// The ack rate that follows from a sample: the share of acknowledged packets, or the floor
/// where that is higher. It is one where the sample is too small.
pub open spec fn rate_of(acks: nat, losses: nat, floor: Datum) -> Datum {
    if acks + losses < MIN_SAMPLE_COUNT {
        one()
    } else {
        of_int(acks).quotient(of_int(acks + losses)).greater(floor)
    }
}

/// Bytes in flight that keep up `target_bps` over a round trip of `rtt`, twice over,
/// when only the share `ack_rate` of the packets gets through.
pub open spec fn flight(target_bps: nat, rtt: nat, ack_rate: Datum) -> nat {
    of_int(target_bps).product(seconds(rtt)).product(of_int(2)).quotient(ack_rate).truncated()
}

/// Bits per second to send so that `target_bps` bytes per second get through.
pub open spec fn pace(target_bps: nat, ack_rate: Datum) -> nat {
    of_int(target_bps).quotient(ack_rate).product(of_int(8)).truncated()
}

impl ConfigState {
    /// The floor of the ack rate is a NaN or lies between one tenth and one.
    pub open spec fn valid(self) -> bool {
        self.min_ack_rate is Nan || (of_ratio(1, 10).at_most(self.min_ack_rate)
            && self.min_ack_rate.at_most(one()))
    }
}

impl BrutalState {
    /// A controller that has seen nothing, with a round trip time of 100 milliseconds.
    pub open spec fn fresh(config: ConfigState, mtu: nat) -> BrutalState {
        BrutalState {
            config,
            mtu,
            slots: empty_slots(),
            ack_rate: one(),
            rtt: 100_000_000,
            second: 0,
            base: None,
        }
    }

    /// The time of the first event, if `now` is that of the present one.
    pub open spec fn base_at(self, now: nat) -> nat {
        match self.base {
            Some(base) => base,
            None => now,
        }
    }

    /// The second of an event at `now`.
    pub open spec fn second_at(self, now: nat) -> nat {
        seconds_since(self.base_at(now), now)
    }

    /// The controller after its clock has been read.
    pub open spec fn at(self, now: nat) -> BrutalState {
        BrutalState { base: Some(self.base_at(now)), second: self.second_at(now), ..self }
    }

    /// Acknowledged packets in the slots that count, the slot `skip` left out.
    pub open spec fn acks_beside(self, skip: int) -> nat {
        sampled_acks(self.slots, skip, oldest_counted(self.second), self.slots.len())
    }

    /// Lost packets in the slots that count, the slot `skip` left out.
    pub open spec fn losses_beside(self, skip: int) -> nat {
        sampled_losses(self.slots, skip, oldest_counted(self.second), self.slots.len())
    }

    /// The controller with the ack rate of the slots that count, the slot `skip` left out.
    pub open spec fn rated_beside(self, skip: int) -> BrutalState {
        BrutalState {
            ack_rate: rate_of(
                self.acks_beside(skip),
                self.losses_beside(skip),
                self.config.min_ack_rate,
            ),
            ..self
        }
    }

    /// The controller after a packet was counted at `now`, before the rate follows.
    pub open spec fn counted(self, now: nat, acked: bool) -> BrutalState {
        let second = self.second_at(now);
        let i = slot_index(second);
        BrutalState {
            slots: self.slots.update(i, self.slots[i].counting(second, acked)),
            ..self.at(now)
        }
    }

    /// The controller after a packet was acknowledged or lost at `now`.
    pub open spec fn after_packet(self, now: nat, acked: bool) -> BrutalState {
        self.counted(now, acked).rated_beside(slot_index(self.second_at(now)))
    }

    /// The controller after an acknowledgement at `now` with a round trip time of `rtt`.
    pub open spec fn after_ack(self, now: nat, rtt: nat) -> BrutalState {
        BrutalState { rtt, ..self }.after_packet(now, true)
    }

    /// The controller after a loss at `now`.
    pub open spec fn after_loss(self, now: nat) -> BrutalState {
        self.after_packet(now, false)
    }

    /// The controller after its statistics were thrown away.
    pub open spec fn reset(self) -> BrutalState {
        BrutalState { slots: empty_slots(), ack_rate: one(), second: 0, base: None, ..self }
    }

    /// All counters that an event at `now` touches stay within 64 bits.
    pub open spec fn has_room(self, now: nat, acked: bool) -> bool {
        let i = slot_index(self.second_at(now));
        let next = self.counted(now, acked);
        &&& next.slots[i].acks <= u64::MAX
        &&& next.slots[i].losses <= u64::MAX
        &&& next.acks_beside(i) + next.losses_beside(i) <= u64::MAX
    }

    /// All packets that the slots have counted.
    pub open spec fn held(self) -> nat {
        packets_held(self.slots, self.slots.len())
    }

    /// The smallest window, of four packets.
    pub open spec fn minimum_window(self) -> nat {
        4 * self.mtu
    }

    /// The congestion window: what keeps up the target bandwidth, or the initial window where
    /// there is no round trip time, but never less than the smallest window.
    pub open spec fn window(self) -> nat {
        let wanted = if self.rtt == 0 {
            self.config.initial_window
        } else {
            flight(self.config.target_bps, self.rtt, self.ack_rate)
        };
        if wanted > self.minimum_window() {
            wanted
        } else {
            self.minimum_window()
        }
    }

    /// The pacing rate in bits per second.
    pub open spec fn pacing_rate(self) -> nat {
        pace(self.config.target_bps, self.ack_rate)
    }

    /// The ack rate is a number from zero to one that is not below its floor.
    pub open spec fn valid(self) -> bool {
        &&& self.config.valid()
        &&& self.slots.len() == PKT_INFO_SLOT_COUNT
        &&& self.ack_rate is Finite
        &&& !self.ack_rate.negative()
        &&& self.ack_rate.at_most(one())
        &&& self.config.min_ack_rate is Nan || self.config.min_ack_rate.at_most(self.ack_rate)
    }
}

} // verus!
