//! Configuration of the controller.
use vstd::arithmetic::power2::{lemma_pow2_adds, lemma_pow2_pos, pow2};
use vstd::prelude::*;

use crate::binary64::{datum_of, Binary64};
use crate::datum::{of_ratio, one, one_units};
use crate::model::ConfigState;
use crate::rounding::{lemma_nearest_within_half, lemma_pow2_le, lemma_pow2_values};

verus! {

/// Payload size that every path can carry.
pub const BASE_DATAGRAM_SIZE: u64 = 1200;

/// Initial window that is recommended for most paths.
pub const RECOMMENDED_INITIAL_WINDOW: u64 = 14720;

/// The bits of 0.1, the least floor of the ack rate.
pub const TENTH_BITS: u64 = 0x3FB9_9999_9999_999A;

/// The bits of 0.8, the floor of the ack rate by default.
pub const DEFAULT_MIN_ACK_RATE_BITS: u64 = 0x3FE9_9999_9999_999A;

/// The bits of 1.0.
pub const ONE_BITS: u64 = 0x3FF0_0000_0000_0000;

/// Configuration for the Brutal congestion controller.
#[derive(Debug)]
pub struct BrutalConfig {
    /// Target bandwidth in bytes per second.
    pub target_bps: u64,
    /// Initial congestion window.
    pub initial_window: u64,
    /// Minimum ack rate, the floor for rate adjustment.
    pub min_ack_rate: Binary64,
}

impl View for BrutalConfig {
    type V = ConfigState;

    open spec fn view(&self) -> ConfigState {
        ConfigState {
            target_bps: self.target_bps as nat,
            initial_window: self.initial_window as nat,
            min_ack_rate: self.min_ack_rate@,
        }
    }
}

/// Bytes per second of a bandwidth in megabits per second.
pub open spec fn bytes_per_second(mbps: nat) -> nat {
    mbps * 1_000_000 / 8
}

/// The recommended initial window, but at least two and at most ten datagrams.
pub open spec fn default_initial_window() -> nat {
    if RECOMMENDED_INITIAL_WINDOW < 2 * BASE_DATAGRAM_SIZE {
        (2 * BASE_DATAGRAM_SIZE) as nat
    } else if RECOMMENDED_INITIAL_WINDOW > 10 * BASE_DATAGRAM_SIZE {
        (10 * BASE_DATAGRAM_SIZE) as nat
    } else {
        RECOMMENDED_INITIAL_WINDOW as nat
    }
}

/// A byte per second is eight bits per second, and what is left of one is dropped.
pub proof fn law_bytes_per_second(mbps: nat)
    ensures
        8 * bytes_per_second(mbps) <= mbps * 1_000_000 < 8 * bytes_per_second(mbps) + 8,
{
}

/// A configuration is its three fields, the integers taken as they are
/// and the floor by the number that it stands for.
pub proof fn law_configuration(config: BrutalConfig)
    ensures
        config@.target_bps == config.target_bps,
        config@.initial_window == config.initial_window,
        config@.min_ack_rate == datum_of(config.min_ack_rate.bits),
{
}

fn initial_window_by_default() -> (r: u64)
    ensures
        r == default_initial_window(),
{
    let low: u64 = 2 * BASE_DATAGRAM_SIZE;
    let high: u64 = 10 * BASE_DATAGRAM_SIZE;
    if RECOMMENDED_INITIAL_WINDOW < low {
        low
    } else if RECOMMENDED_INITIAL_WINDOW > high {
        high
    } else {
        RECOMMENDED_INITIAL_WINDOW
    }
}

/// The constants are the data nearest to one tenth and to eight tenths, and one.
pub(crate) proof fn lemma_constants()
    ensures
        datum_of(TENTH_BITS) == of_ratio(1, 10),
        datum_of(DEFAULT_MIN_ACK_RATE_BITS) == of_ratio(8, 10),
        datum_of(ONE_BITS) == one(),
        of_ratio(1, 10).position() > 0,
        of_ratio(1, 10).at_most(of_ratio(8, 10)),
        of_ratio(8, 10).at_most(one()),
{
    let m: nat = 0x19_9999_9999_999A;
    lemma_pow2_values();
    vstd::arithmetic::power2::lemma2_to64();
    vstd::arithmetic::power2::lemma2_to64_rest();
    // One tenth.
    let c = pow2(1018);
    lemma_pow2_pos(1018);
    lemma_pow2_adds(56, 1018);
    lemma_pow2_adds(52, 1018);
    lemma_pow2_adds(53, 1018);
    assert((2 * m - 1) * (10 * c) < 2 * one_units() < (2 * m + 1) * (10 * c)) by (nonlinear_arith)
        requires
            m == 0x19_9999_9999_999A,
            one_units() == 0x100_0000_0000_0000 * c,
            c > 0,
    ;
    lemma_nearest_within_half(1 * one_units(), 10, 1018, m);
    // Eight tenths.
    let d = pow2(1021);
    lemma_pow2_pos(1021);
    lemma_pow2_adds(53, 1021);
    lemma_pow2_adds(52, 1021);
    assert((2 * m - 1) * (10 * d) < 2 * (8 * one_units()) < (2 * m + 1) * (10 * d))
        by (nonlinear_arith)
        requires
            m == 0x19_9999_9999_999A,
            8 * one_units() == 0x100_0000_0000_0000 * d,
            d > 0,
    ;
    lemma_nearest_within_half(8 * one_units(), 10, 1021, m);
    // One, and the order of the three.
    lemma_pow2_adds(52, 1022);
    lemma_pow2_adds(3, 1018);
    lemma_pow2_adds(1, 1021);
    lemma_pow2_le(1074, 2098);
}

impl BrutalConfig {
    /// Create a new configuration with the specified target bandwidth
    /// in megabits per second.
    pub fn new(target_mbps: u64) -> (r: BrutalConfig)
        requires
            target_mbps * 1_000_000 <= u64::MAX,
        ensures
            r@ == (ConfigState {
                target_bps: bytes_per_second(target_mbps as nat),
                initial_window: default_initial_window(),
                min_ack_rate: of_ratio(8, 10),
            }),
            r.target_bps == target_mbps as nat * 1_000_000 / 8,
            r.initial_window == 12_000,
            r@.valid(),
    {
        proof {
            lemma_constants();
        }
        BrutalConfig {
            target_bps: target_mbps * 1_000_000 / 8,
            initial_window: initial_window_by_default(),
            min_ack_rate: Binary64 { bits: DEFAULT_MIN_ACK_RATE_BITS },
        }
    }

    /// Set the target bandwidth in bytes per second.
    pub fn target_bps(&mut self, bps: u64) -> (r: &mut BrutalConfig)
        ensures
            *r == (BrutalConfig { target_bps: bps, ..*old(self) }),
            *final(self) == *final(r),
    {
        self.target_bps = bps;
        self
    }

    /// Set the target bandwidth in megabits per second.
    pub fn target_mbps(&mut self, mbps: u64) -> (r: &mut BrutalConfig)
        requires
            mbps * 1_000_000 <= u64::MAX,
        ensures
            *r == (BrutalConfig {
                target_bps: bytes_per_second(mbps as nat) as u64,
                ..*old(self)
            }),
            r.target_bps == mbps as nat * 1_000_000 / 8,
            *final(self) == *final(r),
    {
        self.target_bps = mbps * 1_000_000 / 8;
        self
    }

    /// Set the initial congestion window in bytes.
    pub fn initial_window(&mut self, value: u64) -> (r: &mut BrutalConfig)
        ensures
            *r == (BrutalConfig { initial_window: value, ..*old(self) }),
            *final(self) == *final(r),
    {
        self.initial_window = value;
        self
    }

    /// Set the minimum ack rate.
    ///
    /// This is the floor for ack rate adjustment. When the actual ack rate falls
    /// below this value, it is clamped to this minimum. Lower values allow
    /// more aggressive compensation for packet loss.
    ///
    /// The value itself is clamped to the range from 0.1 to 1.0. A NaN stays a NaN,
    /// which is no floor at all.
    pub fn min_ack_rate(&mut self, rate: Binary64) -> (r: &mut BrutalConfig)
        ensures
            r@ == (ConfigState {
                min_ack_rate: rate@.clamped(of_ratio(1, 10), one()),
                ..old(self)@
            }),
            r.target_bps == old(self).target_bps,
            r.initial_window == old(self).initial_window,
            r@.valid(),
            *final(self) == *final(r),
    {
        proof {
            lemma_constants();
        }
        self.min_ack_rate = rate.clamp(
            Binary64 { bits: TENTH_BITS },
            Binary64 { bits: ONE_BITS },
        );
        self
    }
}

impl Default for BrutalConfig {
    /// A target bandwidth of 10 megabits per second.
    fn default() -> (r: BrutalConfig)
        ensures
            r@ == (ConfigState {
                target_bps: bytes_per_second(10),
                initial_window: default_initial_window(),
                min_ack_rate: of_ratio(8, 10),
            }),
            r.target_bps == 1_250_000,
            r.initial_window == 12_000,
            r@.valid(),
    {
        BrutalConfig::new(10)
    }
}

impl Clone for BrutalConfig {
    fn clone(&self) -> (r: BrutalConfig)
        ensures
            r == *self,
    {
        BrutalConfig {
            target_bps: self.target_bps,
            initial_window: self.initial_window,
            min_ack_rate: self.min_ack_rate,
        }
    }
}

} // verus!
