//! Spans and points of time with a resolution of one nanosecond.
use vstd::arithmetic::power2::lemma_pow2_pos;
use vstd::prelude::*;

use crate::binary64::Binary64;
use crate::datum::{of_int, Datum};

verus! {

/// Number of nanoseconds in a second.
pub const NANOS_PER_SEC: u32 = 1_000_000_000;

/// A span of time.
#[derive(Clone, Copy, Debug)]
pub struct Duration {
    secs: u64,
    nanos: u32,
}

/// A point of time on a clock that never goes back.
#[derive(Clone, Copy, Debug)]
pub struct Instant {
    /// Time since the epoch of the clock.
    offset: Duration,
}

/// A span of `nanos` nanoseconds in seconds, as the sum of its whole seconds and its fraction.
pub open spec fn seconds(nanos: nat) -> Datum {
    of_int(nanos / NANOS_PER_SEC as nat).sum(
        of_int(nanos % NANOS_PER_SEC as nat).quotient(of_int(NANOS_PER_SEC as nat)),
    )
}

impl View for Duration {
    type V = nat;

    /// The number of nanoseconds.
    closed spec fn view(&self) -> nat {
        self.secs as nat * NANOS_PER_SEC as nat + self.nanos as nat
    }
}

impl View for Instant {
    type V = nat;

    /// The number of nanoseconds since the epoch of the clock.
    closed spec fn view(&self) -> nat {
        self.offset@
    }
}

impl Duration {
    #[verifier::type_invariant]
    closed spec fn wf(self) -> bool {
        self.nanos < NANOS_PER_SEC
    }

    /// A span of `secs` seconds and `nanos` nanoseconds.
    pub fn new(secs: u64, nanos: u32) -> (r: Duration)
        requires
            nanos < 1_000_000_000,
        ensures
            r@ == secs as nat * 1_000_000_000 + nanos as nat,
    {
        Duration { secs, nanos }
    }

    /// A span of `millis` milliseconds.
    pub fn from_millis(millis: u64) -> (r: Duration)
        ensures
            r@ == millis as nat * 1_000_000,
    {
        Duration { secs: millis / 1000, nanos: (millis % 1000) as u32 * 1_000_000 }
    }

    /// The number of whole seconds.
    pub fn as_secs(&self) -> (r: u64)
        ensures
            r == self@ / 1_000_000_000,
    {
        proof {
            use_type_invariant(self);
        }
        self.secs
    }

    /// The number of seconds with their fraction.
    pub fn as_secs_f64(&self) -> (r: Binary64)
        ensures
            r@ == seconds(self@),
    {
        proof {
            use_type_invariant(self);
            lemma_pow2_pos(1074);
        }
        let whole = Binary64::from_int(self.secs);
        let part = Binary64::from_int(self.nanos as u64).over(
            Binary64::from_int(NANOS_PER_SEC as u64),
        );
        whole.plus(part)
    }
}

impl Instant {
    /// The point of time that lies `offset` after the epoch of the clock.
    pub fn at(offset: Duration) -> (r: Instant)
        ensures
            r@ == offset@,
    {
        Instant { offset }
    }

    /// The time from `earlier` to `self`, or none at all where `earlier` is the later one.
    pub fn saturating_duration_since(&self, earlier: Instant) -> (r: Duration)
        ensures
            r@ == (if self@ > earlier@ {
                (self@ - earlier@) as nat
            } else {
                0
            }),
    {
        let a = self.offset;
        let b = earlier.offset;
        proof {
            use_type_invariant(&a);
            use_type_invariant(&b);
        }
        if a.secs < b.secs || (a.secs == b.secs && a.nanos <= b.nanos) {
            Duration { secs: 0, nanos: 0 }
        } else if a.nanos >= b.nanos {
            Duration { secs: a.secs - b.secs, nanos: a.nanos - b.nanos }
        } else {
            Duration { secs: a.secs - b.secs - 1, nanos: NANOS_PER_SEC - b.nanos + a.nanos }
        }
    }
}

} // verus!
