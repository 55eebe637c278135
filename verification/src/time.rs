//! Spans of time, as counts of nanoseconds.

use vstd::prelude::*;

verus! {

/// A span of time. It counts whole seconds up to `u64::MAX` and the
/// nanoseconds of one more, as `std::time::Duration` does.
#[derive(Debug, Clone, Copy, PartialEq, Eq, PartialOrd, Ord, Hash, Structural)]
pub struct Duration {
    nanos: u128,
}

/// Nanoseconds in a second.
pub const NANOS_PER_SEC: u128 = 1_000_000_000;

/// Nanoseconds in a millisecond.
pub const NANOS_PER_MILLI: u128 = 1_000_000;

impl View for Duration {
    type V = nat;

    /// The span in nanoseconds.
    closed spec fn view(&self) -> nat {
        self.nanos as nat
    }
}

impl Duration {
    #[verifier::type_invariant]
    spec fn in_range(self) -> bool {
        self.nanos < 18446744073709551616u128 * NANOS_PER_SEC
    }

    /// `secs` whole seconds.
    pub fn from_secs(secs: u64) -> (d: Duration)
        ensures
            d@ == secs * NANOS_PER_SEC,
    {
        Duration { nanos: secs as u128 * NANOS_PER_SEC }
    }

    /// `millis` milliseconds.
    pub fn from_millis(millis: u64) -> (d: Duration)
        ensures
            d@ == millis * NANOS_PER_MILLI,
    {
        Duration { nanos: millis as u128 * NANOS_PER_MILLI }
    }

    /// `secs` seconds and `nanos` nanoseconds.
    pub fn new(secs: u64, nanos: u32) -> (d: Duration)
        requires
            nanos < NANOS_PER_SEC,
        ensures
            d@ == secs * NANOS_PER_SEC + nanos,
    {
        Duration { nanos: secs as u128 * NANOS_PER_SEC + nanos as u128 }
    }

    /// No time at all.
    pub fn zero() -> (d: Duration)
        ensures
            d@ == 0,
    {
        Duration { nanos: 0 }
    }

    /// Whether this is no time at all.
    pub fn is_zero(&self) -> (r: bool)
        ensures
            r == (self@ == 0),
    {
        self.nanos == 0
    }

    /// The whole seconds in the span.
    pub fn as_secs(&self) -> (secs: u64)
        ensures
            secs == self@ / NANOS_PER_SEC as nat,
    {
        proof {
            use_type_invariant(*self);
        }
        (self.nanos / NANOS_PER_SEC) as u64
    }

    /// The nanoseconds past the whole seconds.
    pub fn subsec_nanos(&self) -> (nanos: u32)
        ensures
            nanos == self@ % NANOS_PER_SEC as nat,
            nanos < NANOS_PER_SEC,
    {
        (self.nanos % NANOS_PER_SEC) as u32
    }

    /// The whole milliseconds in the span.
    pub fn as_millis(&self) -> (millis: u128)
        ensures
            millis == self@ / NANOS_PER_MILLI as nat,
    {
        self.nanos / NANOS_PER_MILLI
    }

    /// The whole milliseconds in the span, in 64 bits: the low ones when
    /// there are more.
    pub fn as_millis_u64(&self) -> (millis: u64)
        ensures
            millis == (self@ / NANOS_PER_MILLI as nat) % 0x1_0000_0000_0000_0000,
    {
        let millis: u128 = self.as_millis();
        (millis % 0x1_0000_0000_0000_0000u128) as u64
    }

    /// Whether this span is at least as long as `other`.
    pub fn at_least(&self, other: &Duration) -> (r: bool)
        ensures
            r == (self@ >= other@),
    {
        self.nanos >= other.nanos
    }

    /// The longer of two spans.
    pub fn longer(self, other: Duration) -> (d: Duration)
        ensures
            d@ == if self@ >= other@ {
                self@
            } else {
                other@
            },
            d == self || d == other,
    {
        if self.nanos >= other.nanos {
            self
        } else {
            other
        }
    }

    /// Whether more than `limit` has passed from `earlier` to `self`, both
    /// read from one clock. Nothing has passed when `earlier` is the later.
    pub fn is_past(&self, earlier: &Duration, limit: &Duration) -> (r: bool)
        ensures
            r == (self@ - earlier@ > limit@),
    {
        self.nanos > earlier.nanos && self.nanos - earlier.nanos > limit.nanos
    }

    /// What has passed from `earlier` to `self`, both read from one clock.
    /// Nothing has when `earlier` is the later.
    pub fn since(&self, earlier: &Duration) -> (d: Duration)
        ensures
            d@ == elapsed(self@, earlier@),
    {
        proof {
            use_type_invariant(self);
        }
        if self.nanos >= earlier.nanos {
            Duration { nanos: self.nanos - earlier.nanos }
        } else {
            Duration { nanos: 0 }
        }
    }

    /// The reading of a clock when `span` more has passed, or the last one
    /// it can show.
    pub fn later(&self, span: &Duration) -> (d: Duration)
        ensures
            d@ == later(self@, span@),
    {
        proof {
            use_type_invariant(self);
            use_type_invariant(span);
        }
        let sum: u128 = self.nanos + span.nanos;
        if sum <= LAST_NANO {
            Duration { nanos: sum }
        } else {
            Duration { nanos: LAST_NANO }
        }
    }
}

/// The nanoseconds of the longest span.
pub const LAST_NANO: u128 = 18446744073709551615999999999;

/// The reading of a clock when `span` more has passed, or the last one it
/// can show.
pub open spec fn later(now: nat, span: nat) -> nat {
    if now + span <= LAST_NANO {
        now + span
    } else {
        LAST_NANO as nat
    }
}

/// What has passed from `earlier` to `now`; nothing when `earlier` is the
/// later.
pub open spec fn elapsed(now: nat, earlier: nat) -> nat {
    if now >= earlier {
        (now - earlier) as nat
    } else {
        0
    }
}

/// A span is a machine integer of nanoseconds.
pub proof fn spans_are_bounded(d: Duration)
    ensures
        d@ <= u128::MAX,
{
}

/// A clock goes forward by the span that passes, up to its last reading.
pub proof fn clocks_go_forward(now: nat, span: nat)
    ensures
        now + span <= 18446744073709551615999999999 ==> later(now, span) == now + span,
        now + span > 18446744073709551615999999999 ==> later(now, span)
            == 18446744073709551615999999999,
        now + span <= 18446744073709551615999999999 ==> elapsed(later(now, span), now) == span,
        elapsed(now, now + span) == 0,
{
}

} // verus!
