//! Scheduling jitter without a random-number dependency.

use std::collections::hash_map::{DefaultHasher, RandomState};
use std::hash::{BuildHasher, Hasher};
use std::ops::Range;
use vstd::prelude::*;

verus! {

/// `RandomState::new` draws fresh hasher keys; nothing is claimed of them.
pub assume_specification[ RandomState::new ]() -> (r: RandomState)
;

/// `RandomState::build_hasher` makes a hasher with those keys; nothing is
/// claimed of its state.
pub assume_specification[ <RandomState as BuildHasher>::build_hasher ](
    state: &RandomState,
) -> (r: DefaultHasher)
;

/// A number seeded from the std hasher's per-process randomness. It may be
/// any.
pub fn draw() -> (r: u64) {
    let state = RandomState::new();
    let hasher = state.build_hasher();
    hasher.finish()
}

/// Where `draw` falls in `range`: `range.start` for empty and single-value
/// ranges.
pub open spec fn picked(range: Range<u64>, draw: u64) -> u64 {
    if range.end - range.start <= 1 {
        range.start
    } else {
        (range.start + draw as int % (range.end - range.start)) as u64
    }
}

/// A value of `range`, or its start when there is at most one.
pub open spec fn in_range(range: Range<u64>, r: u64) -> bool {
    if range.end - range.start <= 1 {
        r == range.start
    } else {
        range.start <= r < range.end
    }
}

/// What is picked from a range is in it.
pub proof fn picks_are_in_range(range: Range<u64>, draw: u64)
    ensures
        in_range(range, picked(range, draw)),
{
}

/// Place `draw` in `range`.
pub fn pick(range: Range<u64>, draw: u64) -> (r: u64)
    ensures
        r == picked(range, draw),
        in_range(range, r),
{
    let span: u64 = range.end.saturating_sub(range.start);
    if span <= 1 {
        return range.start;
    }
    range.start + draw % span
}

/// Uniform sample from `range` (empty or single-value ranges return
/// `range.start`) — enough for spreading reconnects and retry hints, one
/// dependency fewer.
pub fn uniform(range: Range<u64>) -> (r: u64)
    ensures
        in_range(range, r),
        exists|draw: u64| r == picked(range, draw),
{
    let d: u64 = draw();
    let r: u64 = pick(range, d);
    assert(r == picked(range, d));
    r
}

/// The cap of an attempt: `base·2^attempt` (the exponent stops at 30), never
/// above `max` nor what 64 bits hold.
pub open spec fn backoff_cap(attempt: u32, base_ms: u64, max_ms: u64) -> u64 {
    let shift: nat = if attempt <= 30 {
        attempt as nat
    } else {
        30
    };
    let grown = base_ms * vstd::arithmetic::power2::pow2(shift);
    if grown <= max_ms {
        grown as u64
    } else {
        max_ms
    }
}

/// The wait of an attempt, given what was drawn.
pub open spec fn backoff_wait(
    attempt: u32,
    base_ms: u64,
    max_ms: u64,
    floor_ms: u64,
    draw: u64,
) -> u64 {
    let cap = backoff_cap(attempt, base_ms, max_ms);
    let drawn = picked((Range { start: 0u64, end: if cap == 0 { 1u64 } else { cap } }), draw);
    if drawn >= floor_ms {
        drawn
    } else {
        floor_ms
    }
}

/// [`backoff_ms`] for a number already drawn.
pub fn backoff_ms_from(attempt: u32, base_ms: u64, max_ms: u64, floor_ms: u64, draw: u64) -> (r:
    u64)
    ensures
        r == backoff_wait(attempt, base_ms, max_ms, floor_ms, draw),
        floor_ms <= r,
        r <= max_ms || r == floor_ms,
{
    let shift: u32 = if attempt <= 30 {
        attempt
    } else {
        30
    };
    proof {
        vstd::bits::lemma_u64_pow2_no_overflow(shift as nat);
        vstd::bits::lemma_u64_shl_is_mul(1, shift as u64);
        let p = vstd::arithmetic::power2::pow2(shift as nat);
        assert(base_ms * p <= 0xffff_ffff_ffff_ffff * 0xffff_ffff_ffff_ffff) by (nonlinear_arith)
            requires
                base_ms <= 0xffff_ffff_ffff_ffff,
                0 <= p <= 0xffff_ffff_ffff_ffff,
        ;
    }
    let grown: u128 = base_ms as u128 * (1u64 << shift) as u128;
    let cap: u64 = if grown <= max_ms as u128 {
        grown as u64
    } else {
        max_ms
    };
    let end: u64 = if cap == 0 {
        1
    } else {
        cap
    };
    let drawn: u64 = pick((Range { start: 0u64, end }), draw);
    if drawn >= floor_ms {
        drawn
    } else {
        floor_ms
    }
}

/// Full jitter over an exponential cap: `random(0, min(max, base·2^attempt))`,
/// never below `floor`. Milliseconds in, milliseconds out.
pub fn backoff_ms(attempt: u32, base_ms: u64, max_ms: u64, floor_ms: u64) -> (r: u64)
    ensures
        exists|draw: u64| r == backoff_wait(attempt, base_ms, max_ms, floor_ms, draw),
        floor_ms <= r,
        r <= max_ms || r == floor_ms,
{
    let d: u64 = draw();
    let r: u64 = backoff_ms_from(attempt, base_ms, max_ms, floor_ms, d);
    assert(r == backoff_wait(attempt, base_ms, max_ms, floor_ms, d));
    r
}

/// Every value of a range can be drawn, and none is drawn more readily than
/// another: the draws run through the range over and over, in order.
pub proof fn every_value_can_be_drawn(range: Range<u64>, value: u64, rounds: nat)
    requires
        range.start <= value < range.end,
        (value - range.start) + rounds * (range.end - range.start) <= u64::MAX,
    ensures
        picked(range, ((value - range.start) + rounds * (range.end - range.start)) as u64) == value,
{
    let span = range.end - range.start;
    let at = value - range.start;
    let draw = at + rounds * span;
    assert(draw % span == at) by {
        vstd::arithmetic::div_mod::lemma_mod_multiples_vanish(rounds as int, at, span);
        vstd::arithmetic::div_mod::lemma_small_mod(at as nat, span as nat);
        assert(span * rounds + at == draw) by (nonlinear_arith)
            requires
                draw == at + rounds * span,
        ;
    }
    assert(draw >= 0) by (nonlinear_arith)
        requires
            draw == at + rounds * span,
            at >= 0,
            span >= 0,
    ;
}

/// The cap begins at the base, doubles with every attempt up to the
/// thirtieth, and never passes the largest.
pub proof fn the_cap_doubles(attempt: u32, base_ms: u64, max_ms: u64)
    ensures
        backoff_cap(0, base_ms, max_ms) == if base_ms <= max_ms {
            base_ms
        } else {
            max_ms
        },
        attempt < 30 ==> backoff_cap((attempt + 1) as u32, base_ms, max_ms) == if 2 * backoff_cap(
            attempt,
            base_ms,
            max_ms,
        ) <= max_ms {
            2 * backoff_cap(attempt, base_ms, max_ms)
        } else {
            max_ms as int
        },
        attempt >= 30 ==> backoff_cap(attempt, base_ms, max_ms) == backoff_cap(
            30,
            base_ms,
            max_ms,
        ),
{
    let p = vstd::arithmetic::power2::pow2(attempt as nat);
    vstd::arithmetic::power2::lemma2_to64();
    assert(base_ms * vstd::arithmetic::power2::pow2(0) == base_ms);
    if attempt < 30 {
        vstd::arithmetic::power2::lemma_pow2_unfold((attempt + 1) as nat);
        let q = vstd::arithmetic::power2::pow2((attempt + 1) as nat);
        assert(q == 2 * p);
        assert(base_ms * q == 2 * (base_ms * p)) by (nonlinear_arith)
            requires
                q == 2 * p,
        ;
        assert(base_ms * p >= 0) by (nonlinear_arith)
            requires
                p >= 0,
                base_ms >= 0,
        ;
    }
}

/// A wait is anything below the cap, every value as readily as another, but
/// never below the floor.
pub proof fn a_wait_is_drawn_below_the_cap(
    attempt: u32,
    base_ms: u64,
    max_ms: u64,
    floor_ms: u64,
    draw: u64,
)
    ensures
        ({
            let cap = backoff_cap(attempt, base_ms, max_ms);
            let wait = backoff_wait(attempt, base_ms, max_ms, floor_ms, draw);
            &&& wait >= floor_ms
            &&& wait == floor_ms || wait < cap
            &&& floor_ms <= draw < cap ==> wait == draw
            &&& draw < cap && draw < floor_ms ==> wait == floor_ms
        }),
{
    let cap = backoff_cap(attempt, base_ms, max_ms);
    picks_are_in_range((Range { start: 0u64, end: if cap == 0 { 1u64 } else { cap } }), draw);
    if draw < cap {
        vstd::arithmetic::div_mod::lemma_small_mod(draw as nat, cap as nat);
    }
}

} // verus!
