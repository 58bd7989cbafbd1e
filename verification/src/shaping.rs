//! Connection-count shaping for a destination site.
//!
//! Given the ready-queue backlog `q` and the configured connection
//! ceiling `L`, the ideal number of connections follows an exponential
//! decay curve in its increasing form: `ceil(L * (1 - d^q))`, where `d`
//! approximates `e^(-0.023)` in 32-bit fixed point. The curve passes
//! through 0, rises by roughly 2.3% of the remaining headroom per
//! queued message, and is asymptotic to `L`: few connections for small
//! bursts, quick saturation for large backlogs, never more than the
//! ceiling.

use vstd::prelude::*;

verus! {

/// Fixed-point scale: values are fractions over `2^32`.
pub const DECAY_ONE: u64 = 0x1_0000_0000;

/// `e^(-0.023)` in fixed point: `round(e^(-0.023) * 2^32)`.
pub const DECAY_STEP: u64 = 4197310407;

/// `d^q` in fixed point over `2^32`, rounding down at each step.
pub open spec fn spec_decay(q: nat) -> int
    decreases q,
{
    if q == 0 {
        DECAY_ONE as int
    } else {
        spec_decay((q - 1) as nat) * DECAY_STEP / DECAY_ONE as int
    }
}

/// The decay factor stays within `[0, 2^32]`.
pub proof fn lemma_decay_bounds(q: nat)
    ensures
        0 <= spec_decay(q) <= DECAY_ONE,
    decreases q,
{
    if q > 0 {
        lemma_decay_bounds((q - 1) as nat);
        let prev = spec_decay((q - 1) as nat);
        assert(0 <= prev * DECAY_STEP / DECAY_ONE as int <= DECAY_ONE)
            by (nonlinear_arith)
            requires
                0 <= prev <= DECAY_ONE,
        ;
    }
}

/// The decay factor never grows as the backlog grows.
pub proof fn lemma_decay_mono(q1: nat, q2: nat)
    requires
        q1 <= q2,
    ensures
        spec_decay(q2) <= spec_decay(q1),
    decreases q2,
{
    if q1 < q2 {
        lemma_decay_mono(q1, (q2 - 1) as nat);
        let prev = spec_decay((q2 - 1) as nat);
        lemma_decay_bounds((q2 - 1) as nat);
        assert(prev * DECAY_STEP / DECAY_ONE as int <= prev) by (nonlinear_arith)
            requires
                0 <= prev,
        ;
    }
}

/// Ideal connection count for backlog `q` under ceiling `limit`:
/// `ceil(limit * (1 - d^q))` in fixed point.
pub open spec fn spec_ideal_connection_count(q: nat, limit: nat) -> int {
    (limit * (DECAY_ONE - spec_decay(q)) + DECAY_ONE - 1) / DECAY_ONE as int
}

/// LAW (concavity, bounded part): the ideal connection count never
/// exceeds the configured ceiling.
pub proof fn lemma_ideal_bounded(q: nat, limit: nat)
    ensures
        0 <= spec_ideal_connection_count(q, limit) <= limit,
{
    lemma_decay_bounds(q);
    let x = spec_decay(q);
    assert((limit * (DECAY_ONE - x) + DECAY_ONE - 1) / DECAY_ONE as int <= limit)
        by (nonlinear_arith)
        requires
            0 <= x <= DECAY_ONE,
            limit >= 0,
    ;
    assert((limit * (DECAY_ONE - x) + DECAY_ONE - 1) / DECAY_ONE as int >= 0)
        by (nonlinear_arith)
        requires
            0 <= x <= DECAY_ONE,
            limit >= 0,
    ;
}

/// LAW (concavity, monotone part): the ideal connection count is
/// non-decreasing in the backlog.
pub proof fn lemma_ideal_mono(q1: nat, q2: nat, limit: nat)
    requires
        q1 <= q2,
    ensures
        spec_ideal_connection_count(q1, limit) <= spec_ideal_connection_count(q2, limit),
{
    lemma_decay_mono(q1, q2);
    lemma_decay_bounds(q1);
    lemma_decay_bounds(q2);
    let x1 = spec_decay(q1);
    let x2 = spec_decay(q2);
    assert((limit * (DECAY_ONE - x1) + DECAY_ONE - 1) / DECAY_ONE as int <= (limit * (
    DECAY_ONE - x2) + DECAY_ONE - 1) / DECAY_ONE as int) by (nonlinear_arith)
        requires
            x2 <= x1,
            0 <= x2,
            x1 <= DECAY_ONE,
            limit >= 0,
    ;
}

/// An empty backlog asks for no connections at all.
pub proof fn lemma_ideal_zero(limit: nat)
    ensures
        spec_ideal_connection_count(0, limit) == 0,
{
    assert((limit * (DECAY_ONE - DECAY_ONE as int) + DECAY_ONE - 1) / DECAY_ONE as int
        == 0) by (nonlinear_arith)
        requires
            limit >= 0,
    ;
}

/// Once `limit * d^q` drops below one fixed-point unit, the ceiling is
/// reached exactly.
proof fn lemma_ideal_saturated(q: nat, limit: nat)
    requires
        limit * spec_decay(q) < DECAY_ONE,
    ensures
        spec_ideal_connection_count(q, limit) == limit,
{
    lemma_decay_bounds(q);
    let x = spec_decay(q);
    assert((limit * (DECAY_ONE - x) + DECAY_ONE - 1) / DECAY_ONE as int == limit)
        by (nonlinear_arith)
        requires
            0 <= x <= DECAY_ONE,
            limit >= 0,
            limit * x < DECAY_ONE,
    ;
}

/// Whether `limit * x` still reaches one fixed-point unit, i.e. the
/// curve has not yet saturated at the ceiling.
fn decay_live(limit: u128, x: u64) -> (b: bool)
    requires
        limit <= u64::MAX,
        x <= DECAY_ONE,
    ensures
        b == (limit * x >= DECAY_ONE),
{
    proof {
        assert(limit * x <= u64::MAX as int * DECAY_ONE as int) by (nonlinear_arith)
            requires
                0 <= limit <= u64::MAX,
                0 <= x <= DECAY_ONE,
        ;
    }
    limit * (x as u128) >= DECAY_ONE as u128
}

/// Ideal connection count: an exponential decay curve in the
/// increasing form, asymptotic up to `connection_limit`, passing
/// through 0, increasing but bounded by `connection_limit`.
pub fn ideal_connection_count(queue_size: usize, connection_limit: usize) -> (r: usize)
    ensures
        r == spec_ideal_connection_count(queue_size as nat, connection_limit as nat),
        0 <= r <= connection_limit,
{
    let limit = connection_limit as u128;
    let mut x: u64 = DECAY_ONE;
    let mut i: usize = 0;
    while i < queue_size && decay_live(limit, x)
        invariant
            i <= queue_size,
            limit == connection_limit as u128,
            x == spec_decay(i as nat),
            0 <= x <= DECAY_ONE,
        decreases queue_size - i,
    {
        proof {
            assert(x * DECAY_STEP <= DECAY_ONE as int * DECAY_STEP as int)
                by (nonlinear_arith)
                requires
                    0 <= x <= DECAY_ONE,
            ;
        }
        let prod: u128 = x as u128 * DECAY_STEP as u128;
        let next: u128 = prod / (DECAY_ONE as u128);
        proof {
            assert(next == spec_decay((i + 1) as nat));
            lemma_decay_bounds((i + 1) as nat);
        }
        x = next as u64;
        i = i + 1;
    }
    proof {
        lemma_ideal_bounded(queue_size as nat, connection_limit as nat);
    }
    if !decay_live(limit, x) {
        // saturated: the curve has effectively reached the ceiling
        proof {
            lemma_decay_mono(i as nat, queue_size as nat);
            lemma_decay_bounds(queue_size as nat);
            assert(connection_limit * spec_decay(queue_size as nat) <= connection_limit
                * spec_decay(i as nat)) by (nonlinear_arith)
                requires
                    0 <= spec_decay(queue_size as nat) <= spec_decay(i as nat),
                    connection_limit >= 0,
            ;
            lemma_ideal_saturated(queue_size as nat, connection_limit as nat);
        }
        connection_limit
    } else {
        proof {
            lemma_decay_bounds(queue_size as nat);
        }
        proof {
            assert(limit * ((DECAY_ONE - x) as int) <= u64::MAX as int * DECAY_ONE
                as int) by (nonlinear_arith)
                requires
                    0 <= limit <= u64::MAX,
                    0 <= DECAY_ONE - x <= DECAY_ONE,
            ;
        }
        let head: u128 = limit * ((DECAY_ONE - x) as u128);
        let goal: u128 = (head + (DECAY_ONE - 1) as u128) / (DECAY_ONE as u128);
        proof {
            assert(goal == spec_ideal_connection_count(queue_size as nat,
                connection_limit as nat));
            assert(goal <= connection_limit as u128);
        }
        goal as usize
    }
}

} // verus!
