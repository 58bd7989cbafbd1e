//! Retry backoff schedule for one logical queue.
//!
//! `QueueConfig` carries the per-queue retry policy: the base retry
//! interval, an optional cap on the computed interval, and the maximum
//! age a message may reach before it is expired. All durations are in
//! whole seconds.

use vstd::arithmetic::power::pow;
use vstd::prelude::*;

verus! {

/// Per-queue retry policy, in seconds.
pub struct QueueConfig {
    /// Base retry interval to use in exponential backoff.
    pub retry_interval: u64,
    /// Optional cap on the computed retry interval. Set to the same
    /// number as `retry_interval` to prevent exponential growth.
    pub max_retry_interval: Option<u64>,
    /// Limits how long a message can remain in the queue.
    pub max_age: u64,
}

/// `base^exp`, saturating at `u64::MAX`.
pub open spec fn spec_sat_pow(base: u64, exp: nat) -> int
    decreases exp,
{
    if exp == 0 {
        1
    } else {
        let rest = spec_sat_pow(base, (exp - 1) as nat);
        if base * rest > u64::MAX {
            u64::MAX as int
        } else {
            base * rest
        }
    }
}

/// Saturating integer power, `base^exp`.
fn sat_pow(base: u64, exp: u32) -> (r: u64)
    ensures
        r == spec_sat_pow(base, exp as nat),
{
    let mut acc: u64 = 1;
    let mut i: u32 = 0;
    while i < exp
        invariant
            i <= exp,
            acc == spec_sat_pow(base, i as nat),
        decreases exp - i,
    {
        acc = if acc > 0 && base > u64::MAX / acc {
            proof {
                lemma_mul_over(base, acc);
            }
            u64::MAX
        } else {
            proof {
                if acc > 0 {
                    lemma_mul_under(base, acc);
                }
            }
            base * acc
        };
        i = i + 1;
    }
    acc
}

proof fn lemma_mul_under(base: u64, acc: u64)
    requires
        acc > 0,
        base <= u64::MAX / acc,
    ensures
        base * acc <= u64::MAX,
{
    assert(base * acc <= u64::MAX) by (nonlinear_arith)
        requires
            acc > 0,
            base <= u64::MAX / acc,
    ;
}

proof fn lemma_mul_over(base: u64, acc: u64)
    requires
        acc > 0,
        base > u64::MAX / acc,
    ensures
        base * acc > u64::MAX,
{
    assert(base * acc > u64::MAX) by (nonlinear_arith)
        requires
            acc > 0,
            base > u64::MAX / acc,
    ;
}

/// `spec_sat_pow` is `base^exp` capped at `u64::MAX`.
proof fn lemma_sat_pow_is_pow(base: u64, exp: nat)
    ensures
        spec_sat_pow(base, exp) == if pow(base as int, exp) > u64::MAX {
            u64::MAX as int
        } else {
            pow(base as int, exp)
        },
        spec_sat_pow(base, exp) >= 0,
        pow(base as int, exp) >= 0,
    decreases exp,
{
    reveal(pow);
    if exp == 0 {
    } else {
        lemma_sat_pow_is_pow(base, (exp - 1) as nat);
        let rest = spec_sat_pow(base, (exp - 1) as nat);
        let prev = pow(base as int, (exp - 1) as nat);
        assert(pow(base as int, exp) == base * prev);
        if prev > u64::MAX {
            // the saturated tail keeps the product at least as large
            assert(rest == u64::MAX);
            if base == 0 {
                assert(base * prev == 0);
                assert(base * rest == 0);
            } else {
                assert(base >= 2) by {
                    if base == 1 {
                        lemma_pow_one_base((exp - 1) as nat);
                    }
                }
                assert(base * prev > u64::MAX && base * rest > u64::MAX)
                    by (nonlinear_arith)
                    requires
                        base >= 2,
                        prev > u64::MAX,
                        rest == u64::MAX,
                ;
            }
        } else {
            assert(rest == prev);
            assert(base * prev >= 0) by (nonlinear_arith)
                requires
                    base >= 0,
                    prev >= 0,
            ;
        }
    }
}

/// `pow` is monotone in the base, for non-negative bases.
proof fn lemma_pow_base_mono(a: int, b: int, e: nat)
    requires
        0 <= a <= b,
    ensures
        pow(a, e) <= pow(b, e),
        pow(a, e) >= 0,
    decreases e,
{
    reveal(pow);
    if e == 0 {
    } else {
        lemma_pow_base_mono(a, b, (e - 1) as nat);
        assert(a * pow(a, (e - 1) as nat) <= b * pow(b, (e - 1) as nat))
            by (nonlinear_arith)
            requires
                0 <= a <= b,
                0 <= pow(a, (e - 1) as nat) <= pow(b, (e - 1) as nat),
        ;
        assert(a * pow(a, (e - 1) as nat) >= 0) by (nonlinear_arith)
            requires
                0 <= a,
                0 <= pow(a, (e - 1) as nat),
        ;
    }
}

/// `pow` is monotone in the exponent, for bases of at least one.
proof fn lemma_pow_exp_mono(b: int, e1: nat, e2: nat)
    requires
        b >= 1,
        e1 <= e2,
    ensures
        pow(b, e1) <= pow(b, e2),
        pow(b, e1) >= 1,
    decreases e2,
{
    reveal(pow);
    if e2 == 0 {
    } else if e1 == e2 {
        lemma_pow_exp_mono(b, 0, (e2 - 1) as nat);
        assert(b * pow(b, (e2 - 1) as nat) >= 1) by (nonlinear_arith)
            requires
                b >= 1,
                pow(b, (e2 - 1) as nat) >= 1,
        ;
    } else {
        lemma_pow_exp_mono(b, e1, (e2 - 1) as nat);
        assert(b * pow(b, (e2 - 1) as nat) >= pow(b, (e2 - 1) as nat))
            by (nonlinear_arith)
            requires
                b >= 1,
                pow(b, (e2 - 1) as nat) >= 1,
        ;
    }
}

/// `pow(k, e) <= bound`, decided without overflow.
fn pow_le(k: u64, e: u32, bound: u64) -> (r: bool)
    ensures
        r == (pow(k as int, e as nat) <= bound),
{
    if k == 0 {
        proof {
            reveal(pow);
            if e >= 1 {
                lemma_pow_zero_base(e as nat);
            }
        }
        if e == 0 {
            return 1 <= bound;
        }
        return true;
    }
    if k == 1 {
        proof {
            lemma_pow_one_base(e as nat);
        }
        return 1 <= bound;
    }
    let mut acc: u64 = 1;
    let mut i: u32 = 0;
    proof {
        reveal(pow);
    }
    while i < e
        invariant
            i <= e,
            k >= 2,
            acc == pow(k as int, i as nat),
        decreases e - i,
    {
        let next = match acc.checked_mul(k) {
            Some(v) => v,
            None => {
                // overflow: the power exceeds u64::MAX, hence any bound
                proof {
                    reveal(pow);
                    assert(k * acc > u64::MAX) by (nonlinear_arith)
                        requires
                            acc * k > u64::MAX,
                    ;
                    assert(pow(k as int, (i + 1) as nat) == k * acc);
                    lemma_pow_exp_mono(k as int, (i + 1) as nat, e as nat);
                }
                return false;
            },
        };
        proof {
            reveal(pow);
            assert(pow(k as int, (i + 1) as nat) == k * acc);
        }
        acc = next;
        i = i + 1;
    }
    acc <= bound
}

impl QueueConfig {
    /// The delay before retry number `attempt`, in seconds:
    /// `min(retry_interval^(1 + attempt), max_retry_interval)`,
    /// saturating at `u64::MAX`. Attempt numbering starts at 0 for the
    /// first retry.
    pub open spec fn spec_delay_for_attempt(&self, attempt: int) -> int {
        let raw = pow(self.retry_interval as int, (1 + attempt) as nat);
        let sat = if raw > u64::MAX {
            u64::MAX as int
        } else {
            raw
        };
        match self.max_retry_interval {
            None => sat,
            Some(limit) => if sat < limit {
                sat
            } else {
                limit as int
            },
        }
    }

    /// The default policy: a twenty-hour base interval, no cap, and a
    /// week before expiry.
    pub fn default() -> (r: QueueConfig)
        ensures
            r.retry_interval == 72000,
            r.max_retry_interval is None,
            r.max_age == 604800,
    {
        QueueConfig { retry_interval: 72000, max_retry_interval: None, max_age: 604800 }
    }

    /// Compute the delay before retry number `attempt`.
    pub fn delay_for_attempt(&self, attempt: u16) -> (delay: u64)
        ensures
            delay == self.spec_delay_for_attempt(attempt as int),
    {
        proof {
            lemma_sat_pow_is_pow(self.retry_interval, (1 + attempt) as nat);
        }
        let delay = sat_pow(self.retry_interval, 1 + attempt as u32);
        match self.max_retry_interval {
            None => delay,
            Some(limit) => if delay < limit {
                delay
            } else {
                limit
            },
        }
    }

    /// The limit on how long a message may remain queued, in seconds.
    pub fn get_max_age(&self) -> (age: u64)
        ensures
            age == self.max_age,
    {
        self.max_age
    }

    /// Total scheduled delay ahead of retry number `n`: the sum of
    /// `spec_delay_for_attempt(i)` for `i` in `1..n`.
    pub open spec fn spec_overall_delay(&self, n: int) -> int
        decreases n,
    {
        if n <= 1 {
            0
        } else {
            self.spec_overall_delay(n - 1) + self.spec_delay_for_attempt(n - 1)
        }
    }

    /// Every backoff delay is non-negative.
    proof fn lemma_delay_nonneg(&self, attempt: int)
        ensures
            self.spec_delay_for_attempt(attempt) >= 0,
    {
        lemma_pow_base_mono(self.retry_interval as int, self.retry_interval as int,
            (1 + attempt) as nat);
    }

    /// The summed schedule is non-negative and non-decreasing in `n`.
    proof fn lemma_overall_delay_nonneg(&self, n: int)
        ensures
            self.spec_overall_delay(n) >= 0,
        decreases n,
    {
        if n > 1 {
            self.lemma_overall_delay_nonneg(n - 1);
            self.lemma_delay_nonneg(n - 1);
        }
    }

    /// Number of attempts to assume for a message of the given age (in
    /// seconds) whose attempt counter was not preserved: with a capped
    /// interval, `age / cap`; otherwise the `retry_interval`-th root of
    /// the age. The result saturates at `u16::MAX`.
    pub fn infer_num_attempts(&self, age: u64) -> (n: u16)
        ensures
            match self.max_retry_interval {
                Some(limit) => {
                    &&& limit > 0 ==> n == if age / limit > 65535 {
                        65535int
                    } else {
                        (age / limit) as int
                    }
                    &&& limit == 0 ==> n == if age > 0 {
                        65535int
                    } else {
                        0int
                    }
                },
                None => {
                    let r = self.retry_interval;
                    &&& r == 0 ==> n == if age >= 2 {
                        65535int
                    } else {
                        age as int
                    }
                    &&& r >= 1 ==> pow(n as int, r as nat) <= age && (n == 65535
                        || pow(n + 1, r as nat) > age)
                },
            },
    {
        match self.max_retry_interval {
            Some(limit) => {
                if limit == 0 {
                    if age > 0 {
                        65535
                    } else {
                        0
                    }
                } else {
                    let q = age / limit;
                    if q > 65535 {
                        65535
                    } else {
                        q as u16
                    }
                }
            },
            None => {
                let r = self.retry_interval;
                if r == 0 {
                    if age >= 2 {
                        65535
                    } else {
                        age as u16
                    }
                } else {
                    let e: u32 = if r > 64 {
                        64
                    } else {
                        r as u32
                    };
                    proof {
                        if r > 64 {
                            lemma_root_exp_clamp(r, age);
                        }
                    }
                    // binary search for the largest k <= 65536 with k^e <= age
                    let mut lo: u64 = 0;
                    let mut hi: u64 = 65536;
                    proof {
                        lemma_pow_zero_base(e as nat);
                    }
                    while lo < hi
                        invariant
                            lo <= hi <= 65536,
                            e >= 1,
                            pow(lo as int, e as nat) <= age,
                            hi < 65536 ==> pow(hi + 1, e as nat) > age,
                        decreases hi - lo,
                    {
                        let mid = lo + (hi - lo + 1) / 2;
                        if pow_le(mid, e, age) {
                            lo = mid;
                        } else {
                            hi = mid - 1;
                        }
                    }
                    proof {
                        lemma_root_exp_transfer(r, e, lo as int, age);
                        if lo < 65535 {
                            lemma_root_exp_transfer(r, e, lo + 1, age);
                        }
                        if lo > 65535 {
                            lemma_pow_base_mono(65535int, lo as int, r as nat);
                        }
                    }
                    if lo > 65535 {
                        65535
                    } else {
                        lo as u16
                    }
                }
            },
        }
    }

    /// The delay still to wait for a message that has already aged by
    /// `age` seconds and is assumed to be at retry `num_attempts`:
    /// `None` when the summed schedule has reached `max_age` (the
    /// message must expire), otherwise the part of the summed schedule
    /// that the age has not yet covered.
    pub fn compute_delay_based_on_age(&self, num_attempts: u16, age: u64) -> (r: Option<
        u64,
    >)
        ensures
            (r is None) <==> self.spec_overall_delay(num_attempts as int) >= self.max_age,
            (r is Some) ==> r->0 == if self.spec_overall_delay(num_attempts as int)
                <= age {
                0int
            } else {
                self.spec_overall_delay(num_attempts as int) - age
            },
    {
        let mut sum: u64 = 0;
        let mut i: u16 = 1;
        if num_attempts >= 1 {
            while i < num_attempts
                invariant
                    1 <= i <= num_attempts,
                    sum == if self.spec_overall_delay(i as int) > u64::MAX {
                        u64::MAX as int
                    } else {
                        self.spec_overall_delay(i as int)
                    },
                decreases num_attempts - i,
            {
                let term = self.delay_for_attempt(i);
                proof {
                    self.lemma_overall_delay_nonneg(i as int);
                    self.lemma_delay_nonneg(i as int);
                }
                sum = if term > u64::MAX - sum {
                    u64::MAX
                } else {
                    sum + term
                };
                i = i + 1;
            }
        }
        proof {
            self.lemma_overall_delay_nonneg(num_attempts as int);
        }
        let overall = sum;
        if overall >= self.max_age {
            None
        } else if overall <= age {
            Some(0)
        } else {
            Some(overall - age)
        }
    }

    /// LAW (backoff monotonicity): for every attempt number `n >= 0`,
    /// the delay before retry `n + 1` is at least the delay before
    /// retry `n`, the cap being respected on both sides.
    pub proof fn lemma_backoff_monotone(&self, n: int)
        requires
            n >= 0,
        ensures
            self.spec_delay_for_attempt(n + 1) >= self.spec_delay_for_attempt(n),
    {
        if self.retry_interval == 0 {
            lemma_pow_zero_base((1 + n) as nat);
            lemma_pow_zero_base((2 + n) as nat);
        } else {
            lemma_pow_exp_mono(self.retry_interval as int, (1 + n) as nat, (2 + n) as nat);
        }
    }

    /// LAW (schedule termination): when every single delay is at least
    /// one second, the summed schedule passes any finite `max_age`, so
    /// `compute_delay_based_on_age` eventually reports expiry.
    pub proof fn lemma_schedule_terminates(&self, n: int)
        requires
            self.retry_interval >= 1,
            self.max_retry_interval is Some ==> self.max_retry_interval->0 >= 1,
            n > self.max_age,
        ensures
            self.spec_overall_delay(n) >= self.max_age,
    {
        self.lemma_overall_delay_at_least(n);
    }

    /// With delays of at least one second each, the schedule sum up to
    /// `n` is at least `n - 1`.
    proof fn lemma_overall_delay_at_least(&self, n: int)
        requires
            self.retry_interval >= 1,
            self.max_retry_interval is Some ==> self.max_retry_interval->0 >= 1,
        ensures
            self.spec_overall_delay(n) >= n - 1,
        decreases n,
    {
        if n > 1 {
            self.lemma_overall_delay_at_least(n - 1);
            lemma_pow_exp_mono(self.retry_interval as int, 0, n as nat);
        }
    }
}

/// For exponents past 64, whether `k^e` fits below a `u64` bound is
/// already decided at exponent 64 (for `k <= 65536`).
proof fn lemma_root_exp_clamp(r: u64, age: u64)
    requires
        r > 64,
    ensures
        forall|k: int|
            0 <= k <= 65536 ==> ((pow(k, 64) <= age) == (pow(k, r as nat) <= age)),
{
    assert forall|k: int| 0 <= k <= 65536 implies ((pow(k, 64) <= age) == (pow(
        k,
        r as nat,
    ) <= age)) by {
        lemma_pow_eq_past_64(k, r, age);
    }
}

proof fn lemma_pow_eq_past_64(k: int, r: u64, age: u64)
    requires
        r > 64,
        0 <= k <= 65536,
    ensures
        (pow(k, 64) <= age) == (pow(k, r as nat) <= age),
{
    if k == 0 {
        lemma_pow_zero_base(64);
        lemma_pow_zero_base(r as nat);
    } else if k == 1 {
        lemma_pow_one_base(64);
        lemma_pow_one_base(r as nat);
    } else {
        assert(pow(2int, 64) == 0x10000000000000000) by {
            vstd::arithmetic::power2::lemma2_to64_rest();
            vstd::arithmetic::power2::lemma_pow2(64);
        }
        lemma_pow_base_mono(2int, k, 64);
        lemma_pow_exp_mono(k, 64, r as nat);
        assert(pow(k, 64) > u64::MAX);
        assert(pow(k, r as nat) > u64::MAX);
    }
}

proof fn lemma_pow_one_base(e: nat)
    ensures
        pow(1int, e) == 1,
    decreases e,
{
    reveal(pow);
    if e > 0 {
        lemma_pow_one_base((e - 1) as nat);
    }
}

proof fn lemma_pow_zero_base(e: nat)
    requires
        e >= 1,
    ensures
        pow(0int, e) == 0,
    decreases e,
{
    reveal(pow);
    if e > 1 {
        lemma_pow_zero_base((e - 1) as nat);
    }
}

/// Transfers the binary search's result, computed at the clamped
/// exponent, back to the configured exponent.
proof fn lemma_root_exp_transfer(r: u64, e: u32, k: int, age: u64)
    requires
        r >= 1,
        e == if r > 64 {
            64int
        } else {
            r as int
        },
        0 <= k <= 65536,
    ensures
        (pow(k, e as nat) <= age) == (pow(k, r as nat) <= age),
{
    if r > 64 {
        lemma_pow_eq_past_64(k, r, age);
    }
}

} // verus!
