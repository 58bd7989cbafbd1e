//! The message as the scheduling core sees it.
//!
//! Spool storage keeps the authoritative copy; the core reads and
//! updates only the handful of attributes that routing and retry need.
//! All times are wall-clock seconds.

use vstd::prelude::*;

verus! {

/// One queued message: identity, routing attributes, and retry state.
#[derive(Debug, Clone, PartialEq, Eq)]
pub struct Message {
    /// Spool identifier; unique among live messages.
    pub id: u64,
    /// The logical queue this message belongs to, typically
    /// `campaign:tenant@domain`.
    pub queue_name: String,
    pub sender: String,
    pub recipient: String,
    /// How many transient delivery failures this message has seen;
    /// never decreases.
    pub num_attempts: u16,
    /// When the message was received.
    pub received: u64,
    /// When the message next becomes eligible for delivery.
    pub due: u64,
    /// Whether the in-memory copy still has to be written to the spool
    /// before the message may become ready.
    pub needs_save: bool,
}

impl Message {
    /// Wall-clock age of the message, saturating at zero for clocks
    /// that went backwards.
    pub fn age(&self, now: u64) -> (r: u64)
        ensures
            r == if now >= self.received {
                now - self.received
            } else {
                0int
            },
    {
        if now >= self.received {
            now - self.received
        } else {
            0
        }
    }

    /// Count one more transient failure, saturating at the counter's
    /// width.
    pub fn increment_num_attempts(&mut self)
        ensures
            final(self).num_attempts == if old(self).num_attempts == u16::MAX {
                u16::MAX as int
            } else {
                old(self).num_attempts + 1
            },
            *final(self) == (Message { num_attempts: final(self).num_attempts, ..(*old(self)) }),
    {
        if self.num_attempts < u16::MAX {
            self.num_attempts = self.num_attempts + 1;
        }
    }

    /// Schedule the message `delay` seconds from `now`, saturating.
    pub fn delay_by(&mut self, now: u64, delay: u64)
        ensures
            final(self).due == if now + delay > u64::MAX {
                u64::MAX as int
            } else {
                now + delay
            },
            *final(self) == (Message { due: final(self).due, ..(*old(self)) }),
    {
        self.due = if delay > u64::MAX - now {
            u64::MAX
        } else {
            now + delay
        };
    }

    /// Schedule the message about `delay` seconds from `now`, shifted
    /// by a jitter drawn in `[-30, 30]`.
    pub fn delay_with_jitter(&mut self, now: u64, delay: u64, jitter: i64)
        requires
            -30 <= jitter <= 30,
        ensures
            final(self).due == spec_jittered_due(now, delay, jitter),
            *final(self) == (Message { due: final(self).due, ..(*old(self)) }),
    {
        let jittered: u64 = if jitter >= 0 {
            let j = jitter as u64;
            if j > u64::MAX - delay {
                u64::MAX
            } else {
                delay + j
            }
        } else {
            let j = (-jitter) as u64;
            if delay >= j {
                delay - j
            } else {
                0
            }
        };
        self.delay_by(now, jittered);
    }
}

/// The due time that `delay` seconds plus `jitter` from `now` yields,
/// clamping the jittered delay at zero and saturating the sum.
pub open spec fn spec_jittered_due(now: u64, delay: u64, jitter: i64) -> int {
    let d = if delay + jitter < 0 {
        0int
    } else {
        delay + jitter
    };
    if now + d > u64::MAX {
        u64::MAX as int
    } else {
        now + d
    }
}

/// Whether every message of a run has been written to the spool: the
/// core keeps this true of everything it holds in memory, so that
/// crash recovery can resurrect any of it.
pub open spec fn spec_all_saved(ms: Seq<Message>) -> bool {
    forall|i: int| 0 <= i < ms.len() ==> !(#[trigger] ms[i]).needs_save
}

/// Pushing a saved message onto a run of saved messages keeps the
/// run saved.
pub proof fn lemma_all_saved_push(ms: Seq<Message>, m: Message, pushed: Seq<Message>)
    requires
        spec_all_saved(ms),
        !m.needs_save,
        pushed == ms.push(m),
    ensures
        spec_all_saved(pushed),
{
    assert forall|i: int| 0 <= i < pushed.len() implies !(#[trigger] pushed[i]).needs_save by {
        if i < ms.len() {
            assert(pushed[i] == ms[i]);
        } else {
            assert(pushed[i] == m);
        }
    }
}

/// Every message of a filtered run was in the run, so filtering keeps
/// a saved run saved.
pub proof fn lemma_all_saved_filter(ms: Seq<Message>, p: spec_fn(Message) -> bool)
    requires
        spec_all_saved(ms),
    ensures
        spec_all_saved(ms.filter(p)),
    decreases ms.len(),
{
    reveal(Seq::filter);
    if ms.len() > 0 {
        assert(spec_all_saved(ms.drop_last())) by {
            assert(forall|i: int|
                0 <= i < ms.len() - 1 ==> (#[trigger] ms.drop_last()[i]) == ms[i]);
        }
        lemma_all_saved_filter(ms.drop_last(), p);
        let fprev = ms.drop_last().filter(p);
        let f = ms.filter(p);
        if p(ms.last()) {
            assert(f == fprev.push(ms.last()));
            assert(!ms.last().needs_save);
            lemma_all_saved_push(fprev, ms.last(), f);
        } else {
            assert(f == fprev);
        }
    }
}

/// Relies on rand::random: an arbitrary value of the asked type.
pub assume_specification<T>[ rand::random::<T> ]() -> (r: T)
    where
        rand::distributions::Standard: rand::distributions::Distribution<T>,
;

/// Draw a uniform retry jitter in `[-30, 30]` seconds.
pub fn draw_jitter() -> (j: i64)
    ensures
        -30 <= j <= 30,
{
    let r: u32 = rand::random();
    ((r % 61) as i64) - 30
}

} // verus!
