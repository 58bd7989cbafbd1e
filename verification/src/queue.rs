//! One logical delivery queue.
//!
//! A queue owns the timer store for its delayed messages and applies
//! the backoff policy: how long until the next retry, and when a
//! message is old enough to expire instead.

use crate::backoff::QueueConfig;
use crate::message::{spec_jittered_due, Message};
use crate::timerq::{InsertOutcome, PopOutcome, TimerQueue};
use vstd::prelude::*;

verus! {

/// What became of a message handed back for another retry.
#[derive(Debug)]
pub enum RequeueOutcome {
    /// The summed age would pass `max_age`: the message must be
    /// removed from the spool and logged as expired.
    Expired(Message),
    /// The message is waiting in the timer store.
    Delayed,
    /// The message's new due time has already arrived; route it to the
    /// ready path.
    Ready(Message),
}

/// One logical queue: its delayed messages and retry policy.
pub struct Queue {
    name: String,
    timerq: TimerQueue,
    queue_config: QueueConfig,
    last_change: u64,
}

impl Queue {
    /// The delayed messages, in insertion order.
    pub closed spec fn spec_delayed(&self) -> Seq<Message> {
        self.timerq@
    }

    /// The queue's retry policy.
    pub closed spec fn spec_config(&self) -> QueueConfig {
        self.queue_config
    }

    /// When the queue last saw activity.
    pub closed spec fn spec_last_change(&self) -> int {
        self.last_change as int
    }

    /// Create the queue with the policy the host obtained for it.
    pub fn new(name: String, queue_config: QueueConfig, now: u64) -> (r: Queue)
        ensures
            r.spec_delayed() == Seq::<Message>::empty(),
            r.spec_config() == queue_config,
            r.spec_last_change() == now,
    {
        Queue { name, timerq: TimerQueue::new(), queue_config, last_change: now }
    }

    /// The queue's name.
    pub fn name(&self) -> &String {
        &self.name
    }

    /// The queue's retry policy.
    pub fn get_config(&self) -> (r: &QueueConfig)
        ensures
            *r == self.spec_config(),
    {
        &self.queue_config
    }

    /// How many messages are delayed here.
    pub fn delayed_count(&self) -> (r: usize)
        ensures
            r == self.spec_delayed().len(),
    {
        self.timerq.len()
    }

    /// Accept a message: it waits in the timer store, or comes back
    /// for the ready path when its due time has already arrived.
    pub fn insert(&mut self, msg: Message, now: u64) -> (r: InsertOutcome)
        ensures
            final(self).spec_config() == old(self).spec_config(),
            final(self).spec_last_change() == now,
            msg.due <= now ==> (r matches InsertOutcome::Ready(m) && m == msg
                && final(self).spec_delayed() == old(self).spec_delayed()),
            msg.due > now ==> (r is Delayed
                && final(self).spec_delayed() == old(self).spec_delayed().push(msg)),
    {
        self.last_change = now;
        self.timerq.insert(msg, now)
    }

    /// Force a message into the timer store with a jittered one-minute
    /// delay; the jitter never reaches back to the present, so the
    /// message always lands as delayed.
    pub fn force_into_delayed(&mut self, msg: Message, now: u64, jitter: i64)
        requires
            -30 <= jitter <= 30,
            now + 30 <= u64::MAX,
        ensures
            final(self).spec_config() == old(self).spec_config(),
            final(self).spec_last_change() == now,
            final(self).spec_delayed() == old(self).spec_delayed().push(
                Message { due: spec_jittered_due(now, 60, jitter) as u64, ..msg },
            ),
    {
        let mut msg = msg;
        msg.delay_with_jitter(now, 60, jitter);
        proof {
            assert(msg.due > now);
        }
        let outcome = self.insert(msg, now);
        proof {
            assert(outcome is Delayed);
        }
    }

    /// Take back a message after a delivery attempt. With
    /// `increment_attempts`, the attempt counter advances and the
    /// backoff schedule decides the new delay, expiring the message
    /// when its age plus that delay would pass `max_age`; without it,
    /// the message simply waits about a minute.
    pub fn requeue_message(
        &mut self,
        msg: Message,
        increment_attempts: bool,
        now: u64,
        jitter: i64,
    ) -> (r: RequeueOutcome)
        requires
            -30 <= jitter <= 30,
            now + 30 <= u64::MAX,
        ensures
            final(self).spec_config() == old(self).spec_config(),
            !increment_attempts ==> (r is Delayed
                && final(self).spec_last_change() == now
                && final(self).spec_delayed() == old(self).spec_delayed().push(
                Message { due: spec_jittered_due(now, 60, jitter) as u64, ..msg },
            )),
            increment_attempts ==> ({
                let bumped = if msg.num_attempts == u16::MAX {
                    u16::MAX as int
                } else {
                    msg.num_attempts + 1
                };
                let delay = old(self).spec_config().spec_delay_for_attempt(bumped);
                let jittered = if delay + jitter < 0 {
                    0int
                } else if delay + jitter > u64::MAX {
                    u64::MAX as int
                } else {
                    delay + jitter
                };
                let age = if now >= msg.received {
                    now - msg.received
                } else {
                    0int
                };
                let due2 = if now + jittered > u64::MAX {
                    u64::MAX as int
                } else {
                    now + jittered
                };
                let m2 = Message { num_attempts: bumped as u16, due: due2 as u64, ..msg };
                if jittered + age > old(self).spec_config().max_age {
                    r == RequeueOutcome::Expired(Message { num_attempts: bumped as u16, ..msg })
                        && final(self).spec_delayed() == old(self).spec_delayed()
                        && final(self).spec_last_change() == old(self).spec_last_change()
                } else {
                    final(self).spec_last_change() == now && if due2 > now {
                        r is Delayed && final(self).spec_delayed() == old(
                            self,
                        ).spec_delayed().push(m2)
                    } else {
                        r == RequeueOutcome::Ready(m2) && final(self).spec_delayed()
                            == old(self).spec_delayed()
                    }
                }
            }),
    {
        let mut msg = msg;
        if increment_attempts {
            msg.increment_num_attempts();
            let base = self.queue_config.delay_for_attempt(msg.num_attempts);
            let delay: u64 = if jitter >= 0 {
                let j = jitter as u64;
                if j > u64::MAX - base {
                    u64::MAX
                } else {
                    base + j
                }
            } else {
                let j = (-jitter) as u64;
                if base >= j {
                    base - j
                } else {
                    0
                }
            };
            let age = msg.age(now);
            let max_age = self.queue_config.get_max_age();
            let over = if age > u64::MAX - delay {
                true
            } else {
                delay + age > max_age
            };
            if over {
                return RequeueOutcome::Expired(msg);
            }
            msg.delay_by(now, delay);
            match self.insert(msg, now) {
                InsertOutcome::Delayed => RequeueOutcome::Delayed,
                InsertOutcome::Ready(m) => RequeueOutcome::Ready(m),
            }
        } else {
            self.force_into_delayed(msg, now, jitter);
            RequeueOutcome::Delayed
        }
    }

    /// Take out every delayed message, due or not: for administrative
    /// bounce and rebind sweeps.
    pub fn drain_all(&mut self) -> (r: Vec<Message>)
        ensures
            final(self).spec_config() == old(self).spec_config(),
            final(self).spec_last_change() == old(self).spec_last_change(),
            final(self).spec_delayed() == Seq::<Message>::empty(),
            r@ == old(self).spec_delayed(),
    {
        self.timerq.drain_all()
    }

    /// Take out every delayed message that is due (see
    /// `TimerQueue::pop`).
    pub fn pop_due(&mut self, now: u64) -> (r: PopOutcome)
        ensures
            final(self).spec_config() == old(self).spec_config(),
            final(self).spec_last_change() == old(self).spec_last_change(),
            final(self).spec_delayed() == old(self).spec_delayed().filter(
                |m: Message| m.due > now,
            ),
            match r {
                PopOutcome::Items(v) => v@ == old(self).spec_delayed().filter(
                    |m: Message| m.due <= now,
                ) && v@.len() > 0,
                PopOutcome::Sleep(d) => old(self).spec_delayed().len() > 0
                    && final(self).spec_delayed() == old(self).spec_delayed() && d
                    == crate::timerq::spec_min_due(old(self).spec_delayed()) - now
                    && crate::timerq::spec_min_due(old(self).spec_delayed()) > now
                    && old(self).spec_delayed().filter(|m: Message| m.due <= now).len()
                    == 0,
                PopOutcome::Empty => old(self).spec_delayed().len() == 0
                    && final(self).spec_delayed() == old(self).spec_delayed(),
            },
    {
        self.timerq.pop(now)
    }

    /// Whether the queue can be reaped: empty and quiet for ten
    /// minutes.
    pub fn reapable(&self, now: u64) -> (r: bool)
        ensures
            r == (self.spec_delayed().len() == 0 && now > self.spec_last_change() + 600),
    {
        let threshold: u64 = if self.last_change > u64::MAX - 600 {
            u64::MAX
        } else {
            self.last_change + 600
        };
        self.delayed_count() == 0 && now > threshold
    }
}

} // verus!
