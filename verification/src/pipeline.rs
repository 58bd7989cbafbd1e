//! The delivery pipeline of one queue and its destination site.
//!
//! At every instant a live message is owned by exactly one of: the
//! spool alone, the queue's timer store, the site's ready ring, or a
//! dispatcher's in-flight slot. Each operation here moves a message
//! between owners in one step and preserves that exactly-one-owner
//! discipline; the `custody` multiset below carries the proof.

use crate::dispatch::{classify_send, DeliveryAction, SendOutcome};
use crate::message::{spec_all_saved, spec_jittered_due, Message};
use crate::queue::{Queue, RequeueOutcome};
use crate::site::DestinationSite;
use crate::timerq::{spec_ids, InsertOutcome, PopOutcome};
use vstd::multiset::Multiset;
use vstd::prelude::*;
use vstd::seq_lib::group_to_multiset_ensures;

verus! {

broadcast use group_to_multiset_ensures;

/// What one delivery log line records.
#[derive(Debug, Clone, Copy, PartialEq, Eq)]
pub enum RecordType {
    /// The message was accepted into the system.
    Reception,
    /// The message was delivered.
    Delivery,
    /// A transient failure; the message will be retried.
    TransientFailure,
    /// A permanent failure; the message is gone.
    PermanentFailure,
    /// The message grew too old and was dropped.
    Expiration,
}

/// One delivery log line.
#[derive(Debug, Clone, PartialEq, Eq)]
pub struct LogRecord {
    pub kind: RecordType,
    pub id: u64,
}

/// The message as it re-enters the timer store after the site refused
/// it: about a minute from now, shifted by the jitter.
pub open spec fn spec_redelayed(m: Message, now: u64, jitter: i64) -> Message {
    Message { due: spec_jittered_due(now, 60, jitter) as u64, ..m }
}

/// What routing a message does, per spec: a message not yet due waits
/// in the timer store; a due one goes to the ready ring; a site that
/// is suspended or full refuses it, which writes a transient-failure
/// log line and re-delays the message about a minute.
pub open spec fn spec_route_outcome(
    pre: Pipeline,
    post: Pipeline,
    m: Message,
    now: u64,
    jitter: i64,
) -> bool {
    if m.due > now {
        &&& post.spec_delayed() == pre.spec_delayed().push(m)
        &&& post.spec_ready() == pre.spec_ready()
        &&& post.spec_logs() == pre.spec_logs()
    } else if !pre.spec_suspended_at(now) && pre.spec_ready().len() < pre.spec_max_ready() {
        &&& post.spec_ready() == pre.spec_ready().push(m)
        &&& post.spec_delayed() == pre.spec_delayed()
        &&& post.spec_logs() == pre.spec_logs()
    } else {
        &&& post.spec_logs() == pre.spec_logs().push(
            LogRecord { kind: RecordType::TransientFailure, id: m.id },
        )
        &&& post.spec_delayed() == pre.spec_delayed().push(spec_redelayed(m, now, jitter))
        &&& post.spec_ready() == pre.spec_ready()
    }
}

/// Where one due message stands once a maintainer pass has handled
/// it: past `max_age` it was expired — logged, off the spool, owned by
/// nobody; otherwise it is still owned by exactly one place (the ready
/// ring, or the timer store again after a refusal).
pub open spec fn spec_tick_settled(p: Pipeline, m: Message, now: u64, max_age: u64) -> bool {
    let age = if now >= m.received {
        now - m.received
    } else {
        0int
    };
    if age >= max_age {
        &&& p.custody().count(m.id) == 0
        &&& !p.spec_spooled().contains(m.id)
        &&& p.spec_logs().contains(LogRecord { kind: RecordType::Expiration, id: m.id })
    } else {
        p.custody().count(m.id) == 1
    }
}

/// One queue, its destination site, the dispatchers' in-flight slots,
/// and the model of the spool.
pub struct Pipeline {
    queue: Queue,
    site: DestinationSite,
    inflight: Vec<Message>,
    spooled: Vec<u64>,
    logs: Vec<LogRecord>,
}

impl Pipeline {
    /// Every owner's message ids, as one multiset.
    pub closed spec fn custody(&self) -> Multiset<u64> {
        spec_ids(self.queue.spec_delayed()).to_multiset().add(
            spec_ids(self.site.spec_ready()).to_multiset(),
        ).add(spec_ids(self.inflight@).to_multiset())
    }

    /// LAW (exactly one owner): a message id appears at most once
    /// across the timer store, the ready ring and the in-flight slots.
    /// Everything held in memory has been written to the spool, so
    /// crash recovery can resurrect any of it.
    pub open spec fn inv(&self) -> bool {
        &&& self.site_wf()
        &&& forall|x: u64| #[trigger] self.custody().count(x) <= 1
        &&& spec_all_saved(self.spec_delayed())
        &&& spec_all_saved(self.spec_inflight())
    }

    /// The site stays well formed.
    pub closed spec fn site_wf(&self) -> bool {
        self.site.wf()
    }

    /// The log lines written so far, oldest first.
    pub closed spec fn spec_logs(&self) -> Seq<LogRecord> {
        self.logs@
    }

    /// The ids the spool still holds.
    pub closed spec fn spec_spooled(&self) -> Seq<u64> {
        self.spooled@
    }

    /// The queue's delayed messages.
    pub closed spec fn spec_delayed(&self) -> Seq<Message> {
        self.queue.spec_delayed()
    }

    /// The site's ready messages.
    pub closed spec fn spec_ready(&self) -> Seq<Message> {
        self.site.spec_ready()
    }

    /// The messages dispatchers hold.
    pub closed spec fn spec_inflight(&self) -> Seq<Message> {
        self.inflight@
    }

    /// The live connection count.
    pub closed spec fn spec_connections(&self) -> int {
        self.site.spec_connections()
    }

    /// Whether the destination site is suspended at time `t`.
    pub closed spec fn spec_suspended_at(&self, t: u64) -> bool {
        self.site.spec_suspended(t)
    }

    /// The ready ring's configured capacity.
    pub closed spec fn spec_max_ready(&self) -> int {
        self.site.spec_config().max_ready as int
    }

    /// Build a pipeline from a fresh queue and site.
    pub fn new(queue: Queue, site: DestinationSite) -> (r: Pipeline)
        requires
            queue.spec_delayed().len() == 0,
            site.spec_ready().len() == 0,
            site.wf(),
        ensures
            r.inv(),
            r.spec_logs().len() == 0,
            r.spec_spooled().len() == 0,
            r.custody() =~= Multiset::<u64>::empty(),
    {
        let r = Pipeline {
            queue,
            site,
            inflight: Vec::new(),
            spooled: Vec::new(),
            logs: Vec::new(),
        };
        proof {
            assert(spec_ids(r.queue.spec_delayed()) =~= Seq::<u64>::empty());
            assert(spec_ids(r.site.spec_ready()) =~= Seq::<u64>::empty());
            assert(spec_ids(r.inflight@) =~= Seq::<u64>::empty());
            assert(Seq::<u64>::empty().to_multiset() =~= Multiset::<u64>::empty());
            assert(r.custody() =~= Multiset::<u64>::empty());
        }
        r
    }

    /// The queue's retry policy.
    pub closed spec fn spec_queue_config(&self) -> crate::backoff::QueueConfig {
        self.queue.spec_config()
    }

    /// Access the queue's retry policy.
    pub fn queue_config(&self) -> (r: &crate::backoff::QueueConfig)
        ensures
            *r == self.spec_queue_config(),
    {
        self.queue.get_config()
    }

    /// How many messages wait in the timer store.
    pub fn delayed_count(&self) -> (r: usize)
        ensures
            r == self.spec_delayed().len(),
    {
        self.queue.delayed_count()
    }

    /// How many messages are ready at the site.
    pub fn ready_count(&self) -> (r: usize)
        ensures
            r == self.spec_ready().len(),
    {
        self.site.ready_count()
    }

    /// How many dispatcher connections are accounted live.
    pub fn connection_count(&self) -> (r: usize)
        ensures
            r == self.spec_connections(),
    {
        self.site.connection_count()
    }

    /// The delivery log, for the host to drain.
    pub fn logs(&self) -> (r: &Vec<LogRecord>)
        ensures
            r@ == self.spec_logs(),
    {
        &self.logs
    }

    /// Count the log lines of one kind.
    pub fn count_logs(&self, kind: RecordType) -> (r: usize)
        ensures
            r == self.spec_logs().filter(|l: LogRecord| l.kind == kind).len(),
    {
        let ghost lv = self.logs@;
        let mut n: usize = 0;
        let mut i: usize = 0;
        proof {
            reveal(Seq::filter);
            assert(lv.take(0).filter(|l: LogRecord| l.kind == kind) =~= Seq::<
                LogRecord,
            >::empty());
        }
        while i < self.logs.len()
            invariant
                i <= lv.len(),
                lv == self.logs@,
                n == lv.take(i as int).filter(|l: LogRecord| l.kind == kind).len(),
                n <= i,
            decreases self.logs.len() - i,
        {
            proof {
                reveal(Seq::filter);
                assert(lv.take(i + 1).drop_last() =~= lv.take(i as int));
                assert(lv.take(i + 1).last() == lv[i as int]);
            }
            let same = match (self.logs[i].kind, kind) {
                (RecordType::Reception, RecordType::Reception) => true,
                (RecordType::Delivery, RecordType::Delivery) => true,
                (RecordType::TransientFailure, RecordType::TransientFailure) => true,
                (RecordType::PermanentFailure, RecordType::PermanentFailure) => true,
                (RecordType::Expiration, RecordType::Expiration) => true,
                _ => false,
            };
            if same {
                n = n + 1;
            }
            i = i + 1;
        }
        proof {
            assert(lv.take(lv.len() as int) =~= lv);
        }
        n
    }

    /// Adding a message to the timer store adds its id to custody.
    proof fn lemma_heap_push(self, other: Pipeline, m: Message)
        requires
            other.queue.spec_delayed() == self.queue.spec_delayed().push(m),
            other.site.spec_ready() == self.site.spec_ready(),
            other.inflight@ == self.inflight@,
        ensures
            other.custody() =~= self.custody().insert(m.id),
    {
        assert(spec_ids(other.queue.spec_delayed()) =~= spec_ids(
            self.queue.spec_delayed(),
        ).push(m.id));
    }

    /// Adding a message to the ready ring adds its id to custody.
    proof fn lemma_ring_push(self, other: Pipeline, m: Message)
        requires
            other.queue.spec_delayed() == self.queue.spec_delayed(),
            other.site.spec_ready() == self.site.spec_ready().push(m),
            other.inflight@ == self.inflight@,
        ensures
            other.custody() =~= self.custody().insert(m.id),
    {
        assert(spec_ids(other.site.spec_ready()) =~= spec_ids(
            self.site.spec_ready(),
        ).push(m.id));
    }

    /// A custody multiset with one more fresh id keeps every count at
    /// one or below.
    proof fn lemma_fresh_insert(c: Multiset<u64>, id: u64)
        requires
            forall|x: u64| #[trigger] c.count(x) <= 1,
            c.count(id) == 0,
        ensures
            forall|x: u64| #[trigger] c.insert(id).count(x) <= 1,
    {
        assert forall|x: u64| #[trigger] c.insert(id).count(x) <= 1 by {
            if x == id {
                assert(c.insert(id).count(id) == 1);
            } else {
                assert(c.insert(id).count(x) == c.count(x));
            }
        }
    }

    /// Accept a newly received message: it is logged, saved to the
    /// spool, and parked in the timer store or routed to the ready
    /// ring, whichever its due time asks for. A full or suspended site
    /// sends it back to the timer store with a transient-failure log
    /// line.
    pub fn submit(&mut self, msg: Message, now: u64, jitter: i64) -> (r: bool)
        requires
            old(self).inv(),
            old(self).custody().count(msg.id) == 0,
            -30 <= jitter <= 30,
            now + 30 <= u64::MAX,
        ensures
            final(self).inv(),
            final(self).custody() =~= old(self).custody().insert(msg.id),
            final(self).spec_spooled() == old(self).spec_spooled().push(msg.id),
            final(self).spec_inflight() == old(self).spec_inflight(),
            final(self).spec_connections() == old(self).spec_connections(),
            r == (msg.due <= now && !old(self).spec_suspended_at(now) && old(self).spec_ready().len() < old(self).spec_max_ready()),
            ({
                let saved = Message { needs_save: false, ..msg };
                let with_rec = old(self).spec_logs().push(
                    LogRecord { kind: RecordType::Reception, id: msg.id },
                );
                if msg.due > now {
                    &&& final(self).spec_delayed() == old(self).spec_delayed().push(saved)
                    &&& final(self).spec_ready() == old(self).spec_ready()
                    &&& final(self).spec_logs() == with_rec
                } else if !old(self).spec_suspended_at(now) && old(self).spec_ready().len()
                    < old(self).spec_max_ready() {
                    &&& final(self).spec_ready() == old(self).spec_ready().push(saved)
                    &&& final(self).spec_delayed() == old(self).spec_delayed()
                    &&& final(self).spec_logs() == with_rec
                } else {
                    &&& final(self).spec_logs() == with_rec.push(
                        LogRecord { kind: RecordType::TransientFailure, id: msg.id },
                    )
                    &&& final(self).spec_delayed() == old(self).spec_delayed().push(
                        spec_redelayed(saved, now, jitter),
                    )
                    &&& final(self).spec_ready() == old(self).spec_ready()
                }
            }),
    {
        let ghost pre = *self;
        let id = msg.id;
        self.logs.push(LogRecord { kind: RecordType::Reception, id });
        self.spooled.push(id);
        let mut msg = msg;
        msg.needs_save = false;
        proof {
            assert(self.custody() =~= pre.custody());
        }
        let r = self.route(msg, now, jitter);
        proof {
            Self::lemma_fresh_insert(pre.custody(), id);
        }
        r
    }

    /// Put a message in the hands of its next owner: the timer store
    /// when its due time lies ahead, else the ready ring, falling back
    /// to a jittered delay (with a transient-failure log line) when
    /// the site refuses it. Returns whether the message went ready.
    fn route(&mut self, msg: Message, now: u64, jitter: i64) -> (r: bool)
        requires
            old(self).site_wf(),
            !msg.needs_save,
            -30 <= jitter <= 30,
            now + 30 <= u64::MAX,
        ensures
            final(self).site_wf(),
            spec_route_outcome(*old(self), *final(self), msg, now, jitter),
            r == (msg.due <= now && !old(self).spec_suspended_at(now) && old(self).spec_ready().len() < old(self).spec_max_ready()),
            final(self).custody() =~= old(self).custody().insert(msg.id),
            final(self).spec_spooled() == old(self).spec_spooled(),
            final(self).spec_inflight() == old(self).spec_inflight(),
            final(self).spec_connections() == old(self).spec_connections(),
            final(self).spec_queue_config() == old(self).spec_queue_config(),
            final(self).spec_max_ready() == old(self).spec_max_ready(),
            forall|t: u64| final(self).spec_suspended_at(t) == old(self).spec_suspended_at(t),
            spec_all_saved(old(self).spec_delayed()) ==> spec_all_saved(
                final(self).spec_delayed(),
            ),
            spec_all_saved(old(self).spec_ready()) ==> spec_all_saved(
                final(self).spec_ready(),
            ),
    {
        let ghost pre = *self;
        let id = msg.id;
        let ghost msgv = msg;
        match self.queue.insert(msg, now) {
            InsertOutcome::Delayed => {
                proof {
                    Self::lemma_heap_push(pre, *self, msgv);
                    if spec_all_saved(pre.spec_delayed()) {
                        crate::message::lemma_all_saved_push(
                            pre.spec_delayed(),
                            msgv,
                            self.spec_delayed(),
                        );
                    }
                }
                false
            },
            InsertOutcome::Ready(m) => {
                let ghost mid = *self;
                match self.site.insert(m, now) {
                    Ok(()) => {
                        proof {
                            Self::lemma_ring_push(pre, *self, msgv);
                            if spec_all_saved(pre.spec_ready()) {
                                crate::message::lemma_all_saved_push(
                                    pre.spec_ready(),
                                    msgv,
                                    self.spec_ready(),
                                );
                            }
                        }
                        true
                    },
                    Err(back) => {
                        self.logs.push(
                            LogRecord { kind: RecordType::TransientFailure, id: back.id },
                        );
                        let ghost mid2 = *self;
                        proof {
                            assert(mid2.custody() =~= pre.custody());
                        }
                        self.queue.force_into_delayed(back, now, jitter);
                        proof {
                            Self::lemma_heap_push(
                                mid2,
                                *self,
                                spec_redelayed(msgv, now, jitter),
                            );
                            if spec_all_saved(pre.spec_delayed()) {
                                crate::message::lemma_all_saved_push(
                                    pre.spec_delayed(),
                                    spec_redelayed(msgv, now, jitter),
                                    self.spec_delayed(),
                                );
                            }
                        }
                        false
                    },
                }
            },
        }
    }
}

impl Pipeline {
    /// Splitting a run by due time splits its ids, as multisets.
    proof fn lemma_filter_ids(ms: Seq<Message>, now: u64)
        ensures
            spec_ids(ms).to_multiset() =~= spec_ids(
                ms.filter(|m: Message| m.due <= now),
            ).to_multiset().add(spec_ids(ms.filter(|m: Message| m.due > now)).to_multiset()),
        decreases ms.len(),
    {
        reveal(Seq::filter);
        if ms.len() == 0 {
            assert(spec_ids(ms) =~= Seq::<u64>::empty());
            assert(ms.filter(|m: Message| m.due <= now) =~= Seq::<Message>::empty());
            assert(ms.filter(|m: Message| m.due > now) =~= Seq::<Message>::empty());
            assert(spec_ids(Seq::<Message>::empty()) =~= Seq::<u64>::empty());
        } else {
            let rest = ms.drop_last();
            let m = ms.last();
            Self::lemma_filter_ids(rest, now);
            assert(spec_ids(ms) =~= spec_ids(rest).push(m.id));
            if m.due <= now {
                assert(spec_ids(ms.filter(|m: Message| m.due <= now)) =~= spec_ids(
                    rest.filter(|m: Message| m.due <= now),
                ).push(m.id));
                assert(ms.filter(|m: Message| m.due > now) =~= rest.filter(
                    |m: Message| m.due > now,
                ));
            } else {
                assert(spec_ids(ms.filter(|m: Message| m.due > now)) =~= spec_ids(
                    rest.filter(|m: Message| m.due > now),
                ).push(m.id));
                assert(ms.filter(|m: Message| m.due <= now) =~= rest.filter(
                    |m: Message| m.due <= now,
                ));
            }
        }
    }

    /// Drop the spool's record of one id entirely.
    fn remove_spool(&mut self, id: u64)
        ensures
            final(self).spec_spooled() == old(self).spec_spooled().filter(
                |x: u64| x != id,
            ),
            !final(self).spec_spooled().contains(id),
            final(self).custody() == old(self).custody(),
            final(self).spec_logs() == old(self).spec_logs(),
            final(self).site_wf() == old(self).site_wf(),
            final(self).spec_delayed() == old(self).spec_delayed(),
            final(self).spec_ready() == old(self).spec_ready(),
            final(self).spec_inflight() == old(self).spec_inflight(),
            final(self).spec_connections() == old(self).spec_connections(),
            final(self).spec_queue_config() == old(self).spec_queue_config(),
    {
        let ghost orig = self.spooled@;
        let mut src: Vec<u64> = Vec::new();
        core::mem::swap(&mut self.spooled, &mut src);
        let ghost mut k: int = 0;
        proof {
            reveal(Seq::filter);
            assert(orig.take(0).filter(|x: u64| x != id) =~= Seq::<u64>::empty());
            assert(self.spooled@ =~= orig.take(0).filter(|x: u64| x != id));
            assert(src@ =~= orig.skip(0));
        }
        while src.len() > 0
            invariant
                0 <= k <= orig.len(),
                src@ =~= orig.skip(k),
                self.spooled@ =~= orig.take(k).filter(|x: u64| x != id),
                self.queue == old(self).queue,
                self.site == old(self).site,
                self.inflight == old(self).inflight,
                self.logs == old(self).logs,
            decreases src@.len(),
        {
            let x = src.remove(0);
            proof {
                reveal(Seq::filter);
                assert(x == orig[k]);
                assert(src@ =~= orig.skip(k + 1));
                assert(orig.take(k + 1).drop_last() =~= orig.take(k));
                assert(orig.take(k + 1).last() == orig[k]);
            }
            if x != id {
                self.spooled.push(x);
            }
            proof {
                k = k + 1;
            }
        }
        proof {
            reveal(Seq::filter);
            assert(orig.take(k) =~= orig);
            Self::lemma_filter_out(orig, id);
        }
    }

    /// Filtering an id out leaves no copy of it behind.
    proof fn lemma_filter_out(s: Seq<u64>, id: u64)
        ensures
            !s.filter(|x: u64| x != id).contains(id),
        decreases s.len(),
    {
        reveal(Seq::filter);
        if s.len() > 0 {
            Self::lemma_filter_out(s.drop_last(), id);
            let f = s.filter(|x: u64| x != id);
            let fp = s.drop_last().filter(|x: u64| x != id);
            assert forall|j: int| 0 <= j < f.len() implies f[j] != id by {
                if s.last() != id && j == f.len() - 1 {
                } else {
                    assert(f[j] == fp[j]);
                    assert(!fp.contains(id));
                }
            }
        }
    }

    /// Write one log line; nothing else moves.
    fn log(&mut self, kind: RecordType, id: u64)
        ensures
            final(self).spec_logs() == old(self).spec_logs().push(
                LogRecord { kind, id },
            ),
            final(self).custody() == old(self).custody(),
            final(self).spec_spooled() == old(self).spec_spooled(),
            final(self).site_wf() == old(self).site_wf(),
            final(self).spec_delayed() == old(self).spec_delayed(),
            final(self).spec_ready() == old(self).spec_ready(),
            final(self).spec_inflight() == old(self).spec_inflight(),
            final(self).spec_connections() == old(self).spec_connections(),
            final(self).spec_queue_config() == old(self).spec_queue_config(),
    {
        self.logs.push(LogRecord { kind, id });
    }

    /// Appending a log line keeps every line already written.
    proof fn lemma_logs_keep(s: Seq<LogRecord>, x: LogRecord, r: LogRecord)
        requires
            s.contains(r),
        ensures
            s.push(x).contains(r),
    {
        let w = choose|w: int| 0 <= w < s.len() && s[w] == r;
        assert(s.push(x)[w] == r);
    }

    /// Filtering never introduces an id the run did not hold.
    proof fn lemma_filter_no_new(s: Seq<u64>, p: spec_fn(u64) -> bool, id: u64)
        requires
            !s.contains(id),
        ensures
            !s.filter(p).contains(id),
        decreases s.len(),
    {
        reveal(Seq::filter);
        if s.len() > 0 {
            assert(!s.drop_last().contains(id)) by {
                assert(forall|i: int|
                    0 <= i < s.len() - 1 ==> (#[trigger] s.drop_last()[i]) == s[i]);
            }
            Self::lemma_filter_no_new(s.drop_last(), p, id);
            let f = s.filter(p);
            let fp = s.drop_last().filter(p);
            assert forall|j: int| 0 <= j < f.len() implies f[j] != id by {
                if p(s.last()) && j == f.len() - 1 {
                    assert(s.contains(s.last()));
                } else {
                    assert(f[j] == fp[j]);
                    assert(!fp.contains(id));
                }
            }
        }
    }

    /// One maintainer pass: promote everything that is due, expiring
    /// messages past `max_age` and re-delaying what the site refuses;
    /// returns how many seconds the maintainer may sleep.
    pub fn tick(&mut self, now: u64, jitter: i64) -> (sleep: u64)
        requires
            old(self).inv(),
            -30 <= jitter <= 30,
            now + 30 <= u64::MAX,
        ensures
            final(self).inv(),
            forall|x: u64| #[trigger] final(self).custody().count(x) <= old(self).custody().count(x),
            final(self).spec_inflight() == old(self).spec_inflight(),
            final(self).spec_connections() == old(self).spec_connections(),
            final(self).spec_queue_config() == old(self).spec_queue_config(),
            sleep <= 60,
            old(self).spec_delayed().len() == 0 ==> sleep == 60 && final(self).spec_delayed() == old(self).spec_delayed() && final(self).spec_ready()
                == old(self).spec_ready() && final(self).spec_logs() == old(self).spec_logs() && final(self).spec_spooled() == old(self).spec_spooled(),
            (old(self).spec_delayed().len() > 0 && old(self).spec_delayed().filter(
                |m: Message| m.due <= now,
            ).len() == 0) ==> sleep == (if crate::timerq::spec_min_due(
                old(self).spec_delayed(),
            ) - now < 60 {
                crate::timerq::spec_min_due(old(self).spec_delayed()) - now
            } else {
                60int
            }) && final(self).spec_delayed() == old(self).spec_delayed() && final(self).spec_ready() == old(self).spec_ready() && final(self).spec_logs() == old(self).spec_logs() && final(self).spec_spooled() == old(self).spec_spooled(),
            old(self).spec_delayed().filter(|m: Message| m.due <= now).len() > 0 ==> ({
                let due = old(self).spec_delayed().filter(|m: Message| m.due <= now);
                let kept = old(self).spec_delayed().filter(|m: Message| m.due > now);
                &&& sleep == 0
                &&& final(self).spec_delayed().len() >= kept.len()
                &&& final(self).spec_delayed().take(kept.len() as int) == kept
                &&& forall|i: int|
                    0 <= i < due.len() ==> spec_tick_settled(
                        *final(self),
                        #[trigger] due[i],
                        now,
                        old(self).spec_queue_config().max_age,
                    )
            }),
    {
        let ghost pre = *self;
        match self.queue.pop_due(now) {
            PopOutcome::Empty => {
                proof {
                    assert(self.custody() =~= pre.custody());
                    assert(pre.spec_delayed().filter(|m: Message| m.due <= now).len()
                        == 0) by {
                        reveal(Seq::filter);
                    }
                }
                60
            },
            PopOutcome::Sleep(d) => {
                proof {
                    assert(self.custody() =~= pre.custody());
                }
                if d < 60 {
                    d
                } else {
                    60
                }
            },
            PopOutcome::Items(v) => {
                let ghost due_orig = pre.spec_delayed().filter(|m: Message| m.due <= now);
                let ghost kept = pre.spec_delayed().filter(|m: Message| m.due > now);
                proof {
                    Self::lemma_filter_ids(pre.queue.spec_delayed(), now);
                    assert(spec_ids(due_orig).to_multiset().add(
                        spec_ids(self.queue.spec_delayed()).to_multiset(),
                    ) =~= spec_ids(pre.queue.spec_delayed()).to_multiset());
                    assert forall|x: u64|
                        self.custody().count(x) + spec_ids(v@).to_multiset().count(x)
                            <= pre.custody().count(x) by {}
                    assert forall|x: u64| #[trigger] spec_ids(
                        due_orig,
                    ).to_multiset().count(x) <= 1 by {
                        assert(pre.custody().count(x) <= 1);
                    }
                    assert(spec_ids(due_orig).no_duplicates()) by {
                        assert forall|x: u64|
                            spec_ids(due_orig).to_multiset().contains(x) implies spec_ids(
                            due_orig,
                        ).to_multiset().count(x) == 1 by {}
                        spec_ids(due_orig).lemma_multiset_has_no_duplicates_conv();
                    }
                    crate::message::lemma_all_saved_filter(
                        pre.spec_delayed(),
                        |m: Message| m.due <= now,
                    );
                    crate::message::lemma_all_saved_filter(
                        pre.spec_delayed(),
                        |m: Message| m.due > now,
                    );
                }
                let max_age = self.queue.get_config().get_max_age();
                let mut v = v;
                let ghost mut k: int = 0;
                while v.len() > 0
                    invariant
                        self.site_wf(),
                        -30 <= jitter <= 30,
                        now + 30 <= u64::MAX,
                        0 <= k <= due_orig.len(),
                        v@ =~= due_orig.skip(k),
                        spec_all_saved(v@),
                        spec_all_saved(self.spec_delayed()),
                        spec_ids(due_orig).no_duplicates(),
                        forall|x: u64| #[trigger] self.custody().count(x) + spec_ids(
                            v@,
                        ).to_multiset().count(x) <= pre.custody().count(x),
                        forall|x: u64| #[trigger] pre.custody().count(x) <= 1,
                        max_age == self.spec_queue_config().max_age,
                        self.spec_queue_config() == pre.spec_queue_config(),
                        self.spec_inflight() == pre.spec_inflight(),
                        self.spec_connections() == pre.spec_connections(),
                        self.spec_delayed().len() >= kept.len(),
                        self.spec_delayed().take(kept.len() as int) == kept,
                        forall|j: int|
                            0 <= j < k ==> spec_tick_settled(
                                *self,
                                #[trigger] due_orig[j],
                                now,
                                max_age,
                            ),
                    decreases v@.len(),
                {
                    let ghost vbefore = v@;
                    let ghost state0 = *self;
                    let m = v.remove(0);
                    proof {
                        assert(m == vbefore[0]);
                        assert(m == due_orig[k]);
                        assert(v@ =~= vbefore.remove(0));
                        assert(spec_ids(v@) =~= spec_ids(vbefore).remove(0));
                        assert(spec_ids(vbefore)[0] == m.id);
                        assert(spec_ids(v@).to_multiset() =~= spec_ids(
                            vbefore,
                        ).to_multiset().remove(m.id));
                        assert(spec_all_saved(v@)) by {
                            assert(forall|i: int|
                                0 <= i < v@.len() ==> (#[trigger] v@[i]) == vbefore[i
                                    + 1]);
                        }
                        // the id being processed is owned by nobody right now
                        assert(spec_ids(vbefore).to_multiset().count(m.id) >= 1) by {
                            assert(spec_ids(vbefore).to_multiset().contains(m.id));
                        }
                        assert(self.custody().count(m.id) == 0);
                        // and it differs from every id settled so far
                        assert forall|j: int| 0 <= j < k implies due_orig[j].id
                            != m.id by {
                            assert(spec_ids(due_orig)[j] == due_orig[j].id);
                            assert(spec_ids(due_orig)[k] == m.id);
                        }
                    }
                    let age = m.age(now);
                    if age >= max_age {
                        self.log(RecordType::Expiration, m.id);
                        let ghost state1 = *self;
                        self.remove_spool(m.id);
                        proof {
                            assert(spec_tick_settled(*self, m, now, max_age)) by {
                                assert(state1.spec_logs().contains(
                                    LogRecord { kind: RecordType::Expiration, id: m.id },
                                )) by {
                                    assert(state1.spec_logs().last() == (LogRecord {
                                        kind: RecordType::Expiration,
                                        id: m.id,
                                    }));
                                }
                            }
                            assert forall|j: int| 0 <= j < k implies spec_tick_settled(
                                *self,
                                #[trigger] due_orig[j],
                                now,
                                max_age,
                            ) by {
                                let mj = due_orig[j];
                                assert(spec_tick_settled(state0, mj, now, max_age));
                                if (if now >= mj.received {
                                    now - mj.received
                                } else {
                                    0int
                                }) >= max_age {
                                    Self::lemma_logs_keep(
                                        state0.spec_logs(),
                                        LogRecord {
                                            kind: RecordType::Expiration,
                                            id: m.id,
                                        },
                                        LogRecord {
                                            kind: RecordType::Expiration,
                                            id: mj.id,
                                        },
                                    );
                                    Self::lemma_filter_no_new(
                                        state1.spec_spooled(),
                                        |x: u64| x != m.id,
                                        mj.id,
                                    );
                                }
                            }
                        }
                    } else {
                        let ghost mid = *self;
                        self.route(m, now, jitter);
                        proof {
                            assert forall|x: u64| #[trigger] self.custody().count(x)
                                + spec_ids(v@).to_multiset().count(x) <= pre.custody()
                                .count(x) by {
                                assert(self.custody() =~= mid.custody().insert(m.id));
                                if x == m.id {
                                    assert(spec_ids(vbefore).to_multiset().count(m.id)
                                        >= 1);
                                } else {
                                    assert(self.custody().count(x) == mid.custody()
                                        .count(x));
                                }
                            }
                            assert(self.custody() =~= mid.custody().insert(m.id));
                            assert(spec_tick_settled(*self, m, now, max_age)) by {
                                assert(self.custody().count(m.id) == 1);
                            }
                            // the routed message only appends to the timer store
                            assert(self.spec_delayed().take(kept.len() as int)
                                == kept) by {
                                if m.due > now || mid.spec_suspended_at(now)
                                    || mid.spec_ready().len() >= mid.spec_max_ready() {
                                    assert(forall|i: int|
                                        0 <= i < kept.len() ==> (#[trigger] self
                                            .spec_delayed()[i]) == mid.spec_delayed()[i]);
                                    assert(self.spec_delayed().take(kept.len() as int)
                                        =~= mid.spec_delayed().take(kept.len() as int));
                                }
                            }
                            assert forall|j: int| 0 <= j < k implies spec_tick_settled(
                                *self,
                                #[trigger] due_orig[j],
                                now,
                                max_age,
                            ) by {
                                let mj = due_orig[j];
                                assert(spec_tick_settled(mid, mj, now, max_age));
                                assert(self.custody().count(mj.id) == mid.custody()
                                    .count(mj.id));
                                if (if now >= mj.received {
                                    now - mj.received
                                } else {
                                    0int
                                }) >= max_age {
                                    if self.spec_logs() != mid.spec_logs() {
                                        Self::lemma_logs_keep(
                                            mid.spec_logs(),
                                            LogRecord {
                                                kind: RecordType::TransientFailure,
                                                id: m.id,
                                            },
                                            LogRecord {
                                                kind: RecordType::Expiration,
                                                id: mj.id,
                                            },
                                        );
                                    }
                                }
                            }
                        }
                    }
                    proof {
                        k = k + 1;
                    }
                }
                proof {
                    assert(spec_ids(v@) =~= Seq::<u64>::empty());
                    assert(k == due_orig.len());
                    assert forall|x: u64| #[trigger] self.custody().count(x) <= pre
                        .custody().count(x) by {
                        assert(spec_ids(v@).to_multiset().count(x) == 0);
                        assert(Seq::<u64>::empty().to_multiset() =~= Multiset::<
                            u64,
                        >::empty());
                    }
                    assert forall|x: u64| #[trigger] self.custody().count(x) <= 1 by {
                        assert(pre.custody().count(x) <= 1);
                    }
                }
                0
            },
        }
    }

    /// Let a dispatcher claim the oldest ready message into an
    /// in-flight slot.
    pub fn claim(&mut self, now: u64) -> (r: bool)
        requires
            old(self).inv(),
        ensures
            final(self).inv(),
            final(self).custody() == old(self).custody(),
            r == (old(self).spec_ready().len() > 0),
            r ==> final(self).spec_inflight().len() == old(self).spec_inflight().len()
                + 1,
    {
        let ghost pre = *self;
        match self.site.claim() {
            Some(m) => {
                let ghost mv = m;
                self.inflight.push(m);
                proof {
                    let ring_pre = spec_ids(pre.site.spec_ready());
                    assert(spec_ids(self.site.spec_ready()) =~= ring_pre.remove(0));
                    assert(ring_pre[0] == mv.id);
                    assert(spec_ids(self.site.spec_ready()).to_multiset()
                        =~= ring_pre.to_multiset().remove(mv.id));
                    assert(spec_ids(self.inflight@) =~= spec_ids(pre.inflight@).push(
                        mv.id,
                    ));
                    assert(ring_pre.to_multiset().count(mv.id) >= 1) by {
                        assert(ring_pre.to_multiset().contains(mv.id));
                    }
                    assert(self.custody() =~= pre.custody());
                }
                true
            },
            None => false,
        }
    }

    /// LAW (single delivery): settle the newest in-flight message with
    /// the wire outcome. A success or a permanent rejection removes the
    /// message from the spool and from every owner, so no later
    /// operation can send it again; a transient rejection re-delays it
    /// with one more attempt counted (or expires it); a wire error
    /// hands it back without counting an attempt and closes the
    /// connection.
    pub fn deliver(&mut self, outcome: &SendOutcome, now: u64, jitter: i64) -> (action:
        DeliveryAction)
        requires
            old(self).inv(),
            old(self).spec_inflight().len() > 0,
            -30 <= jitter <= 30,
            now + 30 <= u64::MAX,
        ensures
            final(self).inv(),
            action == crate::dispatch::spec_classify_send(*outcome),
            final(self).spec_inflight() == old(self).spec_inflight().drop_last(),
            forall|x: u64| #[trigger] final(self).custody().count(x) <= old(self).custody().count(x),
            ({
                let m = old(self).spec_inflight().last();
                let id = m.id;
                &&& (action is Success || action is Permanent) ==> final(self).custody().count(id) == 0 && !final(self).spec_spooled().contains(id)
                    && final(self).spec_delayed() == old(self).spec_delayed() && final(self).spec_ready() == old(self).spec_ready() && final(self).spec_connections() == old(self).spec_connections()
                &&& action is Success ==> final(self).spec_logs() == old(self).spec_logs().push(LogRecord { kind: RecordType::Delivery, id })
                &&& action is Permanent ==> final(self).spec_logs() == old(self).spec_logs().push(LogRecord { kind: RecordType::PermanentFailure, id })
                &&& action is Transient ==> ({
                    let bumped = if m.num_attempts == u16::MAX {
                        u16::MAX as int
                    } else {
                        m.num_attempts + 1
                    };
                    let delay = old(self).spec_queue_config().spec_delay_for_attempt(
                        bumped,
                    );
                    let jittered = if delay + jitter < 0 {
                        0int
                    } else if delay + jitter > u64::MAX {
                        u64::MAX as int
                    } else {
                        delay + jitter
                    };
                    let age = if now >= m.received {
                        now - m.received
                    } else {
                        0int
                    };
                    let due2 = if now + jittered > u64::MAX {
                        u64::MAX as int
                    } else {
                        now + jittered
                    };
                    let m2 = Message {
                        num_attempts: bumped as u16,
                        due: due2 as u64,
                        ..m
                    };
                    &&& final(self).spec_connections() == old(self).spec_connections()
                    &&& if jittered + age > old(self).spec_queue_config().max_age {
                        &&& final(self).custody().count(id) == 0
                        &&& !final(self).spec_spooled().contains(id)
                        &&& final(self).spec_logs() == old(self).spec_logs().push(
                            LogRecord { kind: RecordType::Expiration, id },
                        )
                        &&& final(self).spec_delayed() == old(self).spec_delayed()
                        &&& final(self).spec_ready() == old(self).spec_ready()
                    } else {
                        &&& final(self).spec_spooled() == old(self).spec_spooled()
                        &&& final(self).custody().count(id) == 1
                        &&& spec_route_outcome(*old(self), *final(self), m2, now, jitter)
                    }
                })
                &&& action is ConnectionFail ==> ({
                    &&& final(self).spec_spooled() == old(self).spec_spooled()
                    &&& final(self).spec_logs() == old(self).spec_logs()
                    &&& final(self).spec_delayed() == old(self).spec_delayed().push(
                        spec_redelayed(m, now, jitter),
                    )
                    &&& final(self).spec_ready() == old(self).spec_ready()
                    &&& final(self).custody().count(id) == 1
                    &&& final(self).spec_connections() == (if old(self).spec_connections() > 0 {
                        old(self).spec_connections() - 1
                    } else {
                        0int
                    })
                })
            }),
    {
        let ghost pre = *self;
        let m = match self.inflight.pop() {
            Some(m) => m,
            None => {
                proof {
                    assert(false);
                }
                return classify_send(outcome);
            },
        };
        let ghost mid = *self;
        proof {
            let infl_pre = spec_ids(pre.inflight@);
            assert(spec_ids(self.inflight@) =~= infl_pre.remove(infl_pre.len() - 1));
            assert(infl_pre[infl_pre.len() - 1] == m.id);
            assert(spec_ids(self.inflight@).to_multiset() =~= infl_pre.to_multiset()
                .remove(m.id));
            assert(infl_pre.to_multiset().count(m.id) >= 1) by {
                assert(infl_pre.to_multiset().contains(m.id));
            }
            assert(m == pre.spec_inflight().last());
            assert(!m.needs_save);
            assert(spec_all_saved(self.spec_inflight())) by {
                assert(forall|i: int|
                    0 <= i < self.inflight@.len() ==> (#[trigger] self.inflight@[i])
                        == pre.inflight@[i]);
            }
            assert forall|x: u64| #[trigger] mid.custody().count(x) <= pre.custody()
                .count(x) by {}
            assert(pre.custody().count(m.id) == 1);
            assert(mid.custody().count(m.id) == 0);
        }
        let action = classify_send(outcome);
        match action {
            DeliveryAction::Success => {
                self.remove_spool(m.id);
                self.log(RecordType::Delivery, m.id);
                action
            },
            DeliveryAction::Permanent => {
                self.remove_spool(m.id);
                self.log(RecordType::PermanentFailure, m.id);
                action
            },
            DeliveryAction::Transient => {
                let ghost mv = m;
                match self.queue.requeue_message(m, true, now, jitter) {
                    RequeueOutcome::Expired(m2) => {
                        proof {
                            assert(m2.id == mv.id);
                        }
                        self.log(RecordType::Expiration, m2.id);
                        self.remove_spool(m2.id);
                        action
                    },
                    RequeueOutcome::Delayed => {
                        proof {
                            assert(spec_ids(self.queue.spec_delayed()) =~= spec_ids(
                                mid.queue.spec_delayed(),
                            ).push(mv.id));
                            assert(self.custody() =~= mid.custody().insert(mv.id));
                            crate::message::lemma_all_saved_push(
                                mid.spec_delayed(),
                                self.spec_delayed().last(),
                                self.spec_delayed(),
                            );
                        }
                        action
                    },
                    RequeueOutcome::Ready(m2) => {
                        let ghost mid2 = *self;
                        self.route(m2, now, jitter);
                        proof {
                            assert(self.custody() =~= mid.custody().insert(mv.id));
                            assert(mid2.spec_delayed() == pre.spec_delayed());
                            assert(mid2.spec_ready() == pre.spec_ready());
                            assert(mid2.spec_logs() == pre.spec_logs());
                            assert(mid2.spec_suspended_at(now) == pre.spec_suspended_at(
                                now,
                            ));
                            assert(mid2.spec_max_ready() == pre.spec_max_ready());
                        }
                        action
                    },
                }
            },
            DeliveryAction::ConnectionFail => {
                let ghost mv = m;
                self.queue.force_into_delayed(m, now, jitter);
                proof {
                    assert(spec_ids(self.queue.spec_delayed()) =~= spec_ids(
                        mid.queue.spec_delayed(),
                    ).push(mv.id));
                    assert(self.custody() =~= mid.custody().insert(mv.id));
                    crate::message::lemma_all_saved_push(
                        mid.spec_delayed(),
                        spec_redelayed(mv, now, jitter),
                        self.spec_delayed(),
                    );
                }
                self.site.connection_closed();
                action
            },
        }
    }

    /// Account for finished dispatchers and decide how many to start;
    /// the site cap holds throughout (see `DestinationSite::maintain`).
    pub fn maintain(&mut self, finished: usize) -> (spawn: usize)
        requires
            old(self).inv(),
            finished <= old(self).spec_connections(),
        ensures
            final(self).inv(),
            final(self).custody() == old(self).custody(),
            final(self).spec_delayed() == old(self).spec_delayed(),
            final(self).spec_ready() == old(self).spec_ready(),
            final(self).spec_inflight() == old(self).spec_inflight(),
            final(self).spec_logs() == old(self).spec_logs(),
            final(self).spec_spooled() == old(self).spec_spooled(),
            final(self).spec_connections() <= final(self).spec_connection_limit(),
            spawn == ({
                let live = old(self).spec_connections() - finished;
                let ideal = crate::shaping::spec_ideal_connection_count(
                    old(self).spec_ready().len(),
                    old(self).spec_connection_limit() as nat,
                );
                if ideal > live {
                    ideal - live
                } else {
                    0int
                }
            }),
            final(self).spec_connections() == old(self).spec_connections() - finished
                + spawn,
    {
        let ghost pre = *self;
        let spawn = self.site.maintain(finished);
        proof {
            assert(self.custody() =~= pre.custody());
        }
        spawn
    }

    /// The configured connection ceiling.
    pub closed spec fn spec_connection_limit(&self) -> int {
        self.site.spec_config().connection_limit as int
    }

    /// Administratively suspend the destination site until the given
    /// time: new ready-queue inserts bounce back as transient
    /// failures.
    pub fn suspend(&mut self, until: u64)
        requires
            old(self).inv(),
        ensures
            final(self).inv(),
            final(self).custody() == old(self).custody(),
            final(self).spec_delayed() == old(self).spec_delayed(),
            final(self).spec_ready() == old(self).spec_ready(),
            final(self).spec_inflight() == old(self).spec_inflight(),
            final(self).spec_logs() == old(self).spec_logs(),
            final(self).spec_spooled() == old(self).spec_spooled(),
            final(self).spec_connections() == old(self).spec_connections(),
            forall|t: u64| final(self).spec_suspended_at(t) == (t < until),
    {
        let ghost pre = *self;
        self.site.suspend(until);
        proof {
            assert(self.custody() =~= pre.custody());
        }
    }

    /// The message as a rebind leaves it: the queue name rewritten
    /// when a new one was given, and a jittered minute's delay.
    pub open spec fn spec_rebound(
        m: Message,
        new_queue: Option<&String>,
        now: u64,
        jitter: i64,
    ) -> Message {
        Message {
            queue_name: match new_queue {
                Some(q) => *q,
                None => m.queue_name,
            },
            due: spec_jittered_due(now, 60, jitter) as u64,
            ..m
        }
    }

    /// Administratively rebind the queue's delayed messages: an
    /// optional new queue name is written into each, and each is
    /// re-inserted with a jittered minute's delay.
    pub fn rebind(&mut self, new_queue: Option<&String>, now: u64, jitter: i64)
        requires
            old(self).inv(),
            -30 <= jitter <= 30,
            now + 30 <= u64::MAX,
        ensures
            final(self).inv(),
            forall|x: u64| #[trigger] final(self).custody().count(x) == old(self).custody().count(x),
            final(self).spec_delayed() == Seq::new(
                old(self).spec_delayed().len(),
                |i: int| Self::spec_rebound(
                    old(self).spec_delayed()[i],
                    new_queue,
                    now,
                    jitter,
                ),
            ),
            final(self).spec_ready() == old(self).spec_ready(),
            final(self).spec_inflight() == old(self).spec_inflight(),
            final(self).spec_logs() == old(self).spec_logs(),
            final(self).spec_spooled() == old(self).spec_spooled(),
            final(self).spec_connections() == old(self).spec_connections(),
    {
        let ghost pre = *self;
        let mut drained = self.queue.drain_all();
        let ghost orig = pre.spec_delayed();
        let ghost mut k: int = 0;
        proof {
            Self::lemma_drain(pre, *self, drained@);
            assert(self.spec_delayed() =~= Seq::new(0nat, |i: int| Self::spec_rebound(
                orig[i],
                new_queue,
                now,
                jitter,
            )));
        }
        while drained.len() > 0
            invariant
                self.site_wf(),
                -30 <= jitter <= 30,
                now + 30 <= u64::MAX,
                0 <= k <= orig.len(),
                drained@ =~= orig.skip(k),
                spec_all_saved(orig),
                spec_all_saved(self.spec_delayed()),
                self.spec_delayed() =~= Seq::new(k as nat, |i: int| Self::spec_rebound(
                    orig[i],
                    new_queue,
                    now,
                    jitter,
                )),
                forall|x: u64| #[trigger] self.custody().count(x) + spec_ids(
                    drained@,
                ).to_multiset().count(x) == pre.custody().count(x),
                forall|x: u64| #[trigger] pre.custody().count(x) <= 1,
                self.spec_ready() == pre.spec_ready(),
                self.spec_inflight() == pre.spec_inflight(),
                self.spec_logs() == pre.spec_logs(),
                self.spec_spooled() == pre.spec_spooled(),
                self.spec_connections() == pre.spec_connections(),
            decreases drained@.len(),
        {
            let ghost vbefore = drained@;
            let mut m = drained.remove(0);
            proof {
                assert(m == vbefore[0]);
                assert(m == orig[k]);
                assert(drained@ =~= vbefore.remove(0));
                assert(drained@ =~= orig.skip(k + 1));
                assert(spec_ids(drained@) =~= spec_ids(vbefore).remove(0));
                assert(spec_ids(vbefore)[0] == m.id);
                assert(spec_ids(drained@).to_multiset() =~= spec_ids(
                    vbefore,
                ).to_multiset().remove(m.id));
                assert(spec_ids(vbefore).to_multiset().count(m.id) >= 1) by {
                    assert(spec_ids(vbefore).to_multiset().contains(m.id));
                }
                assert(!m.needs_save);
            }
            match new_queue {
                Some(q) => {
                    m.queue_name = q.clone();
                },
                None => {},
            }
            let ghost mid = *self;
            let ghost mv = m;
            self.queue.force_into_delayed(m, now, jitter);
            proof {
                assert(spec_ids(self.queue.spec_delayed()) =~= spec_ids(
                    mid.queue.spec_delayed(),
                ).push(mv.id));
                assert(self.custody() =~= mid.custody().insert(mv.id));
                assert(Message { due: spec_jittered_due(now, 60, jitter) as u64, ..mv }
                    == Self::spec_rebound(orig[k], new_queue, now, jitter));
                assert(self.spec_delayed() =~= Seq::new((k + 1) as nat, |i: int|
                    Self::spec_rebound(orig[i], new_queue, now, jitter)));
                crate::message::lemma_all_saved_push(
                    mid.spec_delayed(),
                    Self::spec_rebound(orig[k], new_queue, now, jitter),
                    self.spec_delayed(),
                );
                k = k + 1;
            }
        }
        proof {
            assert(k == orig.len());
            assert(spec_ids(drained@) =~= Seq::<u64>::empty());
            assert forall|x: u64| #[trigger] self.custody().count(x) == pre.custody()
                .count(x) by {
                assert(spec_ids(drained@).to_multiset().count(x) == 0);
            }
        }
    }

    /// Administratively bounce the queue: every delayed message is
    /// purged, logged as a permanent failure with no owner and no
    /// spool record left.
    pub fn bounce(&mut self, now: u64) -> (purged: usize)
        requires
            old(self).inv(),
        ensures
            final(self).inv(),
            forall|x: u64| #[trigger] final(self).custody().count(x) <= old(self).custody().count(x),
            final(self).spec_delayed().len() == 0,
            purged == old(self).spec_delayed().len(),
            final(self).spec_logs() == old(self).spec_logs() + Seq::new(
                old(self).spec_delayed().len(),
                |i: int| LogRecord {
                    kind: RecordType::PermanentFailure,
                    id: old(self).spec_delayed()[i].id,
                },
            ),
            forall|i: int|
                0 <= i < old(self).spec_delayed().len() ==> !final(self).spec_spooled().contains((#[trigger] old(self).spec_delayed()[i]).id),
            final(self).spec_ready() == old(self).spec_ready(),
            final(self).spec_inflight() == old(self).spec_inflight(),
            final(self).spec_connections() == old(self).spec_connections(),
    {
        let ghost pre = *self;
        let mut drained = self.queue.drain_all();
        let mut purged: usize = 0;
        let total = drained.len();
        let ghost orig = pre.spec_delayed();
        let ghost mut k: int = 0;
        proof {
            Self::lemma_drain(pre, *self, drained@);
            assert(self.spec_logs() =~= pre.spec_logs() + Seq::new(0nat, |i: int|
                LogRecord { kind: RecordType::PermanentFailure, id: orig[i].id }));
            // the drained ids are pairwise distinct
            assert forall|x: u64| #[trigger] spec_ids(orig).to_multiset().count(x)
                <= 1 by {
                assert(pre.custody().count(x) <= 1);
            }
            assert(spec_ids(orig).no_duplicates()) by {
                assert forall|x: u64|
                    spec_ids(orig).to_multiset().contains(x) implies spec_ids(
                    orig,
                ).to_multiset().count(x) == 1 by {}
                spec_ids(orig).lemma_multiset_has_no_duplicates_conv();
            }
        }
        while drained.len() > 0
            invariant
                self.site_wf(),
                self.spec_delayed().len() == 0,
                0 <= k <= orig.len(),
                purged == k,
                drained@ =~= orig.skip(k),
                spec_ids(orig).no_duplicates(),
                self.spec_logs() =~= pre.spec_logs() + Seq::new(k as nat, |i: int|
                    LogRecord { kind: RecordType::PermanentFailure, id: orig[i].id }),
                forall|j: int|
                    0 <= j < k ==> !self.spec_spooled().contains(
                        (#[trigger] orig[j]).id,
                    ),
                forall|x: u64| #[trigger] self.custody().count(x) + spec_ids(
                    drained@,
                ).to_multiset().count(x) <= pre.custody().count(x),
                forall|x: u64| #[trigger] pre.custody().count(x) <= 1,
                purged + drained@.len() <= total <= usize::MAX,
                self.spec_ready() == pre.spec_ready(),
                self.spec_inflight() == pre.spec_inflight(),
                self.spec_connections() == pre.spec_connections(),
            decreases drained@.len(),
        {
            let ghost vbefore = drained@;
            let m = drained.remove(0);
            proof {
                assert(m == vbefore[0]);
                assert(m == orig[k]);
                assert(drained@ =~= vbefore.remove(0));
                assert(drained@ =~= orig.skip(k + 1));
                assert(spec_ids(drained@) =~= spec_ids(vbefore).remove(0));
                assert(spec_ids(vbefore)[0] == m.id);
                assert(spec_ids(drained@).to_multiset() =~= spec_ids(
                    vbefore,
                ).to_multiset().remove(m.id));
                assert forall|j: int| 0 <= j < k implies orig[j].id != m.id by {
                    assert(spec_ids(orig)[j] == orig[j].id);
                    assert(spec_ids(orig)[k] == m.id);
                }
            }
            let ghost state0 = *self;
            self.log(RecordType::PermanentFailure, m.id);
            self.remove_spool(m.id);
            proof {
                assert(self.spec_logs() =~= pre.spec_logs() + Seq::new((k + 1) as nat,
                    |i: int| LogRecord {
                        kind: RecordType::PermanentFailure,
                        id: orig[i].id,
                    }));
                assert forall|j: int| 0 <= j < k + 1 implies !self.spec_spooled()
                    .contains((#[trigger] orig[j]).id) by {
                    if j < k {
                        Self::lemma_filter_no_new(
                            state0.spec_spooled(),
                            |x: u64| x != m.id,
                            orig[j].id,
                        );
                    }
                }
                k = k + 1;
            }
            purged = purged + 1;
        }
        proof {
            assert(k == orig.len());
            assert(spec_ids(drained@) =~= Seq::<u64>::empty());
            assert forall|x: u64| #[trigger] self.custody().count(x) <= pre.custody()
                .count(x) by {
                assert(spec_ids(drained@).to_multiset().count(x) == 0);
            }
        }
        purged
    }

    /// Draining the timer store splits custody between what was taken
    /// and what remains.
    proof fn lemma_drain(pre: Pipeline, post: Pipeline, drained: Seq<Message>)
        requires
            post.queue.spec_delayed() == Seq::<Message>::empty(),
            drained == pre.queue.spec_delayed(),
            post.site.spec_ready() == pre.site.spec_ready(),
            post.inflight@ == pre.inflight@,
        ensures
            forall|x: u64| #[trigger] post.custody().count(x) + spec_ids(
                drained,
            ).to_multiset().count(x) == pre.custody().count(x),
    {
        assert(spec_ids(post.queue.spec_delayed()) =~= Seq::<u64>::empty());
        assert(Seq::<u64>::empty().to_multiset() =~= Multiset::<u64>::empty());
    }
}

} // verus!
