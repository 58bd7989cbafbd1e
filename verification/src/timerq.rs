//! The per-queue time-ordered retry store.
//!
//! Messages wait here until their due time. Popping returns every
//! message that is due at once; when none is due, it reports how long
//! to sleep until the earliest one.

use crate::message::Message;
use vstd::prelude::*;

verus! {

/// The outcome of inserting into the timer store.
#[derive(Debug)]
pub enum InsertOutcome {
    /// The message was accepted and will wait for its due time.
    Delayed,
    /// The message's due time has already passed; it is handed back so
    /// the caller can route it straight to the ready path.
    Ready(Message),
}

/// The outcome of popping the timer store.
#[derive(Debug)]
pub enum PopOutcome {
    /// Every message whose due time has arrived, oldest insertion
    /// first.
    Items(Vec<Message>),
    /// Nothing is due; the earliest due time is this many seconds
    /// away.
    Sleep(u64),
    /// The store is empty.
    Empty,
}

/// Messages of one queue waiting for their due time.
pub struct TimerQueue {
    entries: Vec<Message>,
}

/// The ids of a run of messages, in order.
pub open spec fn spec_ids(ms: Seq<Message>) -> Seq<u64> {
    ms.map_values(|m: Message| m.id)
}

/// The earliest due time in a non-empty run.
pub open spec fn spec_min_due(ms: Seq<Message>) -> int
    decreases ms.len(),
{
    if ms.len() == 0 {
        0
    } else if ms.len() == 1 {
        ms[0].due as int
    } else {
        let rest = spec_min_due(ms.drop_last());
        if ms.last().due < rest {
            ms.last().due as int
        } else {
            rest
        }
    }
}

impl TimerQueue {
    /// The waiting messages, in insertion order.
    pub closed spec fn view(&self) -> Seq<Message> {
        self.entries@
    }

    /// An empty timer store.
    pub fn new() -> (r: TimerQueue)
        ensures
            r@ == Seq::<Message>::empty(),
    {
        let q = TimerQueue { entries: Vec::new() };
        proof {
            assert(q@ =~= Seq::<Message>::empty());
        }
        q
    }

    /// How many messages are waiting.
    pub fn len(&self) -> (r: usize)
        ensures
            r == self@.len(),
    {
        self.entries.len()
    }

    /// Accept a message to wait for its due time; a message already
    /// due is handed back unchanged for the ready path.
    pub fn insert(&mut self, msg: Message, now: u64) -> (r: InsertOutcome)
        ensures
            msg.due <= now ==> (r matches InsertOutcome::Ready(m) && m == msg
                && final(self)@ == old(self)@),
            msg.due > now ==> (r is Delayed && final(self)@ == old(self)@.push(msg)),
    {
        if msg.due <= now {
            InsertOutcome::Ready(msg)
        } else {
            self.entries.push(msg);
            InsertOutcome::Delayed
        }
    }

    /// Take out every message that is due; report the sleep time when
    /// none is, and emptiness otherwise.
    pub fn pop(&mut self, now: u64) -> (r: PopOutcome)
        ensures
            final(self)@ == old(self)@.filter(|m: Message| m.due > now),
            match r {
                PopOutcome::Items(v) => v@ == old(self)@.filter(|m: Message| m.due
                    <= now) && v@.len() > 0,
                PopOutcome::Sleep(d) => old(self)@.len() > 0 && final(self)@ == old(
                    self,
                )@ && d == spec_min_due(old(self)@) - now && spec_min_due(old(self)@)
                    > now && old(self)@.filter(|m: Message| m.due <= now).len() == 0,
                PopOutcome::Empty => old(self)@.len() == 0 && final(self)@ == old(
                    self,
                )@,
            },
    {
        let ghost orig = self.entries@;
        let mut taken: Vec<Message> = Vec::new();
        core::mem::swap(&mut self.entries, &mut taken);
        proof {
            reveal(Seq::filter);
        }
        if taken.len() == 0 {
            proof {
                assert(orig.filter(|m: Message| m.due > now) =~= orig);
                assert(self.entries@ =~= orig);
            }
            return PopOutcome::Empty;
        }
        let mut due: Vec<Message> = Vec::new();
        let mut kept: Vec<Message> = Vec::new();
        let ghost mut k: int = 0;
        proof {
            assert(orig.take(0) =~= Seq::<Message>::empty());
            assert(taken@ =~= orig.skip(0));
        }
        while taken.len() > 0
            invariant
                0 <= k <= orig.len(),
                taken@ =~= orig.skip(k),
                due@ =~= orig.take(k).filter(|m: Message| m.due <= now),
                kept@ =~= orig.take(k).filter(|m: Message| m.due > now),
            decreases taken@.len(),
        {
            let m = taken.remove(0);
            proof {
                reveal(Seq::filter);
                assert(m == orig[k]);
                assert(orig.take(k + 1).drop_last() =~= orig.take(k));
                assert(orig.take(k + 1).last() == orig[k]);
            }
            if m.due <= now {
                due.push(m);
            } else {
                kept.push(m);
            }
            proof {
                assert(taken@ =~= orig.skip(k + 1));
                k = k + 1;
            }
        }
        proof {
            assert(orig.take(k) =~= orig);
        }
        self.entries = kept;
        if due.len() > 0 {
            PopOutcome::Items(due)
        } else {
            proof {
                lemma_none_due_all_kept(orig, now);
            }
            let min = self.min_due();
            PopOutcome::Sleep(min - now)
        }
    }

    /// Take out every waiting message, due or not.
    pub fn drain_all(&mut self) -> (r: Vec<Message>)
        ensures
            final(self)@ == Seq::<Message>::empty(),
            r@ == old(self)@,
    {
        let mut taken: Vec<Message> = Vec::new();
        core::mem::swap(&mut self.entries, &mut taken);
        taken
    }

    /// The earliest due time of the waiting messages.
    fn min_due(&self) -> (r: u64)
        requires
            self@.len() > 0,
        ensures
            r == spec_min_due(self@),
    {
        let mut best: u64 = self.entries[0].due;
        let mut i: usize = 1;
        proof {
            assert(self@.take(1).len() == 1);
            assert(self@.take(1)[0] == self@[0]);
        }
        while i < self.entries.len()
            invariant
                1 <= i <= self@.len(),
                best == spec_min_due(self@.take(i as int)),
            decreases self.entries.len() - i,
        {
            proof {
                assert(self@.take(i + 1).drop_last() =~= self@.take(i as int));
                assert(self@.take(i + 1).last() == self@[i as int]);
            }
            let d = self.entries[i].due;
            if d < best {
                best = d;
            }
            i = i + 1;
        }
        proof {
            assert(self@.take(self@.len() as int) =~= self@);
        }
        best
    }
}

/// When nothing filtered as due, everything was kept, and the earliest
/// due time lies in the future.
proof fn lemma_none_due_all_kept(orig: Seq<Message>, now: u64)
    requires
        orig.len() > 0,
        orig.filter(|m: Message| m.due <= now).len() == 0,
    ensures
        orig.filter(|m: Message| m.due > now) =~= orig,
        spec_min_due(orig) > now,
    decreases orig.len(),
{
    reveal(Seq::filter);
    if orig.last().due <= now {
        assert(orig.filter(|m: Message| m.due <= now).len() > 0);
    }
    if orig.len() == 1 {
        assert(orig.drop_last() =~= Seq::<Message>::empty());
        assert(orig.filter(|m: Message| m.due > now) =~= orig) by {
            assert(orig.drop_last().filter(|m: Message| m.due > now)
                =~= Seq::<Message>::empty());
        }
    } else {
        lemma_none_due_all_kept(orig.drop_last(), now);
        assert(orig.filter(|m: Message| m.due > now) =~= orig) by {
            assert(orig.drop_last().filter(|m: Message| m.due > now) =~= orig.drop_last());
        }
    }
}

} // verus!
