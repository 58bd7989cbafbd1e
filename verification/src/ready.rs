//! The bounded ready buffer of one destination site.
//!
//! A fixed-capacity ring holds the messages that are eligible to send
//! right now. A full ring hands the rejected message back, which is the
//! core back-pressure signal. The ring itself comes from the `ringbuf`
//! crate; its behaviour enters the proofs only through the contracts
//! below, which state what `push` and `pop` do to the ring's contents.

use crate::message::Message;
use ringbuf::Rb;
use vstd::prelude::*;

verus! {

/// A fixed-capacity ring of ready messages.
///
/// The backing store is `ringbuf::HeapRb`, which Verus does not read;
/// the ring's contents and capacity are named below and every access
/// goes through the contracted methods.
#[verifier::external_body]
pub struct ReadyRing {
    inner: ringbuf::HeapRb<Message>,
}

/// The messages in the ring, oldest first.
pub uninterp spec fn ring_items(r: &ReadyRing) -> Seq<Message>;

/// The fixed capacity the ring was created with.
pub uninterp spec fn ring_cap(r: &ReadyRing) -> nat;

impl ReadyRing {
    /// Relies on ringbuf's HeapRb::new: an empty ring of the given
    /// capacity (which must not be zero).
    #[verifier::external_body]
    pub fn new(capacity: usize) -> (r: ReadyRing)
        requires
            capacity >= 1,
        ensures
            ring_items(&r) == Seq::<Message>::empty(),
            ring_cap(&r) == capacity,
    {
        ReadyRing { inner: ringbuf::HeapRb::new(capacity) }
    }

    /// Relies on ringbuf's Rb::len: the number of stored items.
    #[verifier::external_body]
    pub fn len(&self) -> (r: usize)
        ensures
            r == ring_items(self).len(),
    {
        self.inner.len()
    }

    /// Relies on ringbuf's Rb::push: appends at the tail, or hands the
    /// item back when the ring is full.
    #[verifier::external_body]
    pub fn push(&mut self, msg: Message) -> (r: Result<(), Message>)
        ensures
            ring_cap(final(self)) == ring_cap(old(self)),
            if ring_items(old(self)).len() < ring_cap(old(self)) {
                r is Ok && ring_items(final(self)) == ring_items(old(self)).push(msg)
            } else {
                r matches Err(m) && m == msg && ring_items(final(self)) == ring_items(
                    old(self),
                )
            },
    {
        self.inner.push(msg)
    }

    /// Relies on ringbuf's Rb::pop (through Consumer::pop): removes
    /// and returns the oldest item, or nothing when empty.
    #[verifier::external_body]
    pub fn pop(&mut self) -> (r: Option<Message>)
        ensures
            ring_cap(final(self)) == ring_cap(old(self)),
            if ring_items(old(self)).len() > 0 {
                r == Some(ring_items(old(self)).first()) && ring_items(final(self))
                    == ring_items(old(self)).drop_first()
            } else {
                r is None && ring_items(final(self)) == ring_items(old(self))
            },
    {
        self.inner.pop()
    }
}

} // verus!
