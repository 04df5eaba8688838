//! Bounded outbound queue of one connection.
//!
//! The owning room pushes without blocking: a full queue drops the one
//! message for the one slow recipient and nothing else.  The connection's
//! writer duty drains from the front, so messages leave in arrival order.

use vstd::prelude::*;

use crate::msg::{views_of, Message, MessageView};

verus! {

/// FIFO queue of messages with a fixed bound on its length.
pub struct OutboundQueue {
    items: Vec<Message>,
    capacity: usize,
}

impl OutboundQueue {
    /// Messages waiting to be written, oldest first.
    pub closed spec fn contents(&self) -> Seq<MessageView> {
        views_of(self.items@)
    }

    /// The fixed bound the queue was created with.
    pub closed spec fn cap(&self) -> nat {
        self.capacity as nat
    }

    /// The queue never grows past its bound.
    pub open spec fn wf(&self) -> bool {
        &&& self.contents().len() <= self.cap()
        &&& self.cap() >= 1
    }

    /// An empty queue with the given bound.
    pub fn new(capacity: usize) -> (q: OutboundQueue)
        requires
            capacity >= 1,
        ensures
            q.wf(),
            q.cap() == capacity,
            q.contents() == Seq::<MessageView>::empty(),
    {
        let q = OutboundQueue { items: Vec::new(), capacity };
        proof {
            assert(q.contents() =~= Seq::<MessageView>::empty());
        }
        q
    }

    /// How many messages are waiting.
    pub fn len(&self) -> (n: usize)
        ensures
            n == self.contents().len(),
    {
        self.items.len()
    }

    /// Non-blocking push: appends the message unless the queue is at its
    /// bound, in which case the message is dropped and `false` comes back.
    pub fn try_push(&mut self, m: Message) -> (delivered: bool)
        requires
            old(self).wf(),
        ensures
            final(self).wf(),
            final(self).cap() == old(self).cap(),
            delivered == (old(self).contents().len() < old(self).cap()),
            delivered ==> final(self).contents() == old(self).contents().push(m@),
            !delivered ==> *final(self) == *old(self),
    {
        if self.items.len() < self.capacity {
            self.items.push(m);
            proof {
                assert(self.contents() =~= old(self).contents().push(m@));
            }
            true
        } else {
            false
        }
    }

    /// Removes and returns the oldest message; `None` on an empty queue.
    pub fn pop_front(&mut self) -> (m: Option<Message>)
        requires
            old(self).wf(),
        ensures
            final(self).wf(),
            final(self).cap() == old(self).cap(),
            old(self).contents().len() == 0 ==> m is None && *final(self) == *old(self),
            old(self).contents().len() > 0 ==> {
                &&& m matches Some(first) && first@ == old(self).contents()[0]
                &&& final(self).contents() == old(self).contents().drop_first()
            },
    {
        if self.items.len() == 0 {
            None
        } else {
            let first = self.items.remove(0);
            proof {
                assert(self.contents() =~= old(self).contents().drop_first());
            }
            Some(first)
        }
    }
}

} // verus!
