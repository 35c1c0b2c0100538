//! Bounded FIFO queue carrying confirmed key events from the interrupt
//! contexts to the task that applies them to the layout engine. Events are
//! applied in exactly the order they were enqueued; a full queue refuses
//! the event so the caller can treat it as fatal.

use vstd::prelude::*;

use crate::event::KeyEvent;

verus! {

/// A bounded first-in first-out event queue.
pub struct DispatchQueue {
    pub items: Vec<KeyEvent>,
    pub capacity: usize,
}

impl DispatchQueue {
    /// The queue never holds more than its capacity.
    pub open spec fn wf(self) -> bool {
        self.items@.len() <= self.capacity as int
    }

    /// An empty queue with the given capacity.
    pub fn new(capacity: usize) -> (q: DispatchQueue)
        ensures
            q.wf(),
            q.capacity == capacity,
            q.items@ == Seq::<KeyEvent>::empty(),
    {
        let q = DispatchQueue { items: Vec::new(), capacity };
        proof {
            assert(q.items@ =~= Seq::<KeyEvent>::empty());
        }
        q
    }

    /// Enqueues `e` at the back; succeeds exactly when the queue has room.
    /// On refusal the queue is unchanged.
    pub fn push(&mut self, e: KeyEvent) -> (ok: bool)
        requires
            old(self).wf(),
        ensures
            final(self).wf(),
            final(self).capacity == old(self).capacity,
            ok == (old(self).items@.len() < old(self).capacity as int),
            ok ==> final(self).items@ == old(self).items@.push(e),
            !ok ==> final(self).items@ == old(self).items@,
    {
        if self.items.len() < self.capacity {
            self.items.push(e);
            true
        } else {
            false
        }
    }

    /// Dequeues the oldest event, if any.
    pub fn pop(&mut self) -> (r: Option<KeyEvent>)
        requires
            old(self).wf(),
        ensures
            final(self).wf(),
            final(self).capacity == old(self).capacity,
            old(self).items@.len() == 0 ==> r is None && final(self).items@ == old(self).items@,
            old(self).items@.len() > 0 ==> r == Some(old(self).items@[0]) && final(self).items@
                == old(self).items@.drop_first(),
    {
        if self.items.len() > 0 {
            let e = self.items.remove(0);
            proof {
                assert(self.items@ =~= old(self).items@.drop_first());
            }
            Some(e)
        } else {
            None
        }
    }

    /// Number of queued events.
    pub fn len(&self) -> (n: usize)
        ensures
            n == self.items@.len(),
    {
        self.items.len()
    }
}

} // verus!
