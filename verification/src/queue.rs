//! The bounded item queue: the buffer between the scraping side and the
//! processing side of the pipeline.
//!
//! Its capacity is fixed at creation and deliberately small, so that items
//! are drained quickly instead of accumulating: a producer is refused — and
//! must wait — exactly while the buffer is at capacity, and consuming a
//! single item always makes room again. That is the backpressure contract
//! of the pipeline.

use vstd::prelude::*;

verus! {

/// A first-in-first-out buffer of fixed capacity.
pub struct ItemQueue<T> {
    items: Vec<T>,
    capacity: usize,
}

impl<T> View for ItemQueue<T> {
    type V = Seq<T>;

    closed spec fn view(&self) -> Seq<T> {
        self.items@
    }
}

impl<T> ItemQueue<T> {
    /// The capacity the queue was created with.
    pub closed spec fn cap(&self) -> nat {
        self.capacity as nat
    }

    /// A well-formed queue never holds more than its capacity, and its
    /// capacity is at least one, so that consuming an item always lets a
    /// producer proceed.
    pub open spec fn wf(&self) -> bool {
        &&& self@.len() <= self.cap()
        &&& 1 <= self.cap()
    }

    /// Whether a producer is refused: the buffer is at capacity.
    pub open spec fn push_refused(&self) -> bool {
        self@.len() >= self.cap()
    }

    /// An empty queue of capacity `capacity`.
    pub fn new(capacity: usize) -> (q: ItemQueue<T>)
        requires
            1 <= capacity,
        ensures
            q.wf(),
            q@ == Seq::<T>::empty(),
            q.cap() == capacity,
    {
        ItemQueue { items: Vec::new(), capacity }
    }

    /// The number of items waiting in the queue.
    pub fn len(&self) -> (n: usize)
        ensures
            n == self@.len(),
    {
        self.items.len()
    }

    /// The capacity the queue was created with.
    pub fn capacity(&self) -> (n: usize)
        ensures
            n == self.cap(),
    {
        self.capacity
    }

    /// Appends an item; only for callers that know the buffer is not full.
    pub fn push(&mut self, item: T)
        requires
            old(self).wf(),
            old(self)@.len() < old(self).cap(),
        ensures
            final(self).wf(),
            final(self)@ == old(self)@.push(item),
            final(self).cap() == old(self).cap(),
    {
        self.items.push(item);
    }

    /// Offers an item: refused — handed back unchanged — exactly when the
    /// buffer is at capacity, and accepted otherwise.
    pub fn try_push(&mut self, item: T) -> (r: Option<T>)
        requires
            old(self).wf(),
        ensures
            final(self).wf(),
            final(self).cap() == old(self).cap(),
            old(self).push_refused() ==> r == Some(item) && final(self)@ == old(self)@,
            !old(self).push_refused() ==> r is None && final(self)@ == old(self)@.push(item),
    {
        if self.items.len() == self.capacity {
            Some(item)
        } else {
            self.items.push(item);
            None
        }
    }

    /// Takes the oldest item, or nothing from an empty queue.
    pub fn pop(&mut self) -> (r: Option<T>)
        requires
            old(self).wf(),
        ensures
            final(self).wf(),
            final(self).cap() == old(self).cap(),
            old(self)@.len() == 0 ==> r is None && final(self)@ == old(self)@,
            old(self)@.len() > 0 ==> {
                &&& r is Some
                &&& r->0 == old(self)@[0]
                &&& final(self)@ == old(self)@.drop_first()
            },
    {
        if self.items.len() == 0 {
            None
        } else {
            let item = self.items.remove(0);
            proof {
                assert(self.items@ =~= old(self).items@.drop_first());
            }
            Some(item)
        }
    }
}

/// Backpressure, stated over the queue: a producer is refused exactly when
/// the buffer holds `cap` items — never earlier, so the pipeline absorbs
/// items up to its capacity — and after one item is consumed a producer is
/// no longer refused, so a lagging consumer stalls the producers rather
/// than growing the buffer without bound.
pub proof fn lemma_backpressure<T>(q: ItemQueue<T>)
    requires
        q.wf(),
    ensures
        q@.len() <= q.cap(),
        q.push_refused() <==> q@.len() == q.cap(),
        q.push_refused() ==> q@.drop_first().len() < q.cap(),
{
}

} // verus!
