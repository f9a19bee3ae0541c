//! One bounded segment of the unbounded queue: a slot queue over SCQ index
//! queues that stops accepting elements for good the first time an enqueue
//! fails (it is "finalized"), so that the producers move on to a new segment.

use vstd::prelude::*;

use super::super::queue::{fill, lemma_div_at_most, scq, SlotQueue, UnderlyingQueue};
use crate::queues::{DequeueError, EnqueueError};

verus! {

/// A bounded segment of the unbounded queue.
pub struct BoundedQueue<T> {
    slots: SlotQueue<T, scq::Queue>,
    finalized: bool,
}

impl<T> BoundedQueue<T> {
    /// The slot queue is consistent.
    pub closed spec fn well_formed(&self) -> bool {
        self.slots.well_formed()
    }

    /// The elements in the segment, oldest first.
    pub closed spec fn view(&self) -> Seq<T> {
        self.slots.view()
    }

    /// The number of slots.
    pub closed spec fn capacity(&self) -> nat {
        self.slots.capacity()
    }

    /// Whether the segment refuses new elements.
    pub closed spec fn finalized(&self) -> bool {
        self.finalized
    }

    /// Whether the segment's index queues have room for more operations.
    pub closed spec fn has_room(&self) -> bool {
        self.slots.has_room()
    }

    /// How far the segment's index counters have advanced.
    pub closed spec fn position(&self) -> nat {
        self.slots.position()
    }

    /// The position below which the segment's index queues have room.
    pub closed spec fn position_limit(&self) -> nat {
        self.slots.position_limit()
    }

    /// While the counters stay below the position limit, the segment's
    /// index queues have room for another operation.
    pub proof fn law_room_below_limit(&self)
        requires
            self.well_formed(),
            self.position() < self.position_limit(),
        ensures
            self.has_room(),
    {
        self.slots.law_room_below_limit();
    }

    /// Stores `data` unless the segment is finalized or full; a failed
    /// enqueue finalizes the segment.
    pub fn try_enqueue(&mut self, data: T) -> (r: Result<(), (EnqueueError, T)>)
        requires
            old(self).well_formed(),
        ensures
            final(self).well_formed(),
            final(self).capacity() == old(self).capacity(),
            final(self).position() <= old(self).position() + 2,
            final(self).position_limit() == old(self).position_limit(),
            match r {
                Ok(()) => {
                    &&& !old(self).finalized()
                    &&& !final(self).finalized()
                    &&& old(self).has_room()
                    &&& old(self).view().len() < old(self).capacity()
                    &&& crate::queues::appended(old(self).view(), final(self).view(), data)
                },
                Err((e, d)) => {
                    &&& e == EnqueueError::Full
                    &&& d == data
                    &&& final(self).finalized()
                    &&& final(self).view() == old(self).view()
                    &&& (old(self).finalized() || old(self).view().len() == old(self).capacity()
                        || !old(self).has_room())
                },
            },
    {
        if self.finalized {
            return Err((EnqueueError::Full, data));
        }
        match self.slots.try_enqueue(data) {
            Ok(()) => Ok(()),
            Err(d) => {
                self.finalized = true;
                Err((EnqueueError::Full, d))
            },
        }
    }

    /// Dequeues the oldest element of the segment, if there is one.
    pub fn dequeue(&mut self) -> (r: Result<T, DequeueError>)
        requires
            old(self).well_formed(),
        ensures
            final(self).well_formed(),
            final(self).capacity() == old(self).capacity(),
            final(self).finalized() == old(self).finalized(),
            final(self).position() <= old(self).position() + 2,
            final(self).position_limit() == old(self).position_limit(),
            match r {
                Ok(d) => {
                    &&& crate::queues::removed_first(old(self).view(), final(self).view(), d)
                },
                Err(e) => {
                    &&& e == DequeueError::Empty
                    &&& final(self).view() == old(self).view()
                    &&& (old(self).view().len() == 0 || !old(self).has_room())
                    &&& (old(self).view().len() > 0 ==> !final(self).has_room())
                },
            },
    {
        match self.slots.dequeue() {
            Some(d) => Ok(d),
            None => Err(DequeueError::Empty),
        }
    }

    /// Whether the segment holds no element.
    pub fn is_empty(&self) -> (b: bool)
        requires
            self.well_formed(),
        ensures
            b == (self.view().len() == 0),
    {
        self.slots.is_empty()
    }
}

/// A fresh, empty segment with `capacity` slots.
pub fn new_queue<T>(capacity: usize) -> (q: BoundedQueue<T>)
    requires
        0 < capacity,
        2 * capacity - 1 <= u32::MAX,
        3 * capacity - 1 <= isize::MAX,
        4 * capacity + 8 < usize::MAX,
    ensures
        q.well_formed(),
        q.view() == Seq::<T>::empty(),
        q.capacity() == capacity,
        !q.finalized(),
        q.has_room(),
        q.position() <= 4 * capacity,
        q.position_limit() == scq::scq_position_limit(capacity as nat),
{
    let aq = scq::Queue::new(capacity);
    let mut fq = scq::Queue::new(capacity);
    proof {
        assert forall|q: scq::Queue| q.well_formed() && q.capacity() == capacity && #[trigger] q.position()
            <= fq.position() + 2 * capacity implies q.has_room() by {
            lemma_div_at_most(q.position() + 2int, 3, 2 * capacity as int);
        }
    }
    fill(&mut fq, capacity);
    proof {
        lemma_div_at_most(aq.position() + 2int, 3, 2 * capacity as int);
        lemma_div_at_most(fq.position() + 2int, 3, 2 * capacity as int);
    }
    BoundedQueue { slots: SlotQueue::new(aq, fq, capacity), finalized: false }
}

} // verus!
