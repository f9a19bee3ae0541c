//! An unbounded single-producer single-consumer queue made of bounded rings.
//!
//! The producer writes into its current ring; when that ring is full it
//! closes it and starts a new one. The consumer reads its current ring; when
//! that ring is empty and closed, it moves on to the next ring.
//!
//! ```
//! use nolock::queues::spsc::unbounded;
//!
//! let (mut rx, mut tx) = unbounded::queue();
//! tx.enqueue(13).unwrap();
//! assert_eq!(Ok(13), rx.try_dequeue());
//! ```

use std::sync::{Arc, Mutex};
use vstd::prelude::*;

use super::bounded::Ring;
use crate::queues::{DequeueError, EnqueueError};
use crate::shared::{Checked, Core, acquire, guarded, new_lock};

pub mod d_spsc;
use d_spsc::BasicQueue;

verus! {

/// The number of slots of every ring.
pub const BUFFER_SIZE: usize = 64;

/// The elements of a sequence of rings, ring after ring.
pub open spec fn flatten<T>(rings: Seq<Ring<T>>) -> Seq<T>
    decreases rings.len(),
{
    if rings.len() == 0 {
        Seq::empty()
    } else {
        rings[0].view() + flatten(rings.drop_first())
    }
}

/// Appending a ring appends its elements.
pub proof fn lemma_flatten_push<T>(rings: Seq<Ring<T>>, r: Ring<T>)
    ensures
        flatten(rings.push(r)) == flatten(rings) + r.view(),
    decreases rings.len(),
{
    if rings.len() == 0 {
        assert(rings.push(r).drop_first() =~= Seq::<Ring<T>>::empty());
        assert(rings.push(r)[0] == r);
        assert(flatten(rings.push(r).drop_first()) =~= Seq::<T>::empty());
        assert(flatten(rings.push(r)) =~= r.view());
    } else {
        lemma_flatten_push(rings.drop_first(), r);
        assert(rings.push(r).drop_first() =~= rings.drop_first().push(r));
        assert(flatten(rings.push(r)) =~= flatten(rings) + r.view());
    }
}

/// The shared state of an unbounded queue: the consumer's ring, the full
/// rings that the producer has left, and the producer's ring when it is not
/// the consumer's.
pub struct Unbounded<T> {
    buf_r: Ring<T>,
    inuse: BasicQueue<Ring<T>>,
    buf_w: Option<Ring<T>>,
    buffer_size: usize,
    closed: bool,
}

impl<T> Unbounded<T> {
    /// The ring that the producer writes.
    spec fn writer_ring(&self) -> Ring<T> {
        match self.buf_w {
            Some(w) => w,
            None => self.buf_r,
        }
    }

    /// Every ring has `buffer_size` slots; the rings the producer left are
    /// full and closed; the consumer's ring is closed once the producer has
    /// moved past it; the producer's ring is closed only with the queue.
    pub closed spec fn well_formed(&self) -> bool {
        let rings = self.inuse.view();
        &&& self.buffer_size > 0
        &&& self.buf_r.well_formed()
        &&& self.buf_r.capacity() == self.buffer_size
        &&& self.inuse.well_formed()
        &&& !self.inuse.closed()
        &&& forall|k: int|
            0 <= k < rings.len() ==> (#[trigger] rings[k]).well_formed() && rings[k].capacity()
                == self.buffer_size && rings[k].closed() && rings[k].view().len() == self.buffer_size
        &&& match self.buf_w {
            Some(w) => w.well_formed() && w.capacity() == self.buffer_size && self.buf_r.closed(),
            None => rings.len() == 0,
        }
        &&& (self.writer_ring().closed() ==> self.closed)
    }

    /// The queued elements, oldest first.
    pub closed spec fn view(&self) -> Seq<T> {
        self.buf_r.view() + flatten(self.inuse.view()) + match self.buf_w {
            Some(w) => w.view(),
            None => Seq::empty(),
        }
    }

    /// Whether either side has closed the queue.
    pub closed spec fn closed(&self) -> bool {
        self.closed
    }

    /// Whether the producer has closed the queue.
    pub closed spec fn producer_closed(&self) -> bool {
        self.writer_ring().closed()
    }

    /// Whether the consumer reads the ring that the producer writes.
    pub closed spec fn on_last_ring(&self) -> bool {
        self.buf_w is None
    }

    /// An empty, open queue whose rings have `buffer_size` slots.
    pub fn new(buffer_size: usize) -> (q: Self)
        requires
            buffer_size > 0,
        ensures
            q.well_formed(),
            q.view() == Seq::<T>::empty(),
            !q.closed(),
            !q.producer_closed(),
            q.on_last_ring(),
    {
        let q = Unbounded {
            buf_r: Ring::new(buffer_size),
            inuse: BasicQueue::new(),
            buf_w: None,
            buffer_size,
            closed: false,
        };
        assert(q.view() =~= Seq::<T>::empty());
        q
    }

    /// Whether either side has closed the queue.
    pub fn is_closed(&self) -> (b: bool)
        ensures
            b == self.closed(),
    {
        self.closed
    }

    /// Closes the producer's ring and starts a new one holding `data`.
    fn next_w(&mut self, data: T)
        requires
            old(self).well_formed(),
            !old(self).closed(),
            old(self).writer_ring().view().len() == old(self).buffer_size,
        ensures
            final(self).well_formed(),
            final(self).closed() == old(self).closed(),
            crate::queues::appended(old(self).view(), final(self).view(), data),
            !final(self).producer_closed(),
    {
        let ghost v0 = self.view();
        let ghost rings0 = self.inuse.view();
        match self.buf_w.take() {
            Some(w) => {
                let mut w = w;
                w.close();
                let r = self.inuse.enqueue(w);
                proof {
                    assert(r is Ok);
                    lemma_flatten_push(rings0, w);
                    let rings = self.inuse.view();
                    assert forall|k: int| 0 <= k < rings.len() implies (#[trigger] rings[k]).well_formed()
                        && rings[k].capacity() == self.buffer_size && rings[k].closed() && rings[k].view().len()
                        == self.buffer_size by {
                        if k < rings0.len() {
                            assert(rings[k] == rings0[k]);
                        }
                    }
                }
            },
            None => {
                self.buf_r.close();
            },
        }
        let mut fresh = Ring::new(self.buffer_size);
        let r = fresh.try_enqueue(data);
        assert(r is Ok);
        self.buf_w = Some(fresh);
        proof {
            assert(fresh.view() =~= seq![data]);
            assert(self.view() =~= v0.push(data));
        }
    }

    /// Enqueues `data` unless the queue is closed.
    pub fn enqueue(&mut self, data: T) -> (r: Result<(), (T, EnqueueError)>)
        requires
            old(self).well_formed(),
        ensures
            final(self).well_formed(),
            final(self).closed() == old(self).closed(),
            final(self).producer_closed() == old(self).producer_closed(),
            match r {
                Ok(()) => !old(self).closed() && crate::queues::appended(old(self).view(), final(self).view(), data),
                Err((d, e)) => {
                    &&& old(self).closed()
                    &&& e == EnqueueError::Closed
                    &&& d == data
                    &&& final(self).view() == old(self).view()
                },
            },
    {
        if self.closed {
            return Err((data, EnqueueError::Closed));
        }
        let ghost v0 = self.view();
        match self.buf_w.take() {
            Some(mut w) => {
                match w.try_enqueue(data) {
                    Ok(()) => {
                        self.buf_w = Some(w);
                        assert(self.view() =~= v0.push(data));
                        Ok(())
                    },
                    Err((data, _)) => {
                        self.buf_w = Some(w);
                        self.next_w(data);
                        Ok(())
                    },
                }
            },
            None => {
                match self.buf_r.try_enqueue(data) {
                    Ok(()) => {
                        assert(self.view() =~= v0.push(data));
                        Ok(())
                    },
                    Err((data, _)) => {
                        self.next_w(data);
                        Ok(())
                    },
                }
            },
        }
    }

    /// Dequeues the oldest element, moving on to the next ring when the
    /// consumer's ring is drained and closed.
    pub fn try_dequeue(&mut self) -> (r: Result<T, DequeueError>)
        requires
            old(self).well_formed(),
        ensures
            final(self).well_formed(),
            final(self).closed() == old(self).closed(),
            final(self).producer_closed() == old(self).producer_closed(),
            match r {
                Ok(d) => {
                    &&& crate::queues::removed_first(old(self).view(), final(self).view(), d)
                },
                Err(e) => {
                    &&& old(self).view().len() == 0
                    &&& final(self).view() == old(self).view()
                    &&& (e == DequeueError::Closed <==> old(self).producer_closed())
                },
            },
    {
        let ghost v0 = self.view();
        let ghost rings0 = self.inuse.view();
        match self.buf_r.try_dequeue() {
            Ok(d) => {
                assert(self.view() =~= v0.drop_first());
                Ok(d)
            },
            Err(DequeueError::Empty) => Err(DequeueError::Empty),
            Err(DequeueError::Closed) => {
                match self.inuse.try_dequeue() {
                    Ok(n) => {
                        proof {
                            assert(n == rings0[0]);
                            assert(flatten(rings0) == n.view() + flatten(rings0.drop_first()));
                            let rings = self.inuse.view();
                            assert forall|k: int| 0 <= k < rings.len() implies (#[trigger] rings[k]).well_formed()
                                && rings[k].capacity() == self.buffer_size && rings[k].closed() && rings[k].view().len()
                                == self.buffer_size by {
                                assert(rings[k] == rings0[k + 1]);
                            }
                            assert(self.buf_r.view() =~= Seq::<T>::empty());
                        }
                        self.buf_r = n;
                        proof {
                            assert(self.view() =~= v0);
                        }
                        let r = self.buf_r.try_dequeue();
                        proof {
                            assert(self.view() =~= v0.drop_first());
                        }
                        r
                    },
                    Err(_) => {
                        match self.buf_w.take() {
                            Some(w) => {
                                proof {
                                    assert(self.buf_r.view() =~= Seq::<T>::empty());
                                    assert(flatten(rings0) =~= Seq::<T>::empty());
                                }
                                self.buf_r = w;
                                proof {
                                    assert(self.view() =~= v0);
                                }
                                let r = self.buf_r.try_dequeue();
                                proof {
                                    if r is Ok {
                                        assert(self.view() =~= v0.drop_first());
                                    }
                                }
                                r
                            },
                            None => {
                                proof {
                                    assert(v0 =~= Seq::<T>::empty());
                                }
                                Err(DequeueError::Closed)
                            },
                        }
                    },
                }
            },
        }
    }

    /// Whether the producer is gone and the consumer is on the last ring.
    pub fn receiver_sees_closed(&self) -> (b: bool)
        requires
            self.well_formed(),
        ensures
            b == (self.producer_closed() && self.on_last_ring()),
    {
        self.buf_r.is_closed() && !self.inuse.has_next() && self.buf_w.is_none()
    }

    /// Closes the queue from the producer's side: the producer's ring is
    /// closed as well.
    pub fn close_sender(&mut self)
        requires
            old(self).well_formed(),
        ensures
            final(self).well_formed(),
            final(self).closed(),
            final(self).producer_closed(),
            final(self).view() == old(self).view(),
            final(self).on_last_ring() == old(self).on_last_ring(),
        opens_invariants none
        no_unwind
    {
        self.closed = true;
        match &mut self.buf_w {
            Some(w) => {
                w.close();
            },
            None => {
                self.buf_r.close();
            },
        }
    }

    /// Closes the queue from the consumer's side.
    pub fn close_receiver(&mut self)
        requires
            old(self).well_formed(),
        ensures
            final(self).well_formed(),
            final(self).closed(),
            final(self).producer_closed() == old(self).producer_closed(),
            final(self).view() == old(self).view(),
            final(self).on_last_ring() == old(self).on_last_ring(),
        opens_invariants none
        no_unwind
    {
        self.closed = true;
    }
}

impl<T> Core for Unbounded<T> {
    open spec fn wf(&self) -> bool {
        self.well_formed()
    }
}

/// What a sender's `is_closed` reads off the shared slot: whether the
/// receiver has closed the queue; a slot without a queue answers `true`.
fn slot_is_closed<T>(slot: &mut Checked<Unbounded<T>>) -> (b: bool)
    ensures
        final(slot).core == old(slot).core,
        b == match old(slot).core {
            Some(q) => q.closed(),
            None => true,
        },
{
    match slot.take() {
        Some(q) => {
            let b = q.is_closed();
            slot.put(q);
            b
        },
        None => true,
    }
}

/// What a receiver's `is_closed` reads off the shared slot: whether the
/// sender is gone and the receiver has reached the last ring; a slot
/// without a queue answers `true`.
fn slot_receiver_sees_closed<T>(slot: &mut Checked<Unbounded<T>>) -> (b: bool)
    ensures
        final(slot).core == old(slot).core,
        b == match old(slot).core {
            Some(q) => q.producer_closed() && q.on_last_ring(),
            None => true,
        },
{
    match slot.take() {
        Some(q) => {
            let b = q.receiver_sees_closed();
            slot.put(q);
            b
        },
        None => true,
    }
}

/// A sender's `enqueue` on the shared slot: the queue's `enqueue`; a slot
/// without a queue answers `Closed` and hands the data back.
fn slot_enqueue<T>(slot: &mut Checked<Unbounded<T>>, data: T) -> (r: Result<(), (T, EnqueueError)>)
    ensures
        old(slot).core is None ==> final(slot).core is None && r == Err::<(), (T, EnqueueError)>(
            (data, EnqueueError::Closed),
        ),
        old(slot).core matches Some(q) ==> final(slot).core matches Some(q2) && q2.closed() == q.closed()
            && q2.producer_closed() == q.producer_closed() && match r {
            Ok(()) => !q.closed() && crate::queues::appended(q.view(), q2.view(), data),
            Err((d, e)) => {
                &&& q.closed()
                &&& e == EnqueueError::Closed
                &&& d == data
                &&& q2.view() == q.view()
            },
        },
{
    match slot.take() {
        Some(mut q) => {
            let r = q.enqueue(data);
            slot.put(q);
            r
        },
        None => Err((data, EnqueueError::Closed)),
    }
}

/// A receiver's `try_dequeue` on the shared slot: the queue's
/// `try_dequeue`; a slot without a queue answers `Closed`.
fn slot_try_dequeue<T>(slot: &mut Checked<Unbounded<T>>) -> (r: Result<T, DequeueError>)
    ensures
        old(slot).core is None ==> final(slot).core is None && r == Err::<T, DequeueError>(DequeueError::Closed),
        old(slot).core matches Some(q) ==> final(slot).core matches Some(q2) && q2.closed() == q.closed()
            && q2.producer_closed() == q.producer_closed() && match r {
            Ok(d) => crate::queues::removed_first(q.view(), q2.view(), d),
            Err(e) => {
                &&& q.view().len() == 0
                &&& q2.view() == q.view()
                &&& (e == DequeueError::Closed <==> q.producer_closed())
            },
        },
{
    match slot.take() {
        Some(mut q) => {
            let r = q.try_dequeue();
            slot.put(q);
            r
        },
        None => Err(DequeueError::Closed),
    }
}

/// The sending half of an unbounded queue.
#[verifier::reject_recursive_types(T)]
pub struct UnboundedSender<T> {
    shared: Arc<Mutex<Checked<Unbounded<T>>>>,
}

/// The receiving half of an unbounded queue.
#[verifier::reject_recursive_types(T)]
pub struct UnboundedReceiver<T> {
    shared: Arc<Mutex<Checked<Unbounded<T>>>>,
    empty_answers: Ghost<nat>,
    closed_answer: Ghost<bool>,
    calls: Ghost<nat>,
}

impl<T> UnboundedSender<T> {
    /// Whether the queue has been closed by the receiver.
    pub fn is_closed(&self) -> bool {
        match acquire(&*self.shared) {
            Some(mut g) => slot_is_closed(guarded(&mut g)),
            None => true,
        }
    }

    /// Enqueues `data`; fails only when the receiver is gone, handing the
    /// data back.
    pub fn enqueue(&mut self, data: T) -> (r: Result<(), (T, EnqueueError)>)
        ensures
            r matches Err((d, _)) ==> d == data,
    {
        match acquire(&*self.shared) {
            Some(mut g) => slot_enqueue(guarded(&mut g), data),
            None => Err((data, EnqueueError::Closed)),
        }
    }
}

impl<T> Drop for UnboundedSender<T> {
    fn drop(&mut self)
        opens_invariants none
        no_unwind
    {
        if let Some(mut g) = acquire(&*self.shared) {
            let slot = guarded(&mut g);
            match slot.take() {
                Some(mut q) => {
                    q.close_sender();
                    slot.put(q);
                },
                None => {},
            }
        }
    }
}

impl<T> UnboundedReceiver<T> {
    /// How many `Empty` answers in a row `try_dequeue` has given on this
    /// handle, up to now.
    pub closed spec fn empty_run(&self) -> nat {
        self.empty_answers@
    }

    /// Whether the last answer of `try_dequeue` on this handle was `Closed`.
    pub closed spec fn last_closed(&self) -> bool {
        self.closed_answer@
    }

    /// How many times `try_dequeue` has been called on this handle.
    pub closed spec fn tries(&self) -> nat {
        self.calls@
    }

    /// Whether the sender is gone and the receiver has reached the last
    /// ring. Elements may still be waiting in it.
    pub fn is_closed(&self) -> bool {
        match acquire(&*self.shared) {
            Some(mut g) => slot_receiver_sees_closed(guarded(&mut g)),
            None => true,
        }
    }

    /// Dequeues the oldest element, or says why there is none.
    pub fn try_dequeue(&mut self) -> (r: Result<T, DequeueError>)
        ensures
            final(self).empty_run() == (if r matches Err(DequeueError::Empty) {
                old(self).empty_run() + 1
            } else {
                0
            }),
            final(self).last_closed() == (r matches Err(DequeueError::Closed)),
            final(self).tries() == old(self).tries() + 1,
    {
        let r = match acquire(&*self.shared) {
            Some(mut g) => slot_try_dequeue(guarded(&mut g)),
            None => Err(DequeueError::Closed),
        };
        self.empty_answers = Ghost(
            if r matches Err(DequeueError::Empty) {
                self.empty_answers@ + 1
            } else {
                0
            },
        );
        self.closed_answer = Ghost(r matches Err(DequeueError::Closed));
        self.calls = Ghost(self.calls@ + 1);
        r
    }

    /// Retries `try_dequeue` while the queue is empty: `Some` with the
    /// element it got, `None` once `try_dequeue` answers `Closed` (closed and
    /// drained), or once it has answered `Empty` `u64::MAX + 1` times in a
    /// row. An `Empty` answer alone never ends it.
    pub fn dequeue(&mut self) -> (r: Option<T>)
        ensures
            final(self).tries() > old(self).tries(),
            r is Some ==> final(self).empty_run() == 0 && !final(self).last_closed(),
            r is None ==> final(self).last_closed() || final(self).empty_run() == old(self).empty_run()
                + u64::MAX + 1,
    {
        let mut attempts: u64 = 0;
        loop
            invariant
                self.empty_run() == old(self).empty_run() + attempts,
                self.tries() == old(self).tries() + attempts,
            decreases u64::MAX - attempts,
        {
            match self.try_dequeue() {
                Ok(d) => return Some(d),
                Err(DequeueError::Closed) => return None,
                Err(DequeueError::Empty) => {
                    if attempts == u64::MAX {
                        return None;
                    }
                    attempts = attempts + 1;
                },
            }
        }
    }
}

impl<T> Drop for UnboundedReceiver<T> {
    fn drop(&mut self)
        opens_invariants none
        no_unwind
    {
        if let Some(mut g) = acquire(&*self.shared) {
            let slot = guarded(&mut g);
            match slot.take() {
                Some(mut q) => {
                    q.close_receiver();
                    slot.put(q);
                },
                None => {},
            }
        }
    }
}

/// Creates an empty unbounded queue and returns its (receiver, sender).
pub fn queue<T>() -> (r: (UnboundedReceiver<T>, UnboundedSender<T>))
    ensures
        r.0.empty_run() == 0,
        !r.0.last_closed(),
{
    let shared = Arc::new(new_lock(Checked::new(Unbounded::new(BUFFER_SIZE))));
    (
        UnboundedReceiver { shared: shared.clone(), empty_answers: Ghost(0), closed_answer: Ghost(false), calls: Ghost(0) },
        UnboundedSender { shared },
    )
}

} // verus!
