//! An unbounded multi-producer multi-consumer queue: a list of bounded
//! segments. Producers enqueue into the last segment and append a new one
//! once it refuses an element; consumers dequeue from the first segment and
//! drop it once it is empty and a later segment exists.
//!
//! ```
//! use nolock::queues::mpmc::unbounded;
//!
//! let (rx, tx) = unbounded::queue::<u64>();
//! assert_eq!(Ok(()), tx.enqueue(13));
//! assert_eq!(Ok(13), rx.try_dequeue());
//! ```

use std::sync::{Arc, Mutex};
use vstd::prelude::*;

use crate::queues::DequeueError;
use crate::shared::{Checked, Core, acquire, guarded, new_lock};

pub mod queue;
use queue::{new_queue, BoundedQueue};
use super::queue::scq::scq_position_limit;

verus! {

/// The number of slots of every segment.
pub const BUFFER_SIZE: usize = 128;

/// The elements of a sequence of segments, segment after segment.
pub open spec fn flatten<T>(segments: Seq<BoundedQueue<T>>) -> Seq<T>
    decreases segments.len(),
{
    if segments.len() == 0 {
        Seq::empty()
    } else {
        segments[0].view() + flatten(segments.drop_first())
    }
}

/// Appending a segment appends its elements.
pub proof fn lemma_flatten_push<T>(segments: Seq<BoundedQueue<T>>, q: BoundedQueue<T>)
    ensures
        flatten(segments.push(q)) == flatten(segments) + q.view(),
    decreases segments.len(),
{
    if segments.len() == 0 {
        assert(segments.push(q).drop_first() =~= Seq::<BoundedQueue<T>>::empty());
        assert(segments.push(q)[0] == q);
        assert(flatten(segments.push(q).drop_first()) =~= Seq::<T>::empty());
        assert(flatten(segments.push(q)) =~= q.view());
    } else {
        lemma_flatten_push(segments.drop_first(), q);
        assert(segments.push(q).drop_first() =~= segments.drop_first().push(q));
        assert(flatten(segments.push(q)) =~= flatten(segments) + q.view());
    }
}

/// Replacing the first segment changes only the first segment's part.
pub proof fn lemma_flatten_first<T>(segments: Seq<BoundedQueue<T>>, q: BoundedQueue<T>)
    requires
        segments.len() > 0,
    ensures
        flatten(segments.update(0, q)) == q.view() + flatten(segments.drop_first()),
{
    assert(segments.update(0, q).drop_first() =~= segments.drop_first());
}

/// The shared state of an unbounded queue: its segments, oldest first, and
/// the number of live receivers and senders.
pub struct Lscq<T> {
    segments: Vec<BoundedQueue<T>>,
    rx_count: u64,
    tx_count: u64,
}

impl<T> Lscq<T> {
    /// There is at least one segment; all segments are consistent, have
    /// `BUFFER_SIZE` slots, and all but the last are finalized.
    pub closed spec fn well_formed(&self) -> bool {
        let s = self.segments@;
        &&& s.len() >= 1
        &&& forall|k: int| 0 <= k < s.len() ==> (#[trigger] s[k]).well_formed() && s[k].capacity() == BUFFER_SIZE
        &&& forall|k: int| 0 <= k < s.len() - 1 ==> (#[trigger] s[k]).finalized()
        &&& forall|k: int|
            0 <= k < s.len() ==> (#[trigger] s[k]).position_limit() == scq_position_limit(BUFFER_SIZE as nat)
    }

    /// Whether the index counters of every segment are at most `b`.
    pub closed spec fn positions_within(&self, b: nat) -> bool {
        forall|k: int| 0 <= k < self.segments@.len() ==> (#[trigger] self.segments@[k]).position() <= b
    }

    /// While the counters of every segment stay below the segments' position
    /// limit, the queue is not stuck.
    pub proof fn law_not_stuck_below_limit(&self, b: nat)
        requires
            self.well_formed(),
            self.positions_within(b),
            b < scq_position_limit(BUFFER_SIZE as nat),
        ensures
            !self.stuck(),
    {
        self.segments@[0].law_room_below_limit();
    }

    /// The queued elements, oldest first.
    pub closed spec fn view(&self) -> Seq<T> {
        flatten(self.segments@)
    }

    /// The number of live senders.
    pub closed spec fn senders(&self) -> nat {
        self.tx_count as nat
    }

    /// The number of live receivers.
    pub closed spec fn receivers(&self) -> nat {
        self.rx_count as nat
    }

    /// Whether every receiver is gone.
    pub closed spec fn receivers_gone(&self) -> bool {
        self.rx_count == 0
    }

    /// Whether every sender is gone.
    pub closed spec fn senders_gone(&self) -> bool {
        self.tx_count == 0
    }

    /// Whether the first segment holds elements that its exhausted index
    /// counters no longer let out.
    pub closed spec fn stuck(&self) -> bool {
        self.segments@[0].view().len() > 0 && !self.segments@[0].has_room()
    }

    /// The segment that dequeues read from.
    pub closed spec fn first_segment(&self) -> BoundedQueue<T> {
        self.segments@[0]
    }

    /// The queue is stuck only once the index counters of its first segment
    /// have reached their limit.
    pub proof fn law_stuck_only_at_limit(&self)
        requires
            self.well_formed(),
            self.stuck(),
        ensures
            self.first_segment().position() >= self.first_segment().position_limit(),
    {
        if self.segments@[0].position() < self.segments@[0].position_limit() {
            self.segments@[0].law_room_below_limit();
        }
    }

    /// An empty queue with one receiver and one sender.
    pub fn new() -> (q: Self)
        ensures
            q.well_formed(),
            q.view() == Seq::<T>::empty(),
            q.receivers() == 1,
            q.senders() == 1,
            !q.receivers_gone(),
            !q.senders_gone(),
            q.first_segment().position() <= 4 * BUFFER_SIZE,
            q.first_segment().position_limit() == scq_position_limit(BUFFER_SIZE as nat),
            q.positions_within(4 * BUFFER_SIZE as nat),
    {
        let mut segments: Vec<BoundedQueue<T>> = Vec::new();
        segments.push(new_queue(BUFFER_SIZE));
        let q = Lscq { segments, rx_count: 1, tx_count: 1 };
        proof {
            assert(q.segments@.drop_first() =~= Seq::<BoundedQueue<T>>::empty());
            assert(flatten(q.segments@.drop_first()) =~= Seq::<T>::empty());
            assert(flatten(q.segments@) == q.segments@[0].view() + flatten(q.segments@.drop_first()));
            assert(q.view() =~= Seq::<T>::empty());
        }
        q
    }

    /// Enqueues `data` unless every receiver is gone; when the last segment
    /// refuses it, a new segment is appended for it.
    pub fn enqueue(&mut self, data: T) -> (r: Result<(), T>)
        requires
            old(self).well_formed(),
        ensures
            final(self).well_formed(),
            final(self).receivers_gone() == old(self).receivers_gone(),
            final(self).senders_gone() == old(self).senders_gone(),
            final(self).receivers() == old(self).receivers(),
            final(self).senders() == old(self).senders(),
            forall|b: nat|
                #[trigger] old(self).positions_within(b) && 4 * BUFFER_SIZE <= b ==> final(self).positions_within(
                    b + 2,
                ),
            match r {
                Ok(()) => !old(self).receivers_gone() && crate::queues::appended(old(self).view(), final(self).view(), data),
                Err(d) => old(self).receivers_gone() && d == data && final(self).view() == old(self).view(),
            },
    {
        if self.rx_count == 0 {
            return Err(data);
        }
        let ghost s0 = self.segments@;
        let last = self.segments.len() - 1;
        proof {
            lemma_flatten_split(s0);
        }
        match self.segments[last].try_enqueue(data) {
            Ok(()) => {
                proof {
                    lemma_flatten_split(self.segments@);
                    assert(self.segments@.drop_last() =~= s0.drop_last());
                    assert forall|k: int| 0 <= k < self.segments@.len() - 1 implies (#[trigger] self.segments@[k]).finalized() by {
                        assert(self.segments@[k] == s0[k]);
                    }
                    assert(self.view() =~= flatten(s0).push(data));
                }
                Ok(())
            },
            Err((_, d)) => {
                let mut fresh = new_queue(BUFFER_SIZE);
                let r = fresh.try_enqueue(d);
                assert(r is Ok);
                let ghost s1 = self.segments@;
                self.segments.push(fresh);
                proof {
                    lemma_flatten_split(s1);
                    assert(s1.drop_last() =~= s0.drop_last());
                    lemma_flatten_push(s1, fresh);
                    assert(fresh.view() =~= seq![data]);
                    assert(self.segments@ =~= s1.push(fresh));
                    assert forall|k: int| 0 <= k < self.segments@.len() - 1 implies (#[trigger] self.segments@[k]).finalized() by {
                        if k < s1.len() - 1 {
                            assert(self.segments@[k] == s0[k]);
                        }
                    }
                    assert(self.view() =~= flatten(s0).push(data));
                }
                Ok(())
            },
        }
    }

    /// Dequeues the oldest element; `Closed` once every sender is gone
    /// (whatever is left), `Empty` when nothing can be dequeued.
    pub fn try_dequeue(&mut self) -> (r: Result<T, DequeueError>)
        requires
            old(self).well_formed(),
        ensures
            final(self).well_formed(),
            final(self).receivers_gone() == old(self).receivers_gone(),
            final(self).senders_gone() == old(self).senders_gone(),
            final(self).receivers() == old(self).receivers(),
            final(self).senders() == old(self).senders(),
            forall|b: nat| #[trigger] old(self).positions_within(b) ==> final(self).positions_within(b + 2),
            match r {
                Ok(d) => {
                    &&& !old(self).senders_gone()
                    &&& crate::queues::removed_first(old(self).view(), final(self).view(), d)
                },
                Err(e) => {
                    &&& final(self).view() == old(self).view()
                    &&& (e == DequeueError::Closed <==> old(self).senders_gone())
                    &&& (e == DequeueError::Empty ==> old(self).view().len() == 0 || final(self).stuck())
                },
            },
    {
        let ghost v0 = self.view();
        let ghost mut off: int = 0;
        loop
            invariant
                self.well_formed(),
                self.view() == v0,
                v0 == old(self).view(),
                self.rx_count == old(self).rx_count,
                self.tx_count == old(self).tx_count,
                0 <= off,
                off + self.segments@.len() == old(self).segments@.len(),
                forall|k: int|
                    0 <= k < self.segments@.len() ==> #[trigger] self.segments@[k] == old(self).segments@[k + off],
            decreases self.segments.len(),
        {
            if self.tx_count == 0 {
                proof {
                    self.lemma_positions_from(*old(self), off);
                }
                return Err(DequeueError::Closed);
            }
            let ghost s0 = self.segments@;
            match self.segments[0].dequeue() {
                Ok(d) => {
                    proof {
                        lemma_flatten_first(s0, self.segments@[0]);
                        assert(self.segments@ =~= s0.update(0, self.segments@[0]));
                        assert(flatten(s0) == s0[0].view() + flatten(s0.drop_first()));
                        assert forall|k: int| 0 <= k < self.segments@.len() - 1 implies (#[trigger] self.segments@[k]).finalized() by {
                            assert(self.segments@[k].finalized() == s0[k].finalized());
                        }
                        assert(self.view() =~= v0.drop_first());
                        self.lemma_positions_after_first(*old(self), off, s0);
                    }
                    return Ok(d);
                },
                Err(_) => {
                    proof {
                        assert(self.segments@ =~= s0.update(0, self.segments@[0]));
                        lemma_flatten_first(s0, self.segments@[0]);
                        assert(flatten(s0) == s0[0].view() + flatten(s0.drop_first()));
                        assert forall|k: int| 0 <= k < self.segments@.len() - 1 implies (#[trigger] self.segments@[k]).finalized() by {
                            assert(self.segments@[k].finalized() == s0[k].finalized());
                        }
                    }
                    if self.segments.len() == 1 || !self.segments[0].is_empty() {
                        proof {
                            if self.segments.len() == 1 {
                                assert(s0.drop_first() =~= Seq::<BoundedQueue<T>>::empty());
                            }
                            self.lemma_positions_after_first(*old(self), off, s0);
                        }
                        return Err(DequeueError::Empty);
                    }
                    let ghost s1 = self.segments@;
                    let _done = self.segments.remove(0);
                    proof {
                        assert(self.segments@ =~= s1.drop_first());
                        assert(flatten(s1) == s1[0].view() + flatten(s1.drop_first()));
                        assert(s1[0].view() =~= Seq::<T>::empty());
                        assert forall|k: int| 0 <= k < self.segments@.len() implies (#[trigger] self.segments@[k]).well_formed()
                            && self.segments@[k].capacity() == BUFFER_SIZE by {
                            assert(self.segments@[k] == s1[k + 1]);
                        }
                        assert forall|k: int| 0 <= k < self.segments@.len() - 1 implies (#[trigger] self.segments@[k]).finalized() by {
                            assert(self.segments@[k] == s1[k + 1]);
                        }
                        assert(self.view() =~= v0);
                        assert forall|k: int| 0 <= k < self.segments@.len() implies #[trigger] self.segments@[k]
                            == old(self).segments@[k + off + 1] by {
                            assert(self.segments@[k] == s1[k + 1]);
                            assert(s1[k + 1] == s0[k + 1]);
                        }
                        off = off + 1;
                    }
                },
            }
        }
    }

    /// Segments taken unchanged from `o`, from segment `off` on, keep every
    /// bound on the counters that `o`'s segments had.
    proof fn lemma_positions_from(&self, o: Self, off: int)
        requires
            0 <= off,
            off + self.segments@.len() == o.segments@.len(),
            forall|k: int| 0 <= k < self.segments@.len() ==> #[trigger] self.segments@[k] == o.segments@[k + off],
        ensures
            forall|b: nat| #[trigger] o.positions_within(b) ==> self.positions_within(b + 2),
    {
        assert forall|b: nat| #[trigger] o.positions_within(b) implies self.positions_within(b + 2) by {
            assert forall|k: int| 0 <= k < self.segments@.len() implies #[trigger] self.segments@[k].position()
                <= b + 2 by {
                assert(self.segments@[k] == o.segments@[k + off]);
            }
        }
    }

    /// As `lemma_positions_from`, where the first segment of `s0` (taken from
    /// `o`) has since moved its counters by at most two.
    proof fn lemma_positions_after_first(&self, o: Self, off: int, s0: Seq<BoundedQueue<T>>)
        requires
            0 <= off,
            off + s0.len() == o.segments@.len(),
            s0.len() >= 1,
            forall|k: int| 0 <= k < s0.len() ==> #[trigger] s0[k] == o.segments@[k + off],
            self.segments@ == s0.update(0, self.segments@[0]),
            self.segments@[0].position() <= s0[0].position() + 2,
        ensures
            forall|b: nat| #[trigger] o.positions_within(b) ==> self.positions_within(b + 2),
    {
        assert forall|b: nat| #[trigger] o.positions_within(b) implies self.positions_within(b + 2) by {
            assert forall|k: int| 0 <= k < self.segments@.len() implies #[trigger] self.segments@[k].position()
                <= b + 2 by {
                assert(s0[k] == o.segments@[k + off]);
            }
        }
    }

    /// A side is gone exactly when its count of handles is zero.
    pub proof fn law_gone_iff_no_handles(&self)
        ensures
            self.receivers_gone() <==> self.receivers() == 0,
            self.senders_gone() <==> self.senders() == 0,
    {
    }

    /// Whether every sender is gone.
    pub fn is_closed_for_receiver(&self) -> (b: bool)
        ensures
            b == self.senders_gone(),
    {
        self.tx_count == 0
    }

    /// Whether every receiver is gone.
    pub fn is_closed_for_sender(&self) -> (b: bool)
        ensures
            b == self.receivers_gone(),
    {
        self.rx_count == 0
    }

    /// One sender fewer.
    pub fn drop_sender(&mut self)
        requires
            old(self).well_formed(),
        ensures
            final(self).well_formed(),
            final(self).view() == old(self).view(),
            final(self).receivers_gone() == old(self).receivers_gone(),
            final(self).receivers() == old(self).receivers(),
            final(self).senders() == (if old(self).senders() > 0 {
                old(self).senders() - 1
            } else {
                0
            }),
            final(self).senders_gone() <==> final(self).senders() == 0,
        opens_invariants none
        no_unwind
    {
        if self.tx_count > 0 {
            self.tx_count = self.tx_count - 1;
        }
    }

    /// One receiver fewer.
    pub fn drop_receiver(&mut self)
        requires
            old(self).well_formed(),
        ensures
            final(self).well_formed(),
            final(self).view() == old(self).view(),
            final(self).senders_gone() == old(self).senders_gone(),
            final(self).senders() == old(self).senders(),
            final(self).receivers() == (if old(self).receivers() > 0 {
                old(self).receivers() - 1
            } else {
                0
            }),
            final(self).receivers_gone() <==> final(self).receivers() == 0,
        opens_invariants none
        no_unwind
    {
        if self.rx_count > 0 {
            self.rx_count = self.rx_count - 1;
        }
    }
}

/// The elements of the segments are those of all but the last, then those of
/// the last.
pub proof fn lemma_flatten_split<T>(segments: Seq<BoundedQueue<T>>)
    requires
        segments.len() > 0,
    ensures
        flatten(segments) == flatten(segments.drop_last()) + segments.last().view(),
{
    let init = segments.drop_last();
    lemma_flatten_push(init, segments.last());
    assert(init.push(segments.last()) =~= segments);
}

impl<T> Core for Lscq<T> {
    open spec fn wf(&self) -> bool {
        self.well_formed()
    }
}

/// A sender's `enqueue` on the shared slot: the queue's `enqueue`; a slot
/// without a queue hands the data back.
fn slot_enqueue<T>(slot: &mut Checked<Lscq<T>>, data: T) -> (r: Result<(), T>)
    ensures
        old(slot).core is None ==> final(slot).core is None && r == Err::<(), T>(data),
        old(slot).core matches Some(q) ==> final(slot).core matches Some(q2) && q2.receivers() == q.receivers()
            && q2.senders() == q.senders() && q2.receivers_gone() == q.receivers_gone() && q2.senders_gone()
            == q.senders_gone() && match r {
            Ok(()) => !q.receivers_gone() && crate::queues::appended(q.view(), q2.view(), data),
            Err(d) => q.receivers_gone() && d == data && q2.view() == q.view(),
        },
{
    match slot.take() {
        Some(mut q) => {
            let r = q.enqueue(data);
            slot.put(q);
            r
        },
        None => Err(data),
    }
}

/// A receiver's `try_dequeue` on the shared slot: the queue's
/// `try_dequeue`; a slot without a queue answers `Closed`.
fn slot_try_dequeue<T>(slot: &mut Checked<Lscq<T>>) -> (r: Result<T, DequeueError>)
    ensures
        old(slot).core is None ==> final(slot).core is None && r == Err::<T, DequeueError>(DequeueError::Closed),
        old(slot).core matches Some(q) ==> final(slot).core matches Some(q2) && q2.receivers() == q.receivers()
            && q2.senders() == q.senders() && q2.receivers_gone() == q.receivers_gone() && q2.senders_gone()
            == q.senders_gone() && match r {
            Ok(d) => !q.senders_gone() && crate::queues::removed_first(q.view(), q2.view(), d),
            Err(e) => {
                &&& q2.view() == q.view()
                &&& (e == DequeueError::Closed <==> q.senders_gone())
                &&& (e == DequeueError::Empty ==> q.view().len() == 0 || q2.stuck())
            },
        },
{
    match slot.take() {
        Some(mut q) => {
            let r = q.try_dequeue();
            slot.put(q);
            r
        },
        None => Err(DequeueError::Closed),
    }
}

/// What a sender's `is_closed` reads off the shared slot: whether every
/// receiver is gone; a slot without a queue answers `true`.
fn slot_closed_for_sender<T>(slot: &mut Checked<Lscq<T>>) -> (b: bool)
    ensures
        final(slot).core == old(slot).core,
        b == match old(slot).core {
            Some(q) => q.receivers_gone(),
            None => true,
        },
{
    match slot.take() {
        Some(q) => {
            let b = q.is_closed_for_sender();
            slot.put(q);
            b
        },
        None => true,
    }
}

/// What a receiver's `is_closed` reads off the shared slot: whether every
/// sender is gone; a slot without a queue answers `true`.
fn slot_closed_for_receiver<T>(slot: &mut Checked<Lscq<T>>) -> (b: bool)
    ensures
        final(slot).core == old(slot).core,
        b == match old(slot).core {
            Some(q) => q.senders_gone(),
            None => true,
        },
{
    match slot.take() {
        Some(q) => {
            let b = q.is_closed_for_receiver();
            slot.put(q);
            b
        },
        None => true,
    }
}

/// The receiving side of an unbounded queue.
#[verifier::reject_recursive_types(T)]
pub struct Receiver<T> {
    shared: Arc<Mutex<Checked<Lscq<T>>>>,
}

/// The sending side of an unbounded queue.
#[verifier::reject_recursive_types(T)]
pub struct Sender<T> {
    shared: Arc<Mutex<Checked<Lscq<T>>>>,
}

/// Creates an empty unbounded queue and returns its (receiver, sender).
pub fn queue<T>() -> (Receiver<T>, Sender<T>) {
    let shared = Arc::new(new_lock(Checked::new(Lscq::new())));
    (Receiver { shared: shared.clone() }, Sender { shared })
}

impl<T> Sender<T> {
    /// Enqueues `data` unless the receiving side is gone, in which case the
    /// data is handed back.
    pub fn enqueue(&self, data: T) -> (r: Result<(), T>)
        ensures
            r matches Err(d) ==> d == data,
    {
        match acquire(&*self.shared) {
            Some(mut g) => slot_enqueue(guarded(&mut g), data),
            None => Err(data),
        }
    }

    /// Whether the queue has been closed by the receiving side.
    pub fn is_closed(&self) -> bool {
        match acquire(&*self.shared) {
            Some(mut g) => slot_closed_for_sender(guarded(&mut g)),
            None => true,
        }
    }
}

impl<T> Drop for Sender<T> {
    fn drop(&mut self)
        opens_invariants none
        no_unwind
    {
        if let Some(mut g) = acquire(&*self.shared) {
            let slot = guarded(&mut g);
            match slot.take() {
                Some(mut q) => {
                    q.drop_sender();
                    slot.put(q);
                },
                None => {},
            }
        }
    }
}

impl<T> Receiver<T> {
    /// Dequeues the oldest element, or says why there is none.
    pub fn try_dequeue(&self) -> Result<T, DequeueError> {
        match acquire(&*self.shared) {
            Some(mut g) => slot_try_dequeue(guarded(&mut g)),
            None => Err(DequeueError::Closed),
        }
    }

    /// Whether the queue has been closed by the sending side.
    pub fn is_closed(&self) -> bool {
        match acquire(&*self.shared) {
            Some(mut g) => slot_closed_for_receiver(guarded(&mut g)),
            None => true,
        }
    }
}

impl<T> Drop for Receiver<T> {
    fn drop(&mut self)
        opens_invariants none
        no_unwind
    {
        if let Some(mut g) = acquire(&*self.shared) {
            let slot = guarded(&mut g);
            match slot.take() {
                Some(mut q) => {
                    q.drop_receiver();
                    slot.put(q);
                },
                None => {},
            }
        }
    }
}

} // verus!
