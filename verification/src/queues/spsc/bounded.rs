//! A bounded single-producer single-consumer queue.
//!
//! The queue is a ring of slots: the producer writes into the slot at `head`
//! as long as that slot is empty, the consumer reads the slot at `tail` as
//! long as that slot is set. A set slot at `head` means the ring is full, an
//! empty slot at `tail` means it is empty.
//!
//! ```
//! use nolock::queues::spsc::bounded;
//!
//! let (mut rx, mut tx) = bounded::queue(5);
//! tx.try_enqueue(13).unwrap();
//! assert_eq!(Ok(13), rx.try_dequeue());
//! ```

use std::sync::{Arc, Mutex};
use vstd::prelude::*;

use crate::queues::{DequeueError, EnqueueError};
use crate::shared::{Checked, Core, acquire, guarded, new_lock};

pub mod node;
pub use node::Node;

verus! {

/// The position `k` slots after `start` in a ring of `cap` slots, for
/// `start < cap` and `k <= cap`.
pub open spec fn slot(start: int, k: int, cap: int) -> int {
    if start + k < cap {
        start + k
    } else {
        start + k - cap
    }
}

/// The index after `current` in a buffer of `length` slots, wrapping around
/// to 0 at the end.
pub fn next_element(current: usize, length: usize) -> (r: usize)
    requires
        current < length,
    ensures
        r == slot(current as int, 1, length as int),
        r == (current + 1) % (length as int),
        r < length,
{
    let target = current + 1;
    if target >= length {
        assert(0int == (current + 1) % (length as int)) by {
            vstd::arithmetic::div_mod::lemma_mod_self_0(length as int);
        }
        0
    } else {
        assert(target as int == (current + 1) % (length as int)) by {
            vstd::arithmetic::div_mod::lemma_small_mod(target as nat, length as nat);
        }
        target
    }
}

/// The shared state of a bounded queue: a ring of slots with the producer's
/// write position `head` and the consumer's read position `tail`.
pub struct Ring<T> {
    buffer: Vec<Node<T>>,
    head: usize,
    tail: usize,
    len: Ghost<nat>,
    closed: bool,
}

impl<T> Core for Ring<T> {
    open spec fn wf(&self) -> bool {
        self.well_formed()
    }
}

impl<T> Ring<T> {
    /// The slots from `tail` on are set for exactly `len` positions, and
    /// `head` is the position right after them.
    pub closed spec fn well_formed(&self) -> bool {
        let cap = self.buffer.len() as int;
        &&& cap > 0
        &&& self.head < cap
        &&& self.tail < cap
        &&& self.len@ <= cap
        &&& self.head == slot(self.tail as int, self.len@ as int, cap)
        &&& forall|k: int|
            0 <= k < cap ==> ((#[trigger] self.buffer@[slot(self.tail as int, k, cap)])@ is Some
                <==> k < self.len@)
    }

    /// The elements in the ring, oldest first.
    pub closed spec fn view(&self) -> Seq<T> {
        Seq::new(
            self.len@,
            |i: int| self.buffer@[slot(self.tail as int, i, self.buffer.len() as int)]@->0,
        )
    }

    /// The number of slots.
    pub closed spec fn capacity(&self) -> nat {
        self.buffer.len() as nat
    }

    /// Whether one side of the queue has closed it.
    pub closed spec fn closed(&self) -> bool {
        self.closed
    }

    /// A bounded queue never holds more elements than its capacity.
    pub proof fn law_within_capacity(&self)
        requires
            self.well_formed(),
        ensures
            self.view().len() <= self.capacity(),
    {
    }

    /// A ring of `capacity` empty slots, open on both sides.
    pub fn new(capacity: usize) -> (r: Self)
        requires
            capacity > 0,
        ensures
            r.well_formed(),
            r.view() == Seq::<T>::empty(),
            r.capacity() == capacity,
            !r.closed(),
    {
        let mut buffer: Vec<Node<T>> = Vec::with_capacity(capacity);
        let mut i: usize = 0;
        while i < capacity
            invariant
                i <= capacity,
                buffer.len() == i,
                forall|j: int| 0 <= j < i ==> (#[trigger] buffer@[j])@ is None,
            decreases capacity - i,
        {
            buffer.push(Node::new());
            i = i + 1;
        }
        let r = Ring { buffer, head: 0, tail: 0, len: Ghost(0), closed: false };
        assert(r.view() =~= Seq::<T>::empty());
        r
    }

    /// Appends `data` unless the queue is closed or every slot is set.
    pub fn try_enqueue(&mut self, data: T) -> (r: Result<(), (T, EnqueueError)>)
        requires
            old(self).well_formed(),
        ensures
            final(self).well_formed(),
            final(self).capacity() == old(self).capacity(),
            final(self).closed() == old(self).closed(),
            match r {
                Ok(()) => {
                    &&& !old(self).closed()
                    &&& old(self).view().len() < old(self).capacity()
                    &&& crate::queues::appended(old(self).view(), final(self).view(), data)
                },
                Err((d, e)) => {
                    &&& d == data
                    &&& final(self).view() == old(self).view()
                    &&& (e == EnqueueError::Closed <==> old(self).closed())
                    &&& (e == EnqueueError::Full <==> (!old(self).closed() && old(self).view().len()
                        == old(self).capacity()))
                },
            },
    {
        if self.closed {
            return Err((data, EnqueueError::Closed));
        }
        let cap = self.buffer.len();
        let head = self.head;
        if self.buffer[head].is_set() {
            proof {
                if self.len@ < cap {
                    assert(self.buffer@[slot(self.tail as int, self.len@ as int, cap as int)]@ is None);
                }
            }
            return Err((data, EnqueueError::Full));
        }
        proof {
            if self.len@ == cap {
                assert(self.buffer@[slot(self.tail as int, 0, cap as int)]@ is Some);
            }
        }
        let ghost old_view = self.view();
        let ghost old_buf = self.buffer@;
        let ghost len = self.len@;
        self.buffer[head].store(data);
        self.head = next_element(head, cap);
        self.len = Ghost((len + 1) as nat);
        proof {
            let t = self.tail as int;
            assert forall|k: int| 0 <= k < cap implies ((#[trigger] self.buffer@[slot(t, k, cap as int)])@ is Some
                <==> k < self.len@) by {
                if k != len {
                    assert(old_buf[slot(t, k, cap as int)] == self.buffer@[slot(t, k, cap as int)]);
                }
            }
            assert forall|i: int| 0 <= i < len implies self.view()[i] == old_view[i] by {
                assert(old_buf[slot(t, i, cap as int)] == self.buffer@[slot(t, i, cap as int)]);
            }
            assert(self.view() =~= old_view.push(data));
        }
        Ok(())
    }

    /// Removes and returns the oldest element, if there is one.
    pub fn try_dequeue(&mut self) -> (r: Result<T, DequeueError>)
        requires
            old(self).well_formed(),
        ensures
            final(self).well_formed(),
            final(self).capacity() == old(self).capacity(),
            final(self).closed() == old(self).closed(),
            match r {
                Ok(d) => {
                    &&& crate::queues::removed_first(old(self).view(), final(self).view(), d)
                },
                Err(e) => {
                    &&& old(self).view().len() == 0
                    &&& final(self).view() == old(self).view()
                    &&& (e == DequeueError::Closed <==> old(self).closed())
                },
            },
    {
        let cap = self.buffer.len();
        let tail = self.tail;
        proof {
            assert(self.buffer@[slot(tail as int, 0, cap as int)]@ is Some <==> 0 < self.len@);
        }
        if !self.buffer[tail].is_set() {
            if self.closed {
                return Err(DequeueError::Closed);
            }
            return Err(DequeueError::Empty);
        }
        let ghost old_view = self.view();
        let ghost old_buf = self.buffer@;
        let ghost len = self.len@;
        let data = self.buffer[tail].load();
        self.tail = next_element(tail, cap);
        self.len = Ghost((len - 1) as nat);
        proof {
            let t = tail as int;
            let t2 = self.tail as int;
            assert forall|k: int| 0 <= k < cap implies ((#[trigger] self.buffer@[slot(t2, k, cap as int)])@ is Some
                <==> k < self.len@) by {
                if k + 1 < cap {
                    assert(slot(t2, k, cap as int) == slot(t, k + 1, cap as int));
                    assert(old_buf[slot(t, k + 1, cap as int)] == self.buffer@[slot(t2, k, cap as int)]);
                } else {
                    assert(slot(t2, k, cap as int) == t);
                }
            }
            assert forall|i: int| 0 <= i < len - 1 implies self.view()[i] == old_view[i + 1] by {
                assert(slot(t2, i, cap as int) == slot(t, i + 1, cap as int));
                assert(old_buf[slot(t, i + 1, cap as int)] == self.buffer@[slot(t2, i, cap as int)]);
            }
            assert(self.view() =~= old_view.drop_first());
        }
        Ok(data)
    }

    /// Whether every slot is set.
    pub fn is_full(&self) -> (b: bool)
        requires
            self.well_formed(),
        ensures
            b == (self.view().len() == self.capacity()),
    {
        proof {
            let cap = self.buffer.len() as int;
            if self.len@ < cap {
                assert(self.buffer@[slot(self.tail as int, self.len@ as int, cap)]@ is None);
            } else {
                assert(self.buffer@[slot(self.tail as int, 0, cap)]@ is Some);
            }
        }
        self.buffer[self.head].is_set()
    }

    /// Whether no slot is set.
    pub fn is_empty(&self) -> (b: bool)
        requires
            self.well_formed(),
        ensures
            b == (self.view().len() == 0),
    {
        proof {
            assert(self.buffer@[slot(self.tail as int, 0, self.buffer.len() as int)]@ is Some
                <==> 0 < self.len@);
        }
        !self.buffer[self.tail].is_set()
    }

    /// Whether one side has closed the queue.
    pub fn is_closed(&self) -> (b: bool)
        ensures
            b == self.closed(),
    {
        self.closed
    }

    /// Marks the queue as closed; the elements stay.
    pub fn close(&mut self)
        requires
            old(self).well_formed(),
        ensures
            final(self).well_formed(),
            final(self).closed(),
            final(self).view() == old(self).view(),
            final(self).capacity() == old(self).capacity(),
        opens_invariants none
        no_unwind
    {
        self.closed = true;
    }
}

/// What a handle's `is_full` reads off the shared slot: whether its ring
/// holds as many elements as it has slots; a slot without a ring (an
/// operation was cut short) answers `true`.
fn slot_is_full<T>(slot: &mut Checked<Ring<T>>) -> (b: bool)
    ensures
        final(slot).core == old(slot).core,
        b == match old(slot).core {
            Some(r) => r.view().len() == r.capacity(),
            None => true,
        },
{
    match slot.take() {
        Some(ring) => {
            let b = ring.is_full();
            slot.put(ring);
            b
        },
        None => true,
    }
}

/// What a handle's `is_empty` reads off the shared slot: whether its ring
/// holds no element; a slot without a ring answers `true`.
fn slot_is_empty<T>(slot: &mut Checked<Ring<T>>) -> (b: bool)
    ensures
        final(slot).core == old(slot).core,
        b == match old(slot).core {
            Some(r) => r.view().len() == 0,
            None => true,
        },
{
    match slot.take() {
        Some(ring) => {
            let b = ring.is_empty();
            slot.put(ring);
            b
        },
        None => true,
    }
}

/// What a handle's `is_closed` reads off the shared slot: whether its ring
/// is closed; a slot without a ring answers `true`.
fn slot_is_closed<T>(slot: &mut Checked<Ring<T>>) -> (b: bool)
    ensures
        final(slot).core == old(slot).core,
        b == match old(slot).core {
            Some(r) => r.closed(),
            None => true,
        },
{
    match slot.take() {
        Some(ring) => {
            let b = ring.is_closed();
            slot.put(ring);
            b
        },
        None => true,
    }
}

/// A sender's `try_enqueue` on the shared slot: the ring's `try_enqueue`; a
/// slot without a ring answers `Closed` and hands the data back.
fn slot_try_enqueue<T>(slot: &mut Checked<Ring<T>>, data: T) -> (r: Result<(), (T, EnqueueError)>)
    ensures
        old(slot).core is None ==> final(slot).core is None && r == Err::<(), (T, EnqueueError)>(
            (data, EnqueueError::Closed),
        ),
        old(slot).core matches Some(ring) ==> final(slot).core matches Some(ring2) && ring2.capacity()
            == ring.capacity() && ring2.closed() == ring.closed() && match r {
            Ok(()) => {
                &&& !ring.closed()
                &&& ring.view().len() < ring.capacity()
                &&& crate::queues::appended(ring.view(), ring2.view(), data)
            },
            Err((d, e)) => {
                &&& d == data
                &&& ring2.view() == ring.view()
                &&& (e == EnqueueError::Closed <==> ring.closed())
                &&& (e == EnqueueError::Full <==> (!ring.closed() && ring.view().len() == ring.capacity()))
            },
        },
{
    match slot.take() {
        Some(mut ring) => {
            let r = ring.try_enqueue(data);
            slot.put(ring);
            r
        },
        None => Err((data, EnqueueError::Closed)),
    }
}

/// A receiver's `try_dequeue` on the shared slot: the ring's `try_dequeue`;
/// a slot without a ring answers `Closed`.
fn slot_try_dequeue<T>(slot: &mut Checked<Ring<T>>) -> (r: Result<T, DequeueError>)
    ensures
        old(slot).core is None ==> final(slot).core is None && r == Err::<T, DequeueError>(DequeueError::Closed),
        old(slot).core matches Some(ring) ==> final(slot).core matches Some(ring2) && ring2.capacity()
            == ring.capacity() && ring2.closed() == ring.closed() && match r {
            Ok(d) => crate::queues::removed_first(ring.view(), ring2.view(), d),
            Err(e) => {
                &&& ring.view().len() == 0
                &&& ring2.view() == ring.view()
                &&& (e == DequeueError::Closed <==> ring.closed())
            },
        },
{
    match slot.take() {
        Some(mut ring) => {
            let r = ring.try_dequeue();
            slot.put(ring);
            r
        },
        None => Err(DequeueError::Closed),
    }
}

/// The sending half of a bounded queue.
#[verifier::reject_recursive_types(T)]
pub struct BoundedSender<T> {
    shared: Arc<Mutex<Checked<Ring<T>>>>,
    slots: Ghost<nat>,
    full_answers: Ghost<nat>,
    closed_answer: Ghost<bool>,
    calls: Ghost<nat>,
}

/// The receiving half of a bounded queue.
#[verifier::reject_recursive_types(T)]
pub struct BoundedReceiver<T> {
    shared: Arc<Mutex<Checked<Ring<T>>>>,
    slots: Ghost<nat>,
    empty_answers: Ghost<nat>,
    closed_answer: Ghost<bool>,
    calls: Ghost<nat>,
}

impl<T> BoundedSender<T> {
    /// The number of slots of the ring the handle was made over.
    pub closed spec fn capacity(&self) -> nat {
        self.slots@
    }

    /// How many `Full` answers in a row `try_enqueue` has given on this
    /// handle, up to now.
    pub closed spec fn full_run(&self) -> nat {
        self.full_answers@
    }

    /// Whether the last answer of `try_enqueue` on this handle was `Closed`.
    pub closed spec fn last_closed(&self) -> bool {
        self.closed_answer@
    }

    /// How many times `try_enqueue` has been called on this handle.
    pub closed spec fn tries(&self) -> nat {
        self.calls@
    }

    /// Whether the queue has been closed by the receiver.
    pub fn is_closed(&self) -> bool {
        match acquire(&*self.shared) {
            Some(mut g) => slot_is_closed(guarded(&mut g)),
            None => true,
        }
    }

    /// Enqueues `data` unless the queue is full or closed; on failure the
    /// data is handed back with the reason.
    pub fn try_enqueue(&mut self, data: T) -> (r: Result<(), (T, EnqueueError)>)
        ensures
            r matches Err((d, _)) ==> d == data,
            final(self).capacity() == old(self).capacity(),
            final(self).full_run() == (if r matches Err((_, EnqueueError::Full)) {
                old(self).full_run() + 1
            } else {
                0
            }),
            final(self).last_closed() == (r matches Err((_, EnqueueError::Closed))),
            final(self).tries() == old(self).tries() + 1,
    {
        let r = match acquire(&*self.shared) {
            Some(mut g) => slot_try_enqueue(guarded(&mut g), data),
            None => Err((data, EnqueueError::Closed)),
        };
        self.full_answers = Ghost(
            if r matches Err((_, EnqueueError::Full)) {
                self.full_answers@ + 1
            } else {
                0
            },
        );
        self.closed_answer = Ghost(r matches Err((_, EnqueueError::Closed)));
        self.calls = Ghost(self.calls@ + 1);
        r
    }

    /// Retries `try_enqueue` while the queue is full: it returns on success,
    /// on `Closed`, and with `Full` only once `try_enqueue` has answered
    /// `Full` `u64::MAX + 1` times in a row.
    pub fn enqueue(&mut self, data: T) -> (r: Result<(), (T, EnqueueError)>)
        ensures
            r matches Err((d, _)) ==> d == data,
            final(self).capacity() == old(self).capacity(),
            final(self).tries() > old(self).tries(),
            r is Ok ==> final(self).full_run() == 0 && !final(self).last_closed(),
            r matches Err((_, EnqueueError::Closed)) ==> final(self).full_run() == 0 && final(self).last_closed(),
            r matches Err((_, EnqueueError::Full)) ==> final(self).full_run() == old(self).full_run() + u64::MAX
                + 1,
    {
        let mut item = data;
        let mut attempts: u64 = 0;
        loop
            invariant
                item == data,
                self.capacity() == old(self).capacity(),
                self.full_run() == old(self).full_run() + attempts,
                self.tries() == old(self).tries() + attempts,
            decreases u64::MAX - attempts,
        {
            let r = self.try_enqueue(item);
            match r {
                Ok(()) => return Ok(()),
                Err((d, EnqueueError::Closed)) => return Err((d, EnqueueError::Closed)),
                Err((d, EnqueueError::Full)) => {
                    if attempts == u64::MAX {
                        return Err((d, EnqueueError::Full));
                    }
                    item = d;
                    attempts = attempts + 1;
                },
            }
        }
    }

    /// Whether the queue currently holds as many elements as it has slots.
    pub fn is_full(&self) -> bool {
        match acquire(&*self.shared) {
            Some(mut g) => slot_is_full(guarded(&mut g)),
            None => true,
        }
    }
}

impl<T> Drop for BoundedSender<T> {
    fn drop(&mut self)
        opens_invariants none
        no_unwind
    {
        close_shared(&*self.shared);
    }
}

/// Marks the shared ring as closed.
fn close_shared<T>(shared: &Mutex<Checked<Ring<T>>>)
    opens_invariants none
    no_unwind
{
    if let Some(mut g) = acquire(shared) {
        let slot = guarded(&mut g);
        match slot.take() {
            Some(mut ring) => {
                ring.close();
                slot.put(ring);
            },
            None => {},
        }
    }
}

impl<T> BoundedReceiver<T> {
    /// The number of slots of the ring the handle was made over.
    pub closed spec fn capacity(&self) -> nat {
        self.slots@
    }

    /// How many `Empty` answers in a row `try_dequeue` has given on this
    /// handle, up to now.
    pub closed spec fn empty_run(&self) -> nat {
        self.empty_answers@
    }

    /// Whether the last answer of `try_dequeue` on this handle was `Closed`.
    pub closed spec fn last_closed(&self) -> bool {
        self.closed_answer@
    }

    /// How many times `try_dequeue` has been called on this handle.
    pub closed spec fn tries(&self) -> nat {
        self.calls@
    }

    /// Whether the queue has been closed by the sender. Elements may still
    /// be waiting in it.
    pub fn is_closed(&self) -> bool {
        match acquire(&*self.shared) {
            Some(mut g) => slot_is_closed(guarded(&mut g)),
            None => true,
        }
    }

    /// Dequeues the oldest element, or says why there is none.
    pub fn try_dequeue(&mut self) -> (r: Result<T, DequeueError>)
        ensures
            final(self).capacity() == old(self).capacity(),
            final(self).empty_run() == (if r matches Err(DequeueError::Empty) {
                old(self).empty_run() + 1
            } else {
                0
            }),
            final(self).last_closed() == (r matches Err(DequeueError::Closed)),
            final(self).tries() == old(self).tries() + 1,
    {
        let r = match acquire(&*self.shared) {
            Some(mut g) => slot_try_dequeue(guarded(&mut g)),
            None => Err(DequeueError::Closed),
        };
        self.empty_answers = Ghost(
            if r matches Err(DequeueError::Empty) {
                self.empty_answers@ + 1
            } else {
                0
            },
        );
        self.closed_answer = Ghost(r matches Err(DequeueError::Closed));
        self.calls = Ghost(self.calls@ + 1);
        r
    }

    /// Retries `try_dequeue` while the queue is empty: `Some` with the
    /// element it got, `None` once `try_dequeue` answers `Closed` (closed and
    /// drained), or once it has answered `Empty` `u64::MAX + 1` times in a
    /// row. An `Empty` answer alone never ends it.
    pub fn dequeue(&mut self) -> (r: Option<T>)
        ensures
            final(self).capacity() == old(self).capacity(),
            final(self).tries() > old(self).tries(),
            r is Some ==> final(self).empty_run() == 0 && !final(self).last_closed(),
            r is None ==> final(self).last_closed() || final(self).empty_run() == old(self).empty_run()
                + u64::MAX + 1,
    {
        let mut attempts: u64 = 0;
        loop
            invariant
                self.capacity() == old(self).capacity(),
                self.empty_run() == old(self).empty_run() + attempts,
                self.tries() == old(self).tries() + attempts,
            decreases u64::MAX - attempts,
        {
            match self.try_dequeue() {
                Ok(d) => return Some(d),
                Err(DequeueError::Closed) => return None,
                Err(DequeueError::Empty) => {
                    if attempts == u64::MAX {
                        return None;
                    }
                    attempts = attempts + 1;
                },
            }
        }
    }

    /// Whether the queue currently holds no element.
    pub fn is_empty(&self) -> bool {
        match acquire(&*self.shared) {
            Some(mut g) => slot_is_empty(guarded(&mut g)),
            None => true,
        }
    }
}

impl<T> Drop for BoundedReceiver<T> {
    fn drop(&mut self)
        opens_invariants none
        no_unwind
    {
        close_shared(&*self.shared);
    }
}

/// Creates a bounded queue with room for `capacity` elements and returns its
/// (receiver, sender) halves, made over one empty, open ring of `capacity`
/// slots.
pub fn queue<T>(capacity: usize) -> (r: (BoundedReceiver<T>, BoundedSender<T>))
    requires
        capacity > 0,
    ensures
        r.0.capacity() == capacity,
        r.1.capacity() == capacity,
        r.0.empty_run() == 0,
        !r.0.last_closed(),
        r.1.full_run() == 0,
        !r.1.last_closed(),
{
    let ring = Ring::new(capacity);
    let ghost slots = ring.capacity();
    let shared = Arc::new(new_lock(Checked::new(ring)));
    (
        BoundedReceiver {
            shared: shared.clone(),
            slots: Ghost(slots),
            empty_answers: Ghost(0),
            closed_answer: Ghost(false),
            calls: Ghost(0),
        },
        BoundedSender {
            shared,
            slots: Ghost(slots),
            full_answers: Ghost(0),
            closed_answer: Ghost(false),
            calls: Ghost(0),
        },
    )
}

} // verus!
