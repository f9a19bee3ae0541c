//! A bounded multi-producer multi-consumer queue built from two queues of
//! slot indices: `fq` holds the indices of the free slots, `aq` the indices
//! of the slots that hold data, oldest first. Any queue of indices that meets
//! the [`UnderlyingQueue`] contract can serve as `aq` and `fq`.

use std::sync::{Arc, Mutex};
use vstd::prelude::*;

use crate::shared::{Checked, Core, acquire, guarded, new_lock};

pub mod ncq;
pub mod scq;

verus! {

/// Two positions less than `n` apart that fall into the same slot of a ring of
/// `n` slots are the same position.
pub proof fn lemma_same_slot(p: int, q: int, n: int)
    requires
        0 < n,
        0 <= p <= q < p + n,
        p % n == q % n,
    ensures
        p == q,
{
    vstd::arithmetic::div_mod::lemma_fundamental_div_mod(p, n);
    vstd::arithmetic::div_mod::lemma_fundamental_div_mod(q, n);
    let a = p / n;
    let b = q / n;
    assert(q - p == n * (b - a)) by (nonlinear_arith)
        requires
            p == n * a + p % n,
            q == n * b + q % n,
            p % n == q % n,
    ;
    assert(b - a == 0) by (nonlinear_arith)
        requires
            q - p == n * (b - a),
            0 <= q - p < n,
            0 < n,
    ;
}

/// A position one full turn later falls into the same slot, one cycle on.
pub proof fn lemma_next_turn(p: int, n: int)
    requires
        0 < n,
        0 <= p,
    ensures
        (p + n) % n == p % n,
        (p + n) / n == p / n + 1,
{
    vstd::arithmetic::div_mod::lemma_mod_add_multiples_vanish(p, n);
    vstd::arithmetic::div_mod::lemma_div_plus_one(p, n);
}

/// Positions are ordered by cycle.
pub proof fn lemma_cycle_ordered(p: int, q: int, n: int)
    requires
        0 < n,
        p <= q,
    ensures
        p / n <= q / n,
{
    vstd::arithmetic::div_mod::lemma_div_is_ordered(p, q, n);
}

/// A queue of slot indices, used for the queue of free slots and for the
/// queue of slots that hold data.
pub trait UnderlyingQueue: Sized {
    /// The queue's internal consistency.
    spec fn well_formed(&self) -> bool;

    /// The indices in the queue, oldest first.
    spec fn indices(&self) -> Seq<usize>;

    /// The number of indices the queue can hold.
    spec fn capacity(&self) -> nat;

    /// How far the queue's position counters have advanced.
    spec fn position(&self) -> nat;

    /// Whether the queue's position counters leave room for one more
    /// enqueue and one more dequeue.
    spec fn has_room(&self) -> bool;

    /// The position below which the counters always leave room for one
    /// more operation.
    spec fn position_limit(&self) -> nat;

    /// Below the position limit there is room for one more operation.
    proof fn lemma_room_below_limit(&self)
        requires
            self.well_formed(),
            self.position() < self.position_limit(),
        ensures
            self.has_room(),
    ;

    /// Every index below the capacity fits in 32 bits.
    proof fn lemma_capacity_fits(&self)
        requires
            self.well_formed(),
        ensures
            self.capacity() <= u32::MAX,
    ;

    /// Whether the position counters leave room for one more operation.
    fn room(&self) -> (b: bool)
        requires
            self.well_formed(),
        ensures
            b == self.has_room(),
    ;

    /// Whether the queue holds at least one index.
    fn has_any(&self) -> (b: bool)
        requires
            self.well_formed(),
        ensures
            b == (self.indices().len() > 0),
    ;

    /// Appends `index`, which must fit in 32 bits, to a queue that is not
    /// full.
    fn enqueue(&mut self, index: usize)
        requires
            old(self).well_formed(),
            old(self).has_room(),
            old(self).indices().len() < old(self).capacity(),
            index <= u32::MAX,
        ensures
            final(self).well_formed(),
            final(self).capacity() == old(self).capacity(),
            crate::queues::appended(old(self).indices(), final(self).indices(), index),
            final(self).position() <= old(self).position() + 2,
            final(self).position_limit() == old(self).position_limit(),
    ;

    /// Removes and returns the oldest index, or `None` when there is none.
    fn dequeue(&mut self) -> (r: Option<usize>)
        requires
            old(self).well_formed(),
            old(self).has_room(),
        ensures
            final(self).well_formed(),
            final(self).capacity() == old(self).capacity(),
            final(self).position() <= old(self).position() + 2,
            final(self).position_limit() == old(self).position_limit(),
            match r {
                None => old(self).indices().len() == 0 && final(self).indices() == old(self).indices(),
                Some(i) => {
                    &&& crate::queues::removed_first(old(self).indices(), final(self).indices(), i)
                },
            },
    ;
}

/// `x / d` is at most `k` when `x` is at most `k * d`.
pub proof fn lemma_div_at_most(x: int, k: int, d: int)
    requires
        0 < d,
        0 <= x <= k * d,
    ensures
        x / d <= k,
{
    assert(k * d == d * k) by (nonlinear_arith);
    vstd::arithmetic::div_mod::lemma_div_is_ordered(x, d * k, d);
    vstd::arithmetic::div_mod::lemma_div_multiples_vanish(k, d);
}

/// `x / d` is below `k` when `x` is below `k * d`.
pub proof fn lemma_div_below(x: int, k: int, d: int)
    requires
        0 < d,
        0 <= x < k * d,
    ensures
        x / d < k,
{
    vstd::arithmetic::div_mod::lemma_fundamental_div_mod(x, d);
    let q = x / d;
    assert(q < k) by (nonlinear_arith)
        requires
            x == d * q + x % d,
            0 <= x % d,
            x < k * d,
            0 < d,
    ;
}

/// The data slots of a bounded queue and the two index queues over them.
/// Every slot index is in exactly one of the two queues: in `aq` when the
/// slot holds data, in `fq` when it is free.
pub struct SlotQueue<T, UQ> {
    data: Vec<Option<T>>,
    aq: UQ,
    fq: UQ,
}

impl<T, UQ: UnderlyingQueue> SlotQueue<T, UQ> {
    /// Both index queues are consistent, have one entry per slot between
    /// them, never repeat an index, and agree with which slots hold data.
    pub closed spec fn well_formed(&self) -> bool {
        let n = self.data.len() as int;
        let a = self.aq.indices();
        let f = self.fq.indices();
        &&& self.aq.well_formed()
        &&& self.fq.well_formed()
        &&& self.aq.capacity() == n
        &&& self.fq.capacity() == n
        &&& a.len() + f.len() == n
        &&& forall|k: int| 0 <= k < a.len() ==> #[trigger] a[k] < n
        &&& forall|k: int| 0 <= k < f.len() ==> #[trigger] f[k] < n
        &&& forall|i: int, j: int| 0 <= i < j < a.len() ==> a[i] != a[j]
        &&& forall|i: int, j: int| 0 <= i < j < f.len() ==> f[i] != f[j]
        &&& forall|i: int, j: int| 0 <= i < a.len() && 0 <= j < f.len() ==> a[i] != f[j]
        &&& forall|k: int| 0 <= k < a.len() ==> (#[trigger] self.data@[a[k] as int]) is Some
        &&& forall|k: int| 0 <= k < f.len() ==> (#[trigger] self.data@[f[k] as int]) is None
    }

    /// The queued elements, oldest first.
    pub closed spec fn view(&self) -> Seq<T> {
        Seq::new(self.aq.indices().len(), |k: int| self.data@[self.aq.indices()[k] as int]->0)
    }

    /// The number of slots.
    pub closed spec fn capacity(&self) -> nat {
        self.data.len() as nat
    }

    /// A bounded queue never holds more elements than its capacity.
    pub proof fn law_within_capacity(&self)
        requires
            self.well_formed(),
        ensures
            self.view().len() <= self.capacity(),
    {
    }

    /// Whether both index queues have room for another operation.
    pub closed spec fn has_room(&self) -> bool {
        self.aq.has_room() && self.fq.has_room()
    }

    /// How far the index queues' position counters have advanced: the
    /// further of the two.
    pub closed spec fn position(&self) -> nat {
        if self.aq.position() >= self.fq.position() {
            self.aq.position()
        } else {
            self.fq.position()
        }
    }

    /// The position below which both index queues have room: the nearer
    /// of their two limits.
    pub closed spec fn position_limit(&self) -> nat {
        if self.aq.position_limit() <= self.fq.position_limit() {
            self.aq.position_limit()
        } else {
            self.fq.position_limit()
        }
    }

    /// While the counters stay below the position limit, both index queues
    /// have room for another operation.
    pub proof fn law_room_below_limit(&self)
        requires
            self.well_formed(),
            self.position() < self.position_limit(),
        ensures
            self.has_room(),
    {
        self.aq.lemma_room_below_limit();
        self.fq.lemma_room_below_limit();
    }

    /// The index queues, as the queue holds them.
    pub closed spec fn index_queues(&self) -> (UQ, UQ) {
        (self.aq, self.fq)
    }

    /// A queue over `capacity` free slots, given an empty `aq` and an `fq`
    /// that holds every slot index in order.
    pub fn new(aq: UQ, fq: UQ, capacity: usize) -> (q: Self)
        requires
            aq.well_formed(),
            fq.well_formed(),
            aq.capacity() == capacity,
            fq.capacity() == capacity,
            aq.indices() == Seq::<usize>::empty(),
            fq.indices() == Seq::new(capacity as nat, |i: int| i as usize),
        ensures
            q.well_formed(),
            q.view() == Seq::<T>::empty(),
            q.capacity() == capacity,
            q.has_room() == (aq.has_room() && fq.has_room()),
            q.index_queues() == (aq, fq),
            q.position() == (if aq.position() >= fq.position() { aq.position() } else { fq.position() }),
            q.position_limit() == (if aq.position_limit() <= fq.position_limit() {
                aq.position_limit()
            } else {
                fq.position_limit()
            }),
    {
        let mut data: Vec<Option<T>> = Vec::with_capacity(capacity);
        let mut i: usize = 0;
        while i < capacity
            invariant
                i <= capacity,
                data.len() == i,
                forall|j: int| 0 <= j < i ==> (#[trigger] data@[j]) is None,
            decreases capacity - i,
        {
            data.push(None);
            i = i + 1;
        }
        let q = SlotQueue { data, aq, fq };
        assert(q.view() =~= Seq::<T>::empty());
        q
    }

    /// Whether no slot holds data.
    pub fn is_empty(&self) -> (b: bool)
        requires
            self.well_formed(),
        ensures
            b == (self.view().len() == 0),
    {
        !self.aq.has_any()
    }

    /// Whether both index queues have room for another operation.
    pub fn room(&self) -> (b: bool)
        requires
            self.well_formed(),
        ensures
            b == self.has_room(),
    {
        self.aq.room() && self.fq.room()
    }

    /// Stores `data` in a free slot and queues that slot, unless no slot is
    /// free (or the index queues' counters are exhausted).
    pub fn try_enqueue(&mut self, data: T) -> (r: Result<(), T>)
        requires
            old(self).well_formed(),
        ensures
            final(self).well_formed(),
            final(self).capacity() == old(self).capacity(),
            final(self).position() <= old(self).position() + 2,
            final(self).position_limit() == old(self).position_limit(),
            match r {
                Ok(()) => {
                    &&& old(self).has_room()
                    &&& old(self).view().len() < old(self).capacity()
                    &&& crate::queues::appended(old(self).view(), final(self).view(), data)
                },
                Err(d) => {
                    &&& d == data
                    &&& final(self).view() == old(self).view()
                    &&& (!old(self).has_room() || old(self).view().len() == old(self).capacity())
                },
            },
    {
        if !self.room() {
            return Err(data);
        }
        let ghost a0 = self.aq.indices();
        let ghost f0 = self.fq.indices();
        let ghost d0 = self.data@;
        let ghost v0 = self.view();
        let index = match self.fq.dequeue() {
            Some(i) => i,
            None => {
                assert(self.view() =~= v0);
                return Err(data);
            },
        };
        self.data.set(index, Some(data));
        proof {
            self.aq.lemma_capacity_fits();
        }
        self.aq.enqueue(index);
        proof {
            let a = self.aq.indices();
            let f = self.fq.indices();
            assert(forall|k: int| 0 <= k < f.len() ==> f[k] == f0[k + 1]);
            assert forall|k: int| 0 <= k < a0.len() implies a0[k] != index by {
                assert(a0[k] != f0[0]);
            }
            assert forall|k: int| 0 <= k < f.len() implies f[k] != index by {
                assert(f0[k + 1] != f0[0]);
            }
            assert forall|k: int| 0 <= k < a.len() implies (#[trigger] self.data@[a[k] as int]) is Some by {
                if k < a0.len() {
                    assert(a[k] == a0[k]);
                }
            }
            assert forall|k: int| 0 <= k < f.len() implies (#[trigger] self.data@[f[k] as int]) is None by {
                assert(f[k] == f0[k + 1]);
                assert(d0[f0[k + 1] as int] is None);
            }
            assert forall|i: int, j: int| 0 <= i < j < a.len() implies a[i] != a[j] by {
                if j < a0.len() {
                    assert(a[i] == a0[i] && a[j] == a0[j]);
                }
            }
            assert forall|i: int, j: int| 0 <= i < a.len() && 0 <= j < f.len() implies a[i] != f[j] by {
                if i < a0.len() {
                    assert(a0[i] != f0[j + 1]);
                }
            }
            assert forall|i: int, j: int| 0 <= i < j < f.len() implies f[i] != f[j] by {
                assert(f0[i + 1] != f0[j + 1]);
            }
            assert forall|k: int| 0 <= k < a.len() implies #[trigger] a[k] < self.data.len() by {
                if k < a0.len() {
                    assert(a[k] == a0[k]);
                }
            }
            assert forall|k: int| 0 <= k < f.len() implies #[trigger] f[k] < self.data.len() by {
                assert(f[k] == f0[k + 1]);
            }
            assert forall|k: int| 0 <= k < v0.len() implies self.view()[k] == v0[k] by {
                assert(a[k] == a0[k]);
                assert(a0[k] != index);
            }
            assert(self.view() =~= v0.push(data));
        }
        Ok(())
    }

    /// Takes the element of the oldest queued slot and frees that slot,
    /// unless no slot holds data (or the index queues' counters are
    /// exhausted).
    pub fn dequeue(&mut self) -> (r: Option<T>)
        requires
            old(self).well_formed(),
        ensures
            final(self).well_formed(),
            final(self).capacity() == old(self).capacity(),
            final(self).position() <= old(self).position() + 2,
            final(self).position_limit() == old(self).position_limit(),
            match r {
                Some(d) => {
                    &&& old(self).has_room()
                    &&& crate::queues::removed_first(old(self).view(), final(self).view(), d)
                },
                None => {
                    &&& final(self).view() == old(self).view()
                    &&& (!old(self).has_room() || old(self).view().len() == 0)
                    &&& (old(self).view().len() > 0 ==> *final(self) == *old(self))
                },
            },
    {
        if !self.room() {
            return None;
        }
        let ghost a0 = self.aq.indices();
        let ghost f0 = self.fq.indices();
        let ghost d0 = self.data@;
        let ghost v0 = self.view();
        let index = match self.aq.dequeue() {
            Some(i) => i,
            None => {
                assert(self.view() =~= v0);
                return None;
            },
        };
        assert(d0[a0[0] as int] is Some);
        let mut slot: Option<T> = None;
        std::mem::swap(&mut self.data[index], &mut slot);
        let data = slot.unwrap();
        proof {
            self.fq.lemma_capacity_fits();
        }
        self.fq.enqueue(index);
        proof {
            let a = self.aq.indices();
            let f = self.fq.indices();
            assert(forall|k: int| 0 <= k < a.len() ==> a[k] == a0[k + 1]);
            assert forall|k: int| 0 <= k < f0.len() implies f0[k] != index by {
                assert(a0[0] != f0[k]);
            }
            assert forall|k: int| 0 <= k < a.len() implies a[k] != index by {
                assert(a0[k + 1] != a0[0]);
            }
            assert forall|k: int| 0 <= k < a.len() implies (#[trigger] self.data@[a[k] as int]) is Some by {
                assert(a[k] == a0[k + 1]);
                assert(d0[a0[k + 1] as int] is Some);
            }
            assert forall|k: int| 0 <= k < f.len() implies (#[trigger] self.data@[f[k] as int]) is None by {
                if k < f0.len() {
                    assert(f[k] == f0[k]);
                }
            }
            assert forall|i: int, j: int| 0 <= i < j < f.len() implies f[i] != f[j] by {
                if j < f0.len() {
                    assert(f[i] == f0[i] && f[j] == f0[j]);
                }
            }
            assert forall|i: int, j: int| 0 <= i < a.len() && 0 <= j < f.len() implies a[i] != f[j] by {
                if j < f0.len() {
                    assert(a0[i + 1] != f0[j]);
                }
            }
            assert forall|i: int, j: int| 0 <= i < j < a.len() implies a[i] != a[j] by {
                assert(a0[i + 1] != a0[j + 1]);
            }
            assert forall|k: int| 0 <= k < a.len() implies #[trigger] a[k] < self.data.len() by {
                assert(a[k] == a0[k + 1]);
            }
            assert forall|k: int| 0 <= k < f.len() implies #[trigger] f[k] < self.data.len() by {
                if k < f0.len() {
                    assert(f[k] == f0[k]);
                }
            }
            assert forall|k: int| 0 <= k < a.len() implies self.view()[k] == v0[k + 1] by {
                assert(a[k] == a0[k + 1]);
            }
            assert(self.view() =~= v0.drop_first());
        }
        Some(data)
    }
}

impl<T, UQ: UnderlyingQueue> Core for SlotQueue<T, UQ> {
    open spec fn wf(&self) -> bool {
        self.well_formed()
    }
}

/// A sender's `try_enqueue` on the shared slot: the slot queue's
/// `try_enqueue`; a slot without a queue hands the data back.
fn slot_try_enqueue<T, UQ: UnderlyingQueue>(slot: &mut Checked<SlotQueue<T, UQ>>, data: T) -> (r: Result<(), T>)
    ensures
        old(slot).core is None ==> final(slot).core is None && r == Err::<(), T>(data),
        old(slot).core matches Some(q) ==> final(slot).core matches Some(q2) && q2.capacity() == q.capacity()
            && q2.position() <= q.position() + 2 && q2.position_limit() == q.position_limit() && match r {
            Ok(()) => {
                &&& q.has_room()
                &&& q.view().len() < q.capacity()
                &&& crate::queues::appended(q.view(), q2.view(), data)
            },
            Err(d) => {
                &&& d == data
                &&& q2.view() == q.view()
                &&& (!q.has_room() || q.view().len() == q.capacity())
            },
        },
{
    match slot.take() {
        Some(mut q) => {
            let r = q.try_enqueue(data);
            slot.put(q);
            r
        },
        None => Err(data),
    }
}

/// A receiver's `dequeue` on the shared slot: the slot queue's `dequeue`; a
/// slot without a queue answers `None`.
fn slot_dequeue<T, UQ: UnderlyingQueue>(slot: &mut Checked<SlotQueue<T, UQ>>) -> (r: Option<T>)
    ensures
        old(slot).core is None ==> final(slot).core is None && r is None,
        old(slot).core matches Some(q) ==> final(slot).core matches Some(q2) && q2.capacity() == q.capacity()
            && q2.position() <= q.position() + 2 && q2.position_limit() == q.position_limit() && match r {
            Some(d) => {
                &&& q.has_room()
                &&& crate::queues::removed_first(q.view(), q2.view(), d)
            },
            None => {
                &&& q2.view() == q.view()
                &&& (!q.has_room() || q.view().len() == 0)
            },
        },
{
    match slot.take() {
        Some(mut q) => {
            let r = q.dequeue();
            slot.put(q);
            r
        },
        None => None,
    }
}

/// The receiving side of a bounded queue; it can be shared between threads.
#[verifier::reject_recursive_types(T)]
#[verifier::reject_recursive_types(UQ)]
pub struct BoundedReceiver<T, UQ: UnderlyingQueue> {
    shared: Arc<Mutex<Checked<SlotQueue<T, UQ>>>>,
    slots: Ghost<nat>,
}

/// The sending side of a bounded queue; it can be shared between threads.
#[verifier::reject_recursive_types(T)]
#[verifier::reject_recursive_types(UQ)]
pub struct BoundedSender<T, UQ: UnderlyingQueue> {
    shared: Arc<Mutex<Checked<SlotQueue<T, UQ>>>>,
    slots: Ghost<nat>,
}

impl<T, UQ: UnderlyingQueue> BoundedReceiver<T, UQ> {
    /// The number of slots of the queue the handle was made over.
    pub closed spec fn capacity(&self) -> nat {
        self.slots@
    }
}

impl<T, UQ: UnderlyingQueue> BoundedSender<T, UQ> {
    /// The number of slots of the queue the handle was made over.
    pub closed spec fn capacity(&self) -> nat {
        self.slots@
    }
}

/// Shares `core` between a receiver and a sender.
fn share<T, UQ: UnderlyingQueue>(core: SlotQueue<T, UQ>) -> (r: (BoundedReceiver<T, UQ>, BoundedSender<T, UQ>))
    requires
        core.well_formed(),
    ensures
        r.0.capacity() == core.capacity(),
        r.1.capacity() == core.capacity(),
{
    let ghost slots = core.capacity();
    let shared = Arc::new(new_lock(Checked::new(core)));
    (BoundedReceiver { shared: shared.clone(), slots: Ghost(slots) }, BoundedSender { shared, slots: Ghost(slots) })
}

/// Creates the two sides of a queue over `capacity` slots, given an empty
/// `aq` and an `fq` that holds every slot index.
pub fn new_queue<T, UQ: UnderlyingQueue>(aq: UQ, fq: UQ, capacity: usize) -> (r: (
    BoundedReceiver<T, UQ>,
    BoundedSender<T, UQ>,
))
    requires
        aq.well_formed(),
        fq.well_formed(),
        aq.capacity() == capacity,
        fq.capacity() == capacity,
        aq.indices() == Seq::<usize>::empty(),
        fq.indices() == Seq::new(capacity as nat, |i: int| i as usize),
    ensures
        r.0.capacity() == capacity,
        r.1.capacity() == capacity,
{
    share(SlotQueue::new(aq, fq, capacity))
}

/// Fills `fq` with the indices `0..capacity`, in order.
pub fn fill<UQ: UnderlyingQueue>(fq: &mut UQ, capacity: usize)
    requires
        old(fq).well_formed(),
        old(fq).capacity() == capacity,
        old(fq).indices() == Seq::<usize>::empty(),
        forall|q: UQ| q.well_formed() && q.capacity() == capacity && #[trigger] q.position() <= old(fq).position()
            + 2 * capacity ==> q.has_room(),
    ensures
        final(fq).well_formed(),
        final(fq).capacity() == capacity,
        final(fq).indices() == Seq::new(capacity as nat, |i: int| i as usize),
        final(fq).position() <= old(fq).position() + 2 * capacity,
{
    let ghost p0 = fq.position();
    let mut index: usize = 0;
    while index < capacity
        invariant
            index <= capacity,
            fq.well_formed(),
            fq.capacity() == capacity,
            fq.indices() == Seq::new(index as nat, |i: int| i as usize),
            fq.position() <= p0 + 2 * index,
            forall|q: UQ| q.well_formed() && q.capacity() == capacity && #[trigger] q.position() <= p0 + 2
                * capacity ==> q.has_room(),
        decreases capacity - index,
    {
        proof {
            fq.lemma_capacity_fits();
        }
        fq.enqueue(index);
        assert(fq.indices() =~= Seq::new((index + 1) as nat, |i: int| i as usize));
        index = index + 1;
    }
}

/// An empty slot queue of exactly `capacity` slots over NCQ index queues:
/// `aq` empty, `fq` holding every slot index in order.
pub fn ncq_core<T>(capacity: usize) -> (q: SlotQueue<T, ncq::Queue>)
    requires
        0 < capacity <= u32::MAX,
        4 * capacity + 8 < usize::MAX,
    ensures
        q.well_formed(),
        q.view() == Seq::<T>::empty(),
        q.capacity() == capacity,
        q.has_room(),
        q.position() <= 3 * capacity,
        q.position_limit() == ncq::ncq_position_limit(capacity as nat),
{
    let aq = ncq::Queue::new(capacity);
    let mut fq = ncq::Queue::new(capacity);
    proof {
        assert forall|q: ncq::Queue| q.well_formed() && q.capacity() == capacity && #[trigger] q.position()
            <= fq.position() + 2 * capacity implies q.has_room() by {
            lemma_div_at_most(q.position() + 1int, 4, capacity as int);
        }
    }
    fill(&mut fq, capacity);
    proof {
        lemma_div_at_most(aq.position() + 1int, 4, capacity as int);
        lemma_div_at_most(fq.position() + 1int, 4, capacity as int);
    }
    SlotQueue::new(aq, fq, capacity)
}

/// An empty slot queue of exactly `capacity` slots over SCQ index queues:
/// `aq` empty, `fq` holding every slot index in order.
pub fn scq_core<T>(capacity: usize) -> (q: SlotQueue<T, scq::Queue>)
    requires
        0 < capacity,
        2 * capacity - 1 <= u32::MAX,
        3 * capacity - 1 <= isize::MAX,
        4 * capacity + 8 < usize::MAX,
    ensures
        q.well_formed(),
        q.view() == Seq::<T>::empty(),
        q.capacity() == capacity,
        q.has_room(),
        q.position() <= 4 * capacity,
        q.position_limit() == scq::scq_position_limit(capacity as nat),
{
    let aq = scq::Queue::new(capacity);
    let mut fq = scq::Queue::new(capacity);
    proof {
        assert forall|q: scq::Queue| q.well_formed() && q.capacity() == capacity && #[trigger] q.position()
            <= fq.position() + 2 * capacity implies q.has_room() by {
            lemma_div_at_most(q.position() + 2int, 3, 2 * capacity as int);
        }
    }
    fill(&mut fq, capacity);
    proof {
        lemma_div_at_most(aq.position() + 2int, 3, 2 * capacity as int);
        lemma_div_at_most(fq.position() + 2int, 3, 2 * capacity as int);
    }
    SlotQueue::new(aq, fq, capacity)
}

/// Creates a bounded queue for `capacity` elements that uses NCQ index
/// queues: both handles share one empty queue of exactly `capacity` slots
/// (`ncq_core`).
pub fn queue_ncq<T>(capacity: usize) -> (r: (BoundedReceiver<T, ncq::Queue>, BoundedSender<T, ncq::Queue>))
    requires
        0 < capacity <= u32::MAX,
        4 * capacity + 8 < usize::MAX,
    ensures
        r.0.capacity() == capacity,
        r.1.capacity() == capacity,
{
    share(ncq_core(capacity))
}

/// Creates a bounded queue for `capacity` elements that uses SCQ index
/// queues: both handles share one empty queue of exactly `capacity` slots
/// (`scq_core`).
pub fn queue_scq<T>(capacity: usize) -> (r: (BoundedReceiver<T, scq::Queue>, BoundedSender<T, scq::Queue>))
    requires
        0 < capacity,
        2 * capacity - 1 <= u32::MAX,
        3 * capacity - 1 <= isize::MAX,
        4 * capacity + 8 < usize::MAX,
    ensures
        r.0.capacity() == capacity,
        r.1.capacity() == capacity,
{
    share(scq_core(capacity))
}

impl<T, UQ: UnderlyingQueue> BoundedSender<T, UQ> {
    /// Enqueues `data` if a slot is free; otherwise hands it back.
    pub fn try_enqueue(&self, data: T) -> (r: Result<(), T>)
        ensures
            r matches Err(d) ==> d == data,
    {
        match acquire(&*self.shared) {
            Some(mut g) => slot_try_enqueue(guarded(&mut g), data),
            None => Err(data),
        }
    }
}

impl<T, UQ: UnderlyingQueue> BoundedReceiver<T, UQ> {
    /// Dequeues the oldest element, if there is one.
    pub fn dequeue(&self) -> Option<T> {
        match acquire(&*self.shared) {
            Some(mut g) => slot_dequeue(guarded(&mut g)),
            None => None,
        }
    }
}

} // verus!
