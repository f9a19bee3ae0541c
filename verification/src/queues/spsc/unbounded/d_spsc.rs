//! A basic unbounded single-producer single-consumer queue: a linked list of
//! nodes that starts with an empty dummy node. The producer links a new node
//! after the tail; the consumer moves the head to the next node and takes its
//! element, and the old head is kept for reuse by later enqueues.
//!
//! The nodes live in one vector and link to each other by index.

use vstd::prelude::*;

use std::sync::{Arc, Mutex};

use crate::queues::DequeueError;
use crate::shared::{Checked, Core, acquire, guarded, new_lock};

verus! {

/// One node of the list.
pub struct Node<T> {
    data: Option<T>,
    next: Option<usize>,
}

/// The list of nodes with its dummy head, its tail and the nodes kept for
/// reuse.
pub struct BasicQueue<T> {
    nodes: Vec<Node<T>>,
    head: usize,
    tail: usize,
    recycled: Vec<usize>,
    chain: Ghost<Seq<usize>>,
    closed: bool,
}

impl<T> BasicQueue<T> {
    /// The nodes from the head to the tail link to each other in order and
    /// are all distinct; the recycled nodes are distinct and off the list;
    /// every node after the head holds an element.
    pub closed spec fn well_formed(&self) -> bool {
        let c = self.chain@;
        let r = self.recycled@;
        let n = self.nodes.len() as int;
        &&& c.len() >= 1
        &&& c[0] == self.head
        &&& c.last() == self.tail
        &&& forall|k: int| 0 <= k < c.len() ==> #[trigger] c[k] < n
        &&& forall|k: int| 0 <= k < c.len() - 1 ==> self.nodes@[#[trigger] c[k] as int].next == Some(c[k + 1])
        &&& self.nodes@[self.tail as int].next is None
        &&& forall|i: int, j: int| 0 <= i < j < c.len() ==> c[i] != c[j]
        &&& forall|k: int| 0 <= k < r.len() ==> #[trigger] r[k] < n
        &&& forall|i: int, j: int| 0 <= i < j < r.len() ==> r[i] != r[j]
        &&& forall|i: int, j: int| 0 <= i < r.len() && 0 <= j < c.len() ==> r[i] != c[j]
        &&& forall|k: int| 1 <= k < c.len() ==> (#[trigger] self.nodes@[c[k] as int]).data is Some
    }

    /// The queued elements, oldest first.
    pub closed spec fn view(&self) -> Seq<T> {
        Seq::new((self.chain@.len() - 1) as nat, |k: int| self.nodes@[self.chain@[k + 1] as int].data->0)
    }

    /// Whether the queue has been closed.
    pub closed spec fn closed(&self) -> bool {
        self.closed
    }

    /// An empty queue: a lone dummy node.
    pub fn new() -> (q: Self)
        ensures
            q.well_formed(),
            q.view() == Seq::<T>::empty(),
            !q.closed(),
    {
        let mut nodes: Vec<Node<T>> = Vec::new();
        nodes.push(Node { data: None, next: None });
        let ghost first: Seq<usize> = seq![0usize];
        let q = BasicQueue { nodes, head: 0, tail: 0, recycled: Vec::new(), chain: Ghost(first), closed: false };
        assert(q.view() =~= Seq::<T>::empty());
        q
    }

    /// A node holding `data` with no successor: a recycled node if there is
    /// one, a new one otherwise.
    fn create_new_node(&mut self, data: T) -> (index: usize)
        requires
            old(self).well_formed(),
        ensures
            index < final(self).nodes.len(),
            final(self).nodes.len() >= old(self).nodes.len(),
            final(self).nodes@[index as int].data == Some(data),
            final(self).nodes@[index as int].next is None,
            forall|i: int| 0 <= i < old(self).nodes.len() && i != index ==> final(self).nodes@[i] == old(self).nodes@[i],
            forall|k: int| 0 <= k < old(self).chain@.len() ==> old(self).chain@[k] != index,
            old(self).recycled@.len() > 0 ==> final(self).recycled@ == old(self).recycled@.drop_last() && index
                == old(self).recycled@.last(),
            old(self).recycled@.len() == 0 ==> final(self).recycled@ == old(self).recycled@ && index == old(
                self,
            ).nodes.len(),
            final(self).head == old(self).head,
            final(self).tail == old(self).tail,
            final(self).chain == old(self).chain,
            final(self).closed == old(self).closed,
    {
        match self.recycled.pop() {
            Some(i) => {
                proof {
                    let r = old(self).recycled@;
                    assert(r[r.len() - 1] == i);
                    assert forall|k: int| 0 <= k < old(self).chain@.len() implies old(self).chain@[k] != i by {
                        assert(r[r.len() - 1] != old(self).chain@[k]);
                    }
                }
                self.nodes.set(i, Node { data: Some(data), next: None });
                i
            },
            None => {
                self.nodes.push(Node { data: Some(data), next: None });
                self.nodes.len() - 1
            },
        }
    }

    /// Links a node holding `data` after the tail, unless the queue is closed.
    pub fn enqueue(&mut self, data: T) -> (r: Result<(), T>)
        requires
            old(self).well_formed(),
        ensures
            final(self).well_formed(),
            final(self).closed() == old(self).closed(),
            match r {
                Ok(()) => !old(self).closed() && crate::queues::appended(old(self).view(), final(self).view(), data),
                Err(d) => old(self).closed() && d == data && final(self).view() == old(self).view(),
            },
    {
        if self.closed {
            return Err(data);
        }
        let ghost v0 = self.view();
        let ghost c0 = self.chain@;
        let ghost n0 = self.nodes@;
        let ghost r0 = self.recycled@;
        let index = self.create_new_node(data);
        let tail = self.tail;
        let d = Node { data: None, next: None };
        let mut taken = d;
        std::mem::swap(&mut self.nodes[tail], &mut taken);
        taken.next = Some(index);
        std::mem::swap(&mut self.nodes[tail], &mut taken);
        self.tail = index;
        self.chain = Ghost(c0.push(index));
        proof {
            let c = self.chain@;
            let r = self.recycled@;
            assert forall|k: int| 0 <= k < r.len() implies r[k] != index by {
                if r0.len() > 0 {
                    assert(r[k] == r0[k]);
                    assert(r0[k] != r0[r0.len() - 1]);
                }
            }
            assert forall|k: int| 0 <= k < c.len() - 1 implies self.nodes@[#[trigger] c[k] as int].next == Some(c[k + 1]) by {
                if k < c.len() - 2 {
                    assert(c0[k] != index);
                    assert(c0[k] != tail);
                }
            }
            assert forall|k: int| 1 <= k < c.len() implies (#[trigger] self.nodes@[c[k] as int]).data is Some by {
                if k < c.len() - 1 {
                    assert(c[k] == c0[k]);
                    if c0[k] == tail {
                        assert(k == c0.len() - 1);
                    }
                }
            }
            assert forall|i: int, j: int| 0 <= i < r.len() && 0 <= j < c.len() implies r[i] != c[j] by {
                if j < c0.len() {
                    if r0.len() > 0 {
                        assert(r[i] == r0[i]);
                    }
                }
            }
            assert forall|i: int, j: int| 0 <= i < r.len() && 0 <= j < r.len() && i < j implies r[i] != r[j] by {
                if r0.len() > 0 {
                    assert(r[i] == r0[i] && r[j] == r0[j]);
                }
            }
            assert forall|k: int| 0 <= k < r.len() implies #[trigger] r[k] < self.nodes.len() by {
                if r0.len() > 0 {
                    assert(r[k] == r0[k]);
                }
            }
            assert forall|k: int| 0 <= k < v0.len() implies self.view()[k] == v0[k] by {
                assert(c[k + 1] == c0[k + 1]);
                assert(c0[k + 1] != tail || k + 1 == c0.len() - 1);
            }
            assert(self.view() =~= v0.push(data));
        }
        Ok(())
    }

    /// Takes the element of the node after the head, which becomes the new
    /// dummy head; the old head is kept for reuse.
    pub fn try_dequeue(&mut self) -> (r: Result<T, DequeueError>)
        requires
            old(self).well_formed(),
        ensures
            final(self).well_formed(),
            final(self).closed() == old(self).closed(),
            match r {
                Ok(d) => {
                    &&& crate::queues::removed_first(old(self).view(), final(self).view(), d)
                },
                Err(e) => e == DequeueError::Empty && old(self).view().len() == 0 && final(self).view()
                    == old(self).view(),
            },
    {
        let ghost v0 = self.view();
        let ghost c0 = self.chain@;
        let head = self.head;
        let next = self.nodes[head].next;
        match next {
            None => {
                proof {
                    if c0.len() > 1 {
                        assert(self.nodes@[c0[0] as int].next == Some(c0[1]));
                    }
                }
                Err(DequeueError::Empty)
            },
            Some(n) => {
                proof {
                    if c0.len() == 1 {
                        assert(head == self.tail);
                    }
                    assert(self.nodes@[c0[0] as int].next == Some(c0[1]));
                }
                let mut slot = Node { data: None, next: None };
                std::mem::swap(&mut self.nodes[n], &mut slot);
                let data = slot.data.unwrap();
                let keep = Node { data: None, next: slot.next };
                self.nodes.set(n, keep);
                self.head = n;
                self.recycled.push(head);
                self.chain = Ghost(c0.drop_first());
                proof {
                    let c = self.chain@;
                    let r = self.recycled@;
                    assert forall|k: int| 0 <= k < c.len() - 1 implies self.nodes@[#[trigger] c[k] as int].next == Some(c[k + 1]) by {
                        assert(c[k] == c0[k + 1]);
                        assert(self.nodes@[c0[k + 1] as int].next == Some(c0[k + 2]));
                    }
                    assert forall|k: int| 1 <= k < c.len() implies (#[trigger] self.nodes@[c[k] as int]).data is Some by {
                        assert(c[k] == c0[k + 1]);
                        assert(c0[k + 1] != c0[1]);
                    }
                    assert forall|i: int, j: int| 0 <= i < r.len() && 0 <= j < c.len() implies r[i] != c[j] by {
                        assert(c[j] == c0[j + 1]);
                        if i < r.len() - 1 {
                            assert(r[i] == old(self).recycled@[i]);
                        } else {
                            assert(c0[0] != c0[j + 1]);
                        }
                    }
                    assert forall|i: int, j: int| 0 <= i < j < r.len() implies r[i] != r[j] by {
                        if j < r.len() - 1 {
                            assert(r[i] == old(self).recycled@[i]);
                            assert(r[j] == old(self).recycled@[j]);
                        } else {
                            assert(old(self).recycled@[i] != c0[0]);
                        }
                    }
                    assert forall|i: int, j: int| 0 <= i < j < c.len() implies c[i] != c[j] by {
                        assert(c0[i + 1] != c0[j + 1]);
                    }
                    assert(self.nodes@[self.tail as int].next is None) by {
                        if self.tail == n {
                        } else {
                            assert(self.nodes@[self.tail as int] == old(self).nodes@[self.tail as int]);
                        }
                    }
                    assert forall|k: int| 0 <= k < v0.len() - 1 implies self.view()[k] == v0[k + 1] by {
                        assert(c[k + 1] == c0[k + 2]);
                        assert(c0[k + 2] != n);
                    }
                    assert(self.view() =~= v0.drop_first());
                }
                Ok(data)
            },
        }
    }

    /// Whether an element is waiting.
    pub fn has_next(&self) -> (b: bool)
        requires
            self.well_formed(),
        ensures
            b == (self.view().len() > 0),
    {
        proof {
            if self.chain@.len() > 1 {
                assert(self.nodes@[self.chain@[0] as int].next == Some(self.chain@[1]));
            }
        }
        self.nodes[self.head].next.is_some()
    }

    /// Closes the queue; its contents stay.
    pub fn close(&mut self)
        requires
            old(self).well_formed(),
        ensures
            final(self).well_formed(),
            final(self).closed(),
            final(self).view() == old(self).view(),
        opens_invariants none
        no_unwind
    {
        self.closed = true;
    }
}

impl<T> Core for BasicQueue<T> {
    open spec fn wf(&self) -> bool {
        self.well_formed()
    }
}

/// The producing half of a basic unbounded queue.
#[verifier::reject_recursive_types(T)]
pub struct UnboundedSender<T> {
    shared: Arc<Mutex<Checked<BasicQueue<T>>>>,
}

/// The consuming half of a basic unbounded queue.
#[verifier::reject_recursive_types(T)]
pub struct UnboundedReceiver<T> {
    shared: Arc<Mutex<Checked<BasicQueue<T>>>>,
}

/// Closes the shared queue.
fn close_basic<T>(shared: &Mutex<Checked<BasicQueue<T>>>)
    opens_invariants none
    no_unwind
{
    if let Some(mut g) = acquire(shared) {
        let slot = guarded(&mut g);
        match slot.take() {
            Some(mut q) => {
                q.close();
                slot.put(q);
            },
            None => {},
        }
    }
}

/// A sender's `enqueue` on the shared slot: the queue's `enqueue`; a slot
/// without a queue hands the data back.
fn slot_enqueue<T>(slot: &mut Checked<BasicQueue<T>>, data: T) -> (r: Result<(), T>)
    ensures
        old(slot).core is None ==> final(slot).core is None && r == Err::<(), T>(data),
        old(slot).core matches Some(q) ==> final(slot).core matches Some(q2) && q2.closed() == q.closed()
            && match r {
            Ok(()) => !q.closed() && crate::queues::appended(q.view(), q2.view(), data),
            Err(d) => q.closed() && d == data && q2.view() == q.view(),
        },
{
    match slot.take() {
        Some(mut q) => {
            let r = q.enqueue(data);
            slot.put(q);
            r
        },
        None => Err(data),
    }
}

/// A receiver's `try_dequeue` on the shared slot: the queue's
/// `try_dequeue`; a slot without a queue answers `Empty`.
fn slot_try_dequeue<T>(slot: &mut Checked<BasicQueue<T>>) -> (r: Result<T, DequeueError>)
    ensures
        old(slot).core is None ==> final(slot).core is None && r == Err::<T, DequeueError>(DequeueError::Empty),
        old(slot).core matches Some(q) ==> final(slot).core matches Some(q2) && q2.closed() == q.closed()
            && match r {
            Ok(d) => crate::queues::removed_first(q.view(), q2.view(), d),
            Err(e) => e == DequeueError::Empty && q.view().len() == 0 && q2.view() == q.view(),
        },
{
    match slot.take() {
        Some(mut q) => {
            let r = q.try_dequeue();
            slot.put(q);
            r
        },
        None => Err(DequeueError::Empty),
    }
}

/// What a receiver's `has_next` reads off the shared slot: whether an
/// element is waiting; a slot without a queue answers `false`.
fn slot_has_next<T>(slot: &mut Checked<BasicQueue<T>>) -> (b: bool)
    ensures
        final(slot).core == old(slot).core,
        b == match old(slot).core {
            Some(q) => q.view().len() > 0,
            None => false,
        },
{
    match slot.take() {
        Some(q) => {
            let b = q.has_next();
            slot.put(q);
            b
        },
        None => false,
    }
}

impl<T> UnboundedSender<T> {
    /// Enqueues `data` unless the consumer is gone, in which case the data is
    /// handed back.
    pub fn enqueue(&mut self, data: T) -> (r: Result<(), T>)
        ensures
            r matches Err(d) ==> d == data,
    {
        match acquire(&*self.shared) {
            Some(mut g) => slot_enqueue(guarded(&mut g), data),
            None => Err(data),
        }
    }
}

impl<T> Drop for UnboundedSender<T> {
    fn drop(&mut self)
        opens_invariants none
        no_unwind
    {
        close_basic(&*self.shared);
    }
}

impl<T> UnboundedReceiver<T> {
    /// Dequeues the oldest element, if there is one.
    pub fn try_dequeue(&mut self) -> Result<T, DequeueError> {
        match acquire(&*self.shared) {
            Some(mut g) => slot_try_dequeue(guarded(&mut g)),
            None => Err(DequeueError::Empty),
        }
    }

    /// Whether an element is waiting.
    pub fn has_next(&self) -> bool {
        match acquire(&*self.shared) {
            Some(mut g) => slot_has_next(guarded(&mut g)),
            None => false,
        }
    }
}

impl<T> Drop for UnboundedReceiver<T> {
    fn drop(&mut self)
        opens_invariants none
        no_unwind
    {
        close_basic(&*self.shared);
    }
}

/// Creates an empty basic queue and returns its (receiver, sender).
pub fn unbounded_basic_queue<T>() -> (UnboundedReceiver<T>, UnboundedSender<T>) {
    let shared = Arc::new(new_lock(Checked::new(BasicQueue::new())));
    (UnboundedReceiver { shared: shared.clone() }, UnboundedSender { shared })
}

} // verus!
