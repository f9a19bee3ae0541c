//! Jiffy: an unbounded multi-producer single-consumer queue.
//!
//! The queue is a list of buffers of `BUFFER_SIZE` nodes each; location `l`
//! lives in node `l % BUFFER_SIZE` of the buffer at place `l / BUFFER_SIZE + 1`.
//! A producer reserves the next location by bumping `tail`, then stores its
//! element there, allocating buffers as needed. The consumer reads the node at
//! its head; when that node is reserved but not yet written, it scans ahead
//! for a written node, takes that one and marks it handled so that it is
//! skipped later.
//!
//! ```
//! use nolock::queues::mpsc::jiffy;
//!
//! let (mut rx, tx) = jiffy::queue();
//! tx.enqueue(13).unwrap();
//! assert_eq!(Ok(13), rx.try_dequeue());
//! ```

use std::sync::{Arc, Mutex};
use vstd::prelude::*;

use crate::queues::{DequeueError, EnqueueError};
use crate::shared::{Checked, Core, acquire, guarded, new_lock};

pub mod bufferlist;
pub mod node;
pub mod owned_iter;
pub mod ref_iter;

use bufferlist::BufferList;
use node::{Node, NodeState};
pub use owned_iter::OwnedIter;
pub use ref_iter::RefIter;

verus! {

/// The number of nodes in every buffer.
pub const BUFFER_SIZE: usize = 1024;

/// Splitting `k * 1024 + j` for `j < 1024` gives back `k` and `j`.
proof fn lemma_split(k: int, j: int)
    requires
        0 <= k,
        0 <= j < 1024,
    ensures
        (k * 1024 + j) / 1024 == k,
        (k * 1024 + j) % 1024 == j,
{
    vstd::arithmetic::div_mod::lemma_div_multiples_vanish_fancy(k, j, 1024);
    vstd::arithmetic::div_mod::lemma_mod_multiples_vanish(k, j, 1024);
    vstd::arithmetic::div_mod::lemma_small_mod(j as nat, 1024);
    assert(1024 * k == k * 1024);
}

/// Every non-negative `d` is `(d / 1024) * 1024 + d % 1024`.
proof fn lemma_join(d: int)
    requires
        0 <= d,
    ensures
        d == (d / 1024) * 1024 + d % 1024,
        0 <= d % 1024 < 1024,
        0 <= d / 1024,
{
    vstd::arithmetic::div_mod::lemma_fundamental_div_mod(d, 1024);
    vstd::arithmetic::div_mod::lemma_mod_bound(d, 1024);
    assert(1024 * (d / 1024) == (d / 1024) * 1024);
}

/// `l` is the lowest location among the keys of `m`.
pub open spec fn is_oldest<T>(m: Map<int, T>, l: int) -> bool {
    &&& m.contains_key(l)
    &&& forall|k: int| m.contains_key(k) ==> l <= k
}

/// The shared state of a Jiffy queue.
pub struct Jiffy<T> {
    buffers: Vec<Box<BufferList<T>>>,
    tail: usize,
    closed: bool,
}

impl<T> Jiffy<T> {
    /// The location of node 0 of the first buffer.
    pub closed spec fn start(&self) -> int {
        (self.buffers@[0].position_in_queue - 1) * 1024
    }

    /// The location right after the last buffer.
    pub closed spec fn end(&self) -> int {
        self.start() + self.buffers.len() * 1024
    }

    /// The location of the consumer's next read.
    pub closed spec fn head_loc(&self) -> int {
        self.start() + self.buffers@[0].head
    }

    /// The node that holds location `l`.
    pub closed spec fn node_at(&self, l: int) -> Node<T> {
        self.buffers@[(l - self.start()) / 1024].buffer@[(l - self.start()) % 1024]
    }

    /// The number of buffers in the list.
    pub closed spec fn buffer_count(&self) -> nat {
        self.buffers.len() as nat
    }

    /// Buffer `i` of the list.
    pub closed spec fn buffer_at(&self, i: int) -> BufferList<T> {
        *self.buffers@[i]
    }

    /// Whether location `l` lies in one of the buffers.
    pub closed spec fn covered(&self, l: int) -> bool {
        self.start() <= l < self.end()
    }

    /// The next location that a producer reserves.
    pub closed spec fn next_location(&self) -> nat {
        self.tail as nat
    }

    /// Whether the queue has been closed.
    pub closed spec fn closed(&self) -> bool {
        self.closed
    }

    /// The written elements that the consumer has not taken yet, by location.
    pub closed spec fn stored(&self) -> Map<int, T> {
        Map::new(
            |l: int|
                self.head_loc() <= l < self.tail && self.covered(l) && self.node_at(l).state()
                    == NodeState::Filled,
            |l: int| self.node_at(l).data()->0,
        )
    }

    /// The reserved locations that no element has been written to yet.
    pub closed spec fn reserved(&self) -> Set<int> {
        Set::new(
            |l: int|
                self.head_loc() <= l < self.tail && !(self.covered(l) && self.node_at(l).state()
                    != NodeState::Empty),
        )
    }

    /// Every element held, and every reserved location, lies below the next
    /// location: the element an enqueue stores is younger than all others,
    /// so dequeues, which hand out the oldest element held, hand elements
    /// out in the order their locations were reserved.
    pub proof fn law_new_is_youngest(&self)
        requires
            self.well_formed(),
        ensures
            forall|l: int| #[trigger] self.stored().contains_key(l) ==> l < self.next_location(),
            forall|l: int| #[trigger] self.reserved().contains(l) ==> l < self.next_location(),
            forall|l: int| #[trigger] self.stored().contains_key(l) ==> !self.reserved().contains(l),
    {
    }

    /// The buffers sit at consecutive places, every node below the head has
    /// been read, every written node from the head on holds its element,
    /// every node from the tail on is untouched, and the last buffer has not
    /// been written at offset 2 (which is where its successor gets allocated).
    pub closed spec fn well_formed(&self) -> bool {
        &&& self.nodes_consistent()
        &&& self.buffers@[self.buffers.len() - 1].buffer@[2].state() == NodeState::Empty
    }

    /// All of `well_formed` but the condition on the last buffer.
    pub closed spec fn nodes_consistent(&self) -> bool {
        let len = self.buffers.len() as int;
        let p0 = self.buffers@[0].position_in_queue as int;
        &&& len >= 1
        &&& p0 >= 1
        &&& forall|i: int|
            0 <= i < len ==> (#[trigger] self.buffers@[i]).buffer.len() == 1024
                && self.buffers@[i].position_in_queue == p0 + i
        &&& forall|i: int| 1 <= i < len ==> (#[trigger] self.buffers@[i]).head == 0
        &&& self.buffers@[0].head <= 1024
        &&& self.head_loc() <= self.tail
        &&& self.end() <= self.tail + 2 * 1024
        &&& self.tail + 4 * 1024 <= usize::MAX
        &&& forall|i: int, j: int|
            #![trigger self.buffers@[i].buffer@[j]]
            0 <= i < len && 0 <= j < 1024 ==> {
                let n = self.buffers@[i].buffer@[j];
                let l = self.start() + i * 1024 + j;
                &&& n.wf()
                &&& (l >= self.tail ==> n.state() == NodeState::Empty && n.data() is None)
                &&& (l < self.head_loc() ==> n.state() != NodeState::Empty && n.data() is None)
                &&& (self.head_loc() <= l < self.tail ==> (n.data() is Some <==> n.state()
                    == NodeState::Filled))
            }
    }

    /// The node at location `start + i * 1024 + j` is node `j` of buffer `i`.
    proof fn lemma_node_at(&self, i: int, j: int)
        requires
            0 <= i,
            0 <= j < 1024,
        ensures
            self.node_at(self.start() + i * 1024 + j) == self.buffers@[i].buffer@[j],
    {
        lemma_split(i, j);
    }

    /// A covered location is node `(l - start) % 1024` of buffer
    /// `(l - start) / 1024`.
    proof fn lemma_locate(&self, l: int)
        requires
            self.nodes_consistent(),
            self.covered(l),
        ensures
            0 <= (l - self.start()) / 1024 < self.buffers.len(),
            0 <= (l - self.start()) % 1024 < 1024,
            l == self.start() + ((l - self.start()) / 1024) * 1024 + (l - self.start()) % 1024,
    {
        lemma_join(l - self.start());
        let i = (l - self.start()) / 1024;
        if i >= self.buffers.len() {
            assert(i * 1024 >= self.buffers.len() * 1024) by (nonlinear_arith)
                requires
                    i >= self.buffers.len(),
            ;
        }
    }

    /// An empty queue: one buffer at place 1, open.
    pub fn new() -> (q: Self)
        ensures
            q.well_formed(),
            q.stored() == Map::<int, T>::empty(),
            q.reserved() == Set::<int>::empty(),
            q.next_location() == 0,
            !q.closed(),
            q.start() == 0,
            q.head_loc() == 0,
            q.buffer_count() == 1,
            q.buffer_at(0).head == 0,
    {
        let first = BufferList::boxed(1);
        let mut buffers: Vec<Box<BufferList<T>>> = Vec::new();
        buffers.push(first);
        let q = Jiffy { buffers, tail: 0, closed: false };
        proof {
            assert(q.stored() =~= Map::<int, T>::empty());
            assert(q.reserved() =~= Set::<int>::empty());
        }
        q
    }

    /// Whether the queue has been closed.
    pub fn is_closed(&self) -> (b: bool)
        ensures
            b == self.closed(),
    {
        self.closed
    }

    /// Closes the queue; its contents stay.
    pub fn close(&mut self)
        requires
            old(self).well_formed(),
        ensures
            final(self).well_formed(),
            final(self).closed(),
            final(self).stored() == old(self).stored(),
            final(self).reserved() == old(self).reserved(),
            final(self).next_location() == old(self).next_location(),
        opens_invariants none
        no_unwind
    {
        self.closed = true;
        proof {
            assert(self.stored() =~= old(self).stored());
            assert(self.reserved() =~= old(self).reserved());
        }
    }

    /// Appends a fresh buffer after buffer `k`, which must be the last one;
    /// returns the index of the new buffer.
    pub fn allocate_next(&mut self, k: usize) -> (next: usize)
        requires
            old(self).nodes_consistent(),
            k == old(self).buffer_count() - 1,
            old(self).end() + 1024 <= old(self).next_location() + 2 * 1024,
        ensures
            final(self).well_formed(),
            next == k + 1,
            final(self).buffer_count() == old(self).buffer_count() + 1,
            final(self).start() == old(self).start(),
            final(self).end() == old(self).end() + 1024,
            final(self).head_loc() == old(self).head_loc(),
            final(self).next_location() == old(self).next_location(),
            final(self).closed() == old(self).closed(),
            forall|i: int| 0 <= i < old(self).buffer_count() ==> final(self).buffer_at(i) == old(self).buffer_at(i),
            final(self).stored() == old(self).stored(),
            final(self).reserved() == old(self).reserved(),
            final(self).buffer_at(next as int).head == 0,
            final(self).buffer_at(next as int).position_in_queue == old(self).buffer_at(k as int).position_in_queue
                + 1,
            final(self).buffer_at(next as int).buffer.len() == 1024,
            forall|j: int|
                0 <= j < 1024 ==> (#[trigger] final(self).buffer_at(next as int).buffer@[j]).state()
                    == NodeState::Empty,
    {
        let pos = self.buffers[k].position_in_queue;
        let next_buffer = BufferList::boxed(pos + 1);
        self.buffers.push(next_buffer);
        proof {
            let len = self.buffers.len() as int;
            assert(self.buffers@[len - 1].buffer@[2].state() == NodeState::Empty);
            assert forall|l: int| old(self).covered(l) implies self.node_at(l) == old(self).node_at(l) by {
                old(self).lemma_locate(l);
            }
            assert forall|l: int| self.covered(l) && !old(self).covered(l) implies self.node_at(l).state()
                == NodeState::Empty by {
                self.lemma_locate(l);
                let i = (l - self.start()) / 1024;
                let j = (l - self.start()) % 1024;
                let old_end = old(self).end();
                let st = self.start();
                if i < len - 1 {
                    assert(l < old_end) by (nonlinear_arith)
                        requires
                            l == st + i * 1024 + j,
                            i < len - 1,
                            j < 1024,
                            old_end == st + (len - 1) * 1024,
                    ;
                }
            }
            assert(self.stored() =~= old(self).stored());
            assert(self.reserved() =~= old(self).reserved());
        }
        k + 1
    }

    /// The buffer after buffer `k`, allocated if `k` is the last one.
    pub fn go_to_next(&mut self, k: usize) -> (next: usize)
        requires
            old(self).well_formed(),
            k < old(self).buffer_count(),
            k == old(self).buffer_count() - 1 ==> old(self).end() + 1024 <= old(self).next_location() + 2
                * 1024,
        ensures
            final(self).well_formed(),
            next == k + 1,
            next < final(self).buffer_count(),
            final(self).start() == old(self).start(),
            final(self).head_loc() == old(self).head_loc(),
            final(self).next_location() == old(self).next_location(),
            final(self).closed() == old(self).closed(),
            final(self).end() <= old(self).end() + 1024,
            final(self).end() >= old(self).end(),
            k == old(self).buffer_count() - 1 ==> final(self).end() == old(self).end() + 1024,
            k < old(self).buffer_count() - 1 ==> *final(self) == *old(self),
            k == old(self).buffer_count() - 1 ==> forall|j: int|
                0 <= j < 1024 ==> (#[trigger] final(self).buffer_at(next as int).buffer@[j]).state()
                    == NodeState::Empty,
            final(self).buffer_at(next as int).head == 0,
            final(self).buffer_at(next as int).position_in_queue == final(self).buffer_at(k as int).position_in_queue
                + 1,
            forall|i: int| 0 <= i < old(self).buffer_count() ==> final(self).buffer_at(i) == old(self).buffer_at(i),
            final(self).stored() == old(self).stored(),
            final(self).reserved() == old(self).reserved(),
    {
        if k + 1 < self.buffers.len() {
            return k + 1;
        }
        self.allocate_next(k)
    }

    /// Reserves the next location for a producer, unless the location
    /// counter is exhausted.
    pub fn reserve(&mut self) -> (r: Option<usize>)
        requires
            old(self).well_formed(),
        ensures
            final(self).well_formed(),
            final(self).start() == old(self).start(),
            final(self).head_loc() == old(self).head_loc(),
            final(self).buffer_at(0).head == old(self).buffer_at(0).head,
            final(self).closed() == old(self).closed(),
            final(self).stored() == old(self).stored(),
            match r {
                Some(l) => {
                    &&& l == old(self).next_location()
                    &&& old(self).next_location() + 4 * 1024 + 1 <= usize::MAX
                    &&& final(self).next_location() == l + 1
                    &&& final(self).reserved() == old(self).reserved().insert(l as int)
                },
                None => {
                    &&& final(self).reserved() == old(self).reserved()
                    &&& final(self).next_location() == old(self).next_location()
                    &&& old(self).next_location() + 4 * 1024 + 1 > usize::MAX
                },
            },
    {
        if self.tail >= usize::MAX - 4 * BUFFER_SIZE {
            return None;
        }
        let location = self.tail;
        self.tail = location + 1;
        proof {
            assert forall|l: int| self.covered(l) implies self.node_at(l) == old(self).node_at(l) by {}
            if self.covered(location as int) {
                self.lemma_locate(location as int);
                let i = (location - self.start()) / 1024;
                let j = (location - self.start()) % 1024;
                self.lemma_node_at(i, j);
            }
            assert(self.stored() =~= old(self).stored());
            assert(self.reserved() =~= old(self).reserved().insert(location as int));
        }
        Some(location)
    }

    /// Writes `data` to the reserved `location`, allocating the buffers up to
    /// it; once the last buffer gets its offset 2 written, its successor is
    /// allocated ahead of need.
    pub fn store(&mut self, location: usize, data: T)
        requires
            old(self).well_formed(),
            old(self).reserved().contains(location as int),
        ensures
            final(self).well_formed(),
            final(self).closed() == old(self).closed(),
            final(self).next_location() == old(self).next_location(),
            final(self).stored() == old(self).stored().insert(location as int, data),
            final(self).stored().contains_key(location as int),
            final(self).reserved() == old(self).reserved().remove(location as int),
            final(self).start() == old(self).start(),
            final(self).head_loc() == old(self).head_loc(),
            final(self).buffer_at(0).head == old(self).buffer_at(0).head,
    {
        let ghost st = self.start();
        let mut k = self.buffers.len() - 1;
        let mut end = self.buffers[k].position_in_queue * BUFFER_SIZE;
        while location >= end
            invariant
                self.well_formed(),
                self.start() == st,
                k == self.buffers.len() - 1,
                end == self.end(),
                self.head_loc() == old(self).head_loc(),
                self.tail == old(self).tail,
                self.closed == old(self).closed,
                self.stored() == old(self).stored(),
                self.reserved() == old(self).reserved(),
                location < self.tail,
            decreases location + 1024 - end,
        {
            k = self.go_to_next(k);
            end = self.buffers[k].position_in_queue * BUFFER_SIZE;
        }
        let mut start = (self.buffers[k].position_in_queue - 1) * BUFFER_SIZE;
        let mut last_buffer = true;
        while location < start
            invariant
                self.well_formed(),
                self.start() == st,
                k < self.buffers.len(),
                start == st + k * 1024,
                location < st + (k + 1) * 1024,
                st <= location,
                last_buffer == (k == self.buffers.len() - 1),
            decreases k,
        {
            k = k - 1;
            last_buffer = false;
            start = (self.buffers[k].position_in_queue - 1) * BUFFER_SIZE;
        }
        let index = location - start;
        let ghost s0 = *self;
        proof {
            s0.lemma_node_at(k as int, index as int);
        }
        self.buffers[k].buffer[index].store(data);
        proof {
            self.lemma_node_at(k as int, index as int);
            assert forall|i: int, j: int|
                #![trigger self.buffers@[i].buffer@[j]]
                0 <= i < self.buffers.len() && 0 <= j < 1024 && !(i == k && j == index) implies self.buffers@[i].buffer@[j]
                == s0.buffers@[i].buffer@[j] by {}
            assert(self.nodes_consistent());
            assert forall|l: int| self.covered(l) && l != location implies self.node_at(l) == s0.node_at(l) by {
                self.lemma_locate(l);
                let i = (l - st) / 1024;
                let j = (l - st) % 1024;
                if i == k && j == index {
                    assert(l == location);
                }
            }
            assert(self.stored() =~= s0.stored().insert(location as int, data));
            assert(self.reserved() =~= s0.reserved().remove(location as int));
        }
        if last_buffer && index == 2 {
            self.allocate_next(k);
        }
    }


    /// Drops the first buffer once the consumer has read all of it and a
    /// successor exists; returns false when the consumer is at the end of the
    /// only buffer.
    pub fn move_to_next_buffer(&mut self) -> (moved: bool)
        requires
            old(self).well_formed(),
        ensures
            final(self).well_formed(),
            final(self).closed() == old(self).closed(),
            final(self).next_location() == old(self).next_location(),
            final(self).stored() == old(self).stored(),
            final(self).reserved() == old(self).reserved(),
            final(self).head_loc() == old(self).head_loc(),
            final(self).end() == old(self).end(),
            moved == !(old(self).buffer_at(0).head >= 1024 && old(self).buffer_count() == 1),
            moved ==> final(self).buffer_at(0).head < 1024,
            old(self).buffer_at(0).head < 1024 ==> *final(self) == *old(self),
    {
        if self.buffers[0].head >= BUFFER_SIZE {
            if self.buffers.len() == 1 {
                return false;
            }
            let ghost s0 = *self;
            let _done = self.buffers.remove(0);
            proof {
                assert(forall|i: int| 0 <= i < self.buffers.len() ==> self.buffers@[i] == s0.buffers@[i + 1]);
                assert(self.start() == s0.start() + 1024);
                assert forall|i: int, j: int|
                    #![trigger self.buffers@[i].buffer@[j]]
                    0 <= i < self.buffers.len() && 0 <= j < 1024 implies self.buffers@[i].buffer@[j]
                    == s0.buffers@[i + 1].buffer@[j] by {}
                assert forall|l: int| self.covered(l) implies self.node_at(l) == s0.node_at(l) by {
                    self.lemma_locate(l);
                    let i = (l - self.start()) / 1024;
                    let j = (l - self.start()) % 1024;
                    self.lemma_node_at(i, j);
                    s0.lemma_node_at(i + 1, j);
                    assert(s0.start() + (i + 1) * 1024 + j == l);
                }
                assert(self.stored() =~= s0.stored());
                assert(self.reserved() =~= s0.reserved());
            }
        }
        true
    }

    /// Looks for the first written node from offset `head` of the first
    /// buffer on; returns the buffer where the search stopped and the offset
    /// of the node found, if any.
    pub fn scan(&self, head: usize) -> (r: (usize, Option<usize>))
        requires
            self.well_formed(),
            head < 1024,
        ensures
            r.0 < self.buffer_count(),
            match r.1 {
                Some(j) => {
                    &&& j < 1024
                    &&& self.buffer_at(r.0 as int).buffer@[j as int].state() == NodeState::Filled
                    &&& self.start() + head <= self.start() + r.0 * 1024 + j
                    &&& forall|l: int|
                        self.start() + head <= l < self.start() + r.0 * 1024 + j ==> self.node_at(l).state()
                            != NodeState::Filled
                },
                None => forall|l: int|
                    self.start() + head <= l < self.end() ==> self.node_at(l).state() != NodeState::Filled,
            },
            head == self.buffer_at(0).head ==> match r.1 {
                Some(j) => is_oldest(self.stored(), self.start() + r.0 * 1024 + j),
                None => self.stored().dom() == Set::<int>::empty(),
            },
    {
        let ghost st = self.start();
        let mut b: usize = 0;
        let mut j: usize = head;
        loop
            invariant
                self.well_formed(),
                st == self.start(),
                b < self.buffers.len(),
                j < 1024,
                head <= b * 1024 + j,
                forall|l: int| st + head <= l < st + b * 1024 + j ==> self.node_at(l).state() != NodeState::Filled,
            decreases (self.buffers.len() - b) * 1024 - j,
        {
            proof {
                self.lemma_node_at(b as int, j as int);
            }
            if self.buffers[b].buffer[j].get_state() == NodeState::Filled {
                proof {
                    if head == self.buffers@[0].head {
                        self.lemma_first_written(head, b as int, j as int);
                    }
                }
                return (b, Some(j));
            }
            j = j + 1;
            if j >= BUFFER_SIZE {
                if b + 1 >= self.buffers.len() {
                    proof {
                        assert(self.end() == st + b * 1024 + j);
                        if head == self.buffers@[0].head {
                            self.lemma_nothing_stored(head);
                        }
                    }
                    return (b, None);
                }
                b = b + 1;
                j = self.buffers[b].head;
            }
        }
    }


    /// Takes the element of the written node at the consumer's head and moves
    /// the head past it.
    fn take_head(&mut self) -> (data: T)
        requires
            old(self).well_formed(),
            old(self).buffer_at(0).head < 1024,
            old(self).buffer_at(0).buffer@[old(self).buffer_at(0).head as int].state() == NodeState::Filled,
        ensures
            final(self).well_formed(),
            final(self).closed() == old(self).closed(),
            final(self).next_location() == old(self).next_location(),
            final(self).reserved() == old(self).reserved(),
            old(self).stored().contains_key(old(self).head_loc()),
            data == old(self).stored()[old(self).head_loc()],
            final(self).stored() == old(self).stored().remove(old(self).head_loc()),
            forall|l: int| old(self).stored().contains_key(l) ==> old(self).head_loc() <= l,
    {
        let head = self.buffers[0].head;
        let ghost s0 = *self;
        let ghost h = s0.head_loc();
        proof {
            s0.lemma_node_at(0, head as int);
            assert(h < s0.tail);
            assert forall|l: int| s0.stored().contains_key(l) implies h <= l by {}
        }
        let data = self.buffers[0].buffer[head].load();
        self.buffers[0].head = head + 1;
        proof {
            assert forall|i: int, j: int|
                #![trigger self.buffers@[i].buffer@[j]]
                0 <= i < self.buffers.len() && 0 <= j < 1024 && !(i == 0 && j == head) implies self.buffers@[i].buffer@[j]
                == s0.buffers@[i].buffer@[j] by {}
            assert(self.buffers@[0].buffer@[head as int].state() == NodeState::Filled);
            assert(self.well_formed());
            self.lemma_node_at(0, head as int);
            assert forall|l: int| self.covered(l) && l != h implies self.node_at(l) == s0.node_at(l) by {
                self.lemma_locate(l);
                let i = (l - self.start()) / 1024;
                let j = (l - self.start()) % 1024;
                if i == 0 && j == head {
                    assert(l == h);
                }
            }
            assert(self.stored() =~= s0.stored().remove(h));
            assert(self.reserved() =~= s0.reserved());
        }
        data
    }

    /// Moves the consumer's head past a handled node.
    fn skip_head(&mut self)
        requires
            old(self).well_formed(),
            old(self).buffer_at(0).head < 1024,
            old(self).buffer_at(0).buffer@[old(self).buffer_at(0).head as int].state() == NodeState::Handled,
        ensures
            final(self).well_formed(),
            final(self).closed() == old(self).closed(),
            final(self).next_location() == old(self).next_location(),
            final(self).reserved() == old(self).reserved(),
            final(self).stored() == old(self).stored(),
            final(self).buffer_count() == old(self).buffer_count(),
            final(self).buffer_at(0).head == old(self).buffer_at(0).head + 1,
    {
        let head = self.buffers[0].head;
        let ghost s0 = *self;
        let ghost h = s0.head_loc();
        proof {
            s0.lemma_node_at(0, head as int);
        }
        self.buffers[0].head = head + 1;
        proof {
            assert forall|i: int, j: int|
                #![trigger self.buffers@[i].buffer@[j]]
                0 <= i < self.buffers.len() && 0 <= j < 1024 implies self.buffers@[i].buffer@[j]
                == s0.buffers@[i].buffer@[j] by {}
            assert(self.well_formed());
            assert forall|l: int| self.covered(l) implies self.node_at(l) == s0.node_at(l) by {}
            assert(self.stored() =~= s0.stored());
            assert(self.reserved() =~= s0.reserved());
        }
    }

    /// Takes the element of the written node `j` of buffer `b` out of order
    /// and marks that node handled.
    fn take_found(&mut self, b: usize, j: usize) -> (data: T)
        requires
            old(self).well_formed(),
            b < old(self).buffer_count(),
            j < 1024,
            old(self).buffer_at(b as int).buffer@[j as int].state() == NodeState::Filled,
            old(self).head_loc() <= old(self).start() + b * 1024 + j,
        ensures
            final(self).well_formed(),
            final(self).closed() == old(self).closed(),
            final(self).next_location() == old(self).next_location(),
            final(self).reserved() == old(self).reserved(),
            old(self).stored().contains_key(old(self).start() + b * 1024 + j),
            data == old(self).stored()[old(self).start() + b * 1024 + j],
            final(self).stored() == old(self).stored().remove(old(self).start() + b * 1024 + j),
    {
        let ghost s0 = *self;
        let ghost l0 = s0.start() + b * 1024 + j;
        proof {
            s0.lemma_node_at(b as int, j as int);
            assert(l0 < s0.tail);
            assert(s0.covered(l0));
        }
        let data = self.buffers[b].buffer[j].load();
        self.buffers[b].buffer[j].handled();
        proof {
            assert forall|i: int, jj: int|
                #![trigger self.buffers@[i].buffer@[jj]]
                0 <= i < self.buffers.len() && 0 <= jj < 1024 && !(i == b && jj == j) implies self.buffers@[i].buffer@[jj]
                == s0.buffers@[i].buffer@[jj] by {}
            assert(self.well_formed());
            self.lemma_node_at(b as int, j as int);
            assert forall|l: int| self.covered(l) && l != l0 implies self.node_at(l) == s0.node_at(l) by {
                self.lemma_locate(l);
                let i = (l - self.start()) / 1024;
                let jj = (l - self.start()) % 1024;
                if i == b && jj == j {
                    assert(l == l0);
                }
            }
            assert(self.stored() =~= s0.stored().remove(l0));
            assert(self.reserved() =~= s0.reserved());
        }
        data
    }

    /// Dequeues the written element at the lowest location, if there is one.
    /// When the head's location is reserved but not yet written, a later
    /// written element is taken instead and its node is marked handled.
    pub fn try_dequeue(&mut self) -> (r: Result<T, DequeueError>)
        requires
            old(self).well_formed(),
        ensures
            final(self).well_formed(),
            final(self).closed() == old(self).closed(),
            final(self).next_location() == old(self).next_location(),
            final(self).reserved() == old(self).reserved(),
            match r {
                Ok(d) => exists|l: int|
                    is_oldest(old(self).stored(), l) && d == old(self).stored()[l] && final(self).stored()
                        == old(self).stored().remove(l),
                Err(e) => {
                    &&& old(self).stored().dom() == Set::<int>::empty()
                    &&& final(self).stored() == old(self).stored()
                    &&& (e == DequeueError::Closed <==> old(self).closed())
                },
            },
    {
        if self.buffers[0].head >= BUFFER_SIZE {
            proof {
                self.lemma_read_through_has_next();
            }
            self.move_to_next_buffer();
            if self.buffers[0].head >= BUFFER_SIZE {
                return Err(DequeueError::Empty);
            }
        }
        while self.buffers[0].buffer[self.buffers[0].head].get_state() == NodeState::Handled
            invariant
                self.well_formed(),
                self.buffers@[0].head < 1024,
                self.closed == old(self).closed,
                self.tail == old(self).tail,
                self.stored() == old(self).stored(),
                self.reserved() == old(self).reserved(),
            decreases self.buffers.len() * 1024 - self.buffers@[0].head,
        {
            self.skip_head();
            proof {
                if self.buffers@[0].head >= 1024 {
                    self.lemma_read_through_has_next();
                }
            }
            if !self.move_to_next_buffer() {
                return Err(DequeueError::Empty);
            }
            if self.buffers[0].head >= BUFFER_SIZE {
                return Err(DequeueError::Empty);
            }
        }
        let head = self.buffers[0].head;
        match self.buffers[0].buffer[head].get_state() {
            NodeState::Filled => {
                let ghost s0 = *self;
                let data = self.take_head();
                self.move_to_next_buffer();
                proof {
                    assert(is_oldest(s0.stored(), s0.head_loc()));
                }
                Ok(data)
            },
            NodeState::Empty => {
                let ghost s0 = *self;
                let (b, found) = self.scan(head);
                let (b, j) = match found {
                    Some(j) => (b, j),
                    None => {
                        if self.closed {
                            let (b2, found2) = self.scan(head);
                            match found2 {
                                Some(j2) => (b2, j2),
                                None => {
                                    return Err(DequeueError::Closed);
                                },
                            }
                        } else {
                            return Err(DequeueError::Empty);
                        }
                    },
                };
                let data = self.take_found(b, j);
                Ok(data)
            },
            NodeState::Handled => Err(DequeueError::Empty),
        }
    }

    /// A first buffer that the consumer has read through has a successor:
    /// its offset 2 was written, so the successor was allocated then.
    proof fn lemma_read_through_has_next(&self)
        requires
            self.well_formed(),
            self.buffers@[0].head >= 1024,
        ensures
            self.buffers.len() >= 2,
    {
        self.lemma_node_at(0, 2);
        assert(self.buffers@[0].buffer@[2].state() != NodeState::Empty);
    }

    /// When no node from the head on is written, nothing is stored.
    proof fn lemma_nothing_stored(&self, head: usize)
        requires
            self.well_formed(),
            head == self.buffers@[0].head,
            forall|l: int|
                self.start() + head <= l < self.end() ==> self.node_at(l).state() != NodeState::Filled,
        ensures
            self.stored().dom() == Set::<int>::empty(),
    {
        assert(self.stored().dom() =~= Set::<int>::empty());
    }

    /// The first written node from the head on holds the oldest stored
    /// element.
    proof fn lemma_first_written(&self, head: usize, b: int, j: int)
        requires
            self.well_formed(),
            head == self.buffers@[0].head,
            0 <= b < self.buffers.len(),
            0 <= j < 1024,
            self.buffers@[b].buffer@[j].state() == NodeState::Filled,
            self.start() + head <= self.start() + b * 1024 + j,
            forall|l: int|
                self.start() + head <= l < self.start() + b * 1024 + j ==> self.node_at(l).state()
                    != NodeState::Filled,
        ensures
            is_oldest(self.stored(), self.start() + b * 1024 + j),
    {
        let l0 = self.start() + b * 1024 + j;
        self.lemma_node_at(b, j);
        assert(l0 < self.end()) by (nonlinear_arith)
            requires
                l0 == self.start() + b * 1024 + j,
                b < self.buffers.len(),
                j < 1024,
                self.end() == self.start() + self.buffers.len() * 1024,
        ;
    }

    /// Enqueues `data` at the next location, unless the queue is closed (or
    /// the location counter is exhausted).
    pub fn enqueue(&mut self, data: T) -> (r: Result<(), (T, EnqueueError)>)
        requires
            old(self).well_formed(),
        ensures
            final(self).well_formed(),
            final(self).start() == old(self).start(),
            final(self).head_loc() == old(self).head_loc(),
            final(self).buffer_at(0).head == old(self).buffer_at(0).head,
            final(self).closed() == old(self).closed(),
            final(self).reserved() == old(self).reserved(),
            match r {
                Ok(()) => {
                    &&& !old(self).closed()
                    &&& final(self).stored() == old(self).stored().insert(
                        old(self).next_location() as int,
                        data,
                    )
                    &&& final(self).next_location() == old(self).next_location() + 1
                },
                Err((d, e)) => {
                    &&& d == data
                    &&& final(self).stored() == old(self).stored()
                    &&& final(self).next_location() == old(self).next_location()
                    &&& (e == EnqueueError::Closed <==> old(self).closed())
                    &&& (e == EnqueueError::Full <==> (!old(self).closed() && old(self).next_location()
                        + 4 * 1024 + 1 > usize::MAX))
                },
            },
    {
        if self.closed {
            return Err((data, EnqueueError::Closed));
        }
        match self.reserve() {
            Some(location) => {
                self.store(location, data);
                proof {
                    assert(self.reserved() =~= old(self).reserved());
                }
                Ok(())
            },
            None => Err((data, EnqueueError::Full)),
        }
    }
}

impl<T> Core for Jiffy<T> {
    open spec fn wf(&self) -> bool {
        self.well_formed()
    }
}

/// What a handle's `is_closed` reads off the shared slot: whether the queue
/// has been closed; a slot without a queue answers `true`.
fn slot_is_closed<T>(slot: &mut Checked<Jiffy<T>>) -> (b: bool)
    ensures
        final(slot).core == old(slot).core,
        b == match old(slot).core {
            Some(q) => q.closed(),
            None => true,
        },
{
    match slot.take() {
        Some(q) => {
            let b = q.is_closed();
            slot.put(q);
            b
        },
        None => true,
    }
}

/// A producer's `enqueue` on the shared slot: the queue's `enqueue`; a slot
/// without a queue answers `Closed` and hands the data back.
fn slot_enqueue<T>(slot: &mut Checked<Jiffy<T>>, data: T) -> (r: Result<(), (T, EnqueueError)>)
    ensures
        old(slot).core is None ==> final(slot).core is None && r == Err::<(), (T, EnqueueError)>(
            (data, EnqueueError::Closed),
        ),
        old(slot).core matches Some(q) ==> final(slot).core matches Some(q2) && q2.closed() == q.closed()
            && q2.reserved() == q.reserved() && match r {
            Ok(()) => {
                &&& !q.closed()
                &&& q2.stored() == q.stored().insert(q.next_location() as int, data)
                &&& q2.next_location() == q.next_location() + 1
            },
            Err((d, e)) => {
                &&& d == data
                &&& q2.stored() == q.stored()
                &&& q2.next_location() == q.next_location()
                &&& (e == EnqueueError::Closed <==> q.closed())
                &&& (e == EnqueueError::Full <==> (!q.closed() && q.next_location() + 4 * 1024 + 1 > usize::MAX))
            },
        },
{
    match slot.take() {
        Some(mut q) => {
            let r = q.enqueue(data);
            slot.put(q);
            r
        },
        None => Err((data, EnqueueError::Closed)),
    }
}

/// The consumer's `try_dequeue` on the shared slot: the queue's
/// `try_dequeue`; a slot without a queue answers `Closed`.
fn slot_try_dequeue<T>(slot: &mut Checked<Jiffy<T>>) -> (r: Result<T, DequeueError>)
    ensures
        old(slot).core is None ==> final(slot).core is None && r == Err::<T, DequeueError>(DequeueError::Closed),
        old(slot).core matches Some(q) ==> final(slot).core matches Some(q2) && q2.closed() == q.closed()
            && q2.next_location() == q.next_location() && q2.reserved() == q.reserved() && match r {
            Ok(d) => exists|l: int|
                is_oldest(q.stored(), l) && d == q.stored()[l] && q2.stored() == q.stored().remove(l),
            Err(e) => {
                &&& q.stored().dom() == Set::<int>::empty()
                &&& q2.stored() == q.stored()
                &&& (e == DequeueError::Closed <==> q.closed())
            },
        },
{
    match slot.take() {
        Some(mut q) => {
            let r = q.try_dequeue();
            slot.put(q);
            r
        },
        None => Err(DequeueError::Closed),
    }
}

/// A producer handle of a Jiffy queue; it can be shared between threads.
#[verifier::reject_recursive_types(T)]
pub struct Sender<T> {
    shared: Arc<Mutex<Checked<Jiffy<T>>>>,
}

/// The consumer handle of a Jiffy queue.
#[verifier::reject_recursive_types(T)]
pub struct Receiver<T> {
    shared: Arc<Mutex<Checked<Jiffy<T>>>>,
    empty_answers: Ghost<nat>,
    closed_answer: Ghost<bool>,
    calls: Ghost<nat>,
}

/// Closes the queue from one side.
fn close_side<T>(shared: &Mutex<Checked<Jiffy<T>>>)
    opens_invariants none
    no_unwind
{
    if let Some(mut g) = acquire(shared) {
        let slot = guarded(&mut g);
        match slot.take() {
            Some(mut q) => {
                q.close();
                slot.put(q);
            },
            None => {},
        }
    }
}

impl<T> Sender<T> {
    /// Whether the queue has been closed by the consumer.
    pub fn is_closed(&self) -> bool {
        match acquire(&*self.shared) {
            Some(mut g) => slot_is_closed(guarded(&mut g)),
            None => true,
        }
    }

    /// Enqueues `data`; fails only when the consumer is gone (or the location
    /// counter is exhausted), handing the data back.
    pub fn enqueue(&self, data: T) -> (r: Result<(), (T, EnqueueError)>)
        ensures
            r matches Err((d, _)) ==> d == data,
    {
        match acquire(&*self.shared) {
            Some(mut g) => slot_enqueue(guarded(&mut g), data),
            None => Err((data, EnqueueError::Closed)),
        }
    }
}

impl<T> Drop for Sender<T> {
    fn drop(&mut self)
        opens_invariants none
        no_unwind
    {
        close_side(&*self.shared);
    }
}

impl<T> Receiver<T> {
    /// How many `Empty` answers in a row `try_dequeue` has given on this
    /// handle, up to now.
    pub closed spec fn empty_run(&self) -> nat {
        self.empty_answers@
    }

    /// Whether the last answer of `try_dequeue` on this handle was `Closed`.
    pub closed spec fn last_closed(&self) -> bool {
        self.closed_answer@
    }

    /// How many times `try_dequeue` has been called on this handle.
    pub closed spec fn tries(&self) -> nat {
        self.calls@
    }

    /// Whether the queue has been closed by the producers. Elements may still
    /// be waiting in it.
    pub fn is_closed(&self) -> bool {
        match acquire(&*self.shared) {
            Some(mut g) => slot_is_closed(guarded(&mut g)),
            None => true,
        }
    }

    /// Dequeues the next element, or says why there is none.
    pub fn try_dequeue(&mut self) -> (r: Result<T, DequeueError>)
        ensures
            final(self).empty_run() == (if r matches Err(DequeueError::Empty) {
                old(self).empty_run() + 1
            } else {
                0
            }),
            final(self).last_closed() == (r matches Err(DequeueError::Closed)),
            final(self).tries() == old(self).tries() + 1,
    {
        let r = match acquire(&*self.shared) {
            Some(mut g) => slot_try_dequeue(guarded(&mut g)),
            None => Err(DequeueError::Closed),
        };
        self.empty_answers = Ghost(
            if r matches Err(DequeueError::Empty) {
                self.empty_answers@ + 1
            } else {
                0
            },
        );
        self.closed_answer = Ghost(r matches Err(DequeueError::Closed));
        self.calls = Ghost(self.calls@ + 1);
        r
    }

    /// Retries `try_dequeue` while the queue is empty: `Some` with the
    /// element it got, `None` once `try_dequeue` answers `Closed` (closed and
    /// drained), or once it has answered `Empty` `u64::MAX + 1` times in a
    /// row. An `Empty` answer alone never ends it.
    pub fn dequeue(&mut self) -> (r: Option<T>)
        ensures
            final(self).tries() > old(self).tries(),
            r is Some ==> final(self).empty_run() == 0 && !final(self).last_closed(),
            r is None ==> final(self).last_closed() || final(self).empty_run() == old(self).empty_run()
                + u64::MAX + 1,
    {
        let mut attempts: u64 = 0;
        loop
            invariant
                self.empty_run() == old(self).empty_run() + attempts,
                self.tries() == old(self).tries() + attempts,
            decreases u64::MAX - attempts,
        {
            match self.try_dequeue() {
                Ok(d) => return Some(d),
                Err(DequeueError::Closed) => return None,
                Err(DequeueError::Empty) => {
                    if attempts == u64::MAX {
                        return None;
                    }
                    attempts = attempts + 1;
                },
            }
        }
    }

    /// An iterator over the elements that borrows the receiver.
    pub fn iter_mut(&mut self) -> (r: RefIter<'_, T>)
        ensures
            r.receiver() == *old(self),
    {
        RefIter::new(self)
    }

    /// An iterator over the elements that owns the receiver.
    pub fn into_iter(self) -> (r: OwnedIter<T>)
        ensures
            r.receiver() == self,
    {
        OwnedIter::new(self)
    }
}

impl<T> Drop for Receiver<T> {
    fn drop(&mut self)
        opens_invariants none
        no_unwind
    {
        close_side(&*self.shared);
    }
}

/// Creates an empty queue and returns its (receiver, sender).
pub fn queue<T>() -> (r: (Receiver<T>, Sender<T>))
    ensures
        r.0.empty_run() == 0,
        !r.0.last_closed(),
{
    let shared = Arc::new(new_lock(Checked::new(Jiffy::new())));
    (Receiver { shared: shared.clone(), empty_answers: Ghost(0), closed_answer: Ghost(false), calls: Ghost(0) }, Sender { shared })
}

} // verus!
