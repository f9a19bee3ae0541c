//! NCQ: a ring of `n` entries, each holding the cycle in which it was last
//! written (upper 32 bits) and an index (lower 32 bits). Position `p` lives in
//! entry `p % n` during cycle `p / n`; an entry whose cycle equals the head's
//! cycle holds the next index to dequeue.

use vstd::prelude::*;

use super::{lemma_cycle_ordered, lemma_div_below, lemma_next_turn, lemma_same_slot, UnderlyingQueue};

verus! {

/// The cycle half of a packed entry.
pub open spec fn cycle_of(entry: u64) -> u32 {
    (entry >> 32u64) as u32
}

/// The index half of a packed entry.
pub open spec fn index_of(entry: u64) -> u32 {
    entry as u32
}

/// The packed entry for `(cycle, index)`.
pub open spec fn pack(cycle: u32, index: u32) -> u64 {
    ((cycle as u64) << 32u64) | (index as u64)
}

/// Unpacking a packed entry gives back its cycle and index.
pub proof fn lemma_pack_unpack(cycle: u32, index: u32)
    ensures
        cycle_of(pack(cycle, index)) == cycle,
        index_of(pack(cycle, index)) == index,
{
    let c = cycle as u64;
    let i = index as u64;
    assert(c <= 0xffffffffu64 && i <= 0xffffffffu64);
    assert(((c << 32u64) | i) >> 32u64 == c) by (bit_vector)
        requires
            c <= 0xffffffffu64,
            i <= 0xffffffffu64,
    ;
    assert(((c << 32u64) | i) & 0xffffffffu64 == i) by (bit_vector)
        requires
            c <= 0xffffffffu64,
            i <= 0xffffffffu64,
    ;
    assert(((((c << 32u64) | i) & 0xffffffffu64) as u32) == (((c << 32u64) | i) as u32)) by (bit_vector);
}

/// One entry of the ring.
pub struct QueueEntry(u64);

impl QueueEntry {
    /// The packed value of the entry.
    pub closed spec fn raw(&self) -> u64 {
        self.0
    }

    /// An entry with cycle 0 and index 0.
    pub fn new() -> (e: Self)
        ensures
            e.raw() == 0,
    {
        QueueEntry(0)
    }

    /// The packed value of the entry.
    pub fn load(&self) -> (v: u64)
        ensures
            v == self.raw(),
    {
        self.0
    }

    /// Replaces the entry by `(cycle, index)` if it still holds `previous`;
    /// returns the value it held.
    pub fn cas(&mut self, previous: u64, cycle: u32, index: u32) -> (r: Result<u64, u64>)
        ensures
            old(self).raw() == previous ==> r == Ok::<u64, u64>(previous) && final(self).raw() == pack(
                cycle,
                index,
            ),
            old(self).raw() != previous ==> r == Err::<u64, u64>(old(self).raw()) && final(self).raw()
                == old(self).raw(),
    {
        let value: u64 = ((cycle as u64) << 32u64) | (index as u64);
        if self.0 == previous {
            self.0 = value;
            Ok(previous)
        } else {
            Err(self.0)
        }
    }

    /// The cycle half of a packed entry.
    pub fn cycle(entry: u64) -> (c: u32)
        ensures
            c == cycle_of(entry),
    {
        (entry >> 32u64) as u32
    }

    /// The index half of a packed entry.
    pub fn index(entry: u64) -> (i: u32)
        ensures
            i == index_of(entry),
    {
        entry as u32
    }
}

/// An NCQ queue of indices.
pub struct Queue {
    entries: Vec<QueueEntry>,
    head: usize,
    tail: usize,
    items: Ghost<Seq<usize>>,
}

impl Queue {
    /// The packed entry that position `p` falls into.
    spec fn raw_at(&self, p: int) -> u64 {
        self.entries@[p % (self.entries.len() as int)].raw()
    }

    /// The tail position: the number of enqueues plus the capacity.
    pub closed spec fn tail_position(&self) -> nat {
        self.tail as nat
    }

    /// The `n` positions before the tail each sit in their own entry with their
    /// own cycle; those from the head on hold the queued indices.
    pub closed spec fn wf(&self) -> bool {
        let n = self.entries.len() as int;
        &&& 0 < n <= u32::MAX
        &&& self.head <= self.tail <= self.head + n
        &&& n <= self.tail
        &&& (self.tail as int) / n < u32::MAX
        &&& self.items@.len() == self.tail - self.head
        &&& forall|p: int|
            self.tail - n <= p < self.tail ==> cycle_of(#[trigger] self.raw_at(p)) == (p / n) as u32
        &&& forall|p: int|
            self.head <= p < self.tail ==> index_of(#[trigger] self.raw_at(p)) as usize == self.items@[p
                - self.head]
        &&& forall|k: int| 0 <= k < self.items@.len() ==> #[trigger] self.items@[k] <= u32::MAX
    }

    /// Creates an empty queue with room for `capacity` indices.
    pub fn new(capacity: usize) -> (q: Self)
        requires
            0 < capacity <= u32::MAX,
        ensures
            q.wf(),
            q.view() == Seq::<usize>::empty(),
            q.spec_capacity() == capacity,
            q.tail_position() == capacity,
    {
        let mut entries: Vec<QueueEntry> = Vec::with_capacity(capacity);
        let mut i: usize = 0;
        while i < capacity
            invariant
                i <= capacity,
                entries.len() == i,
                forall|j: int| 0 <= j < i ==> (#[trigger] entries@[j]).raw() == 0,
            decreases capacity - i,
        {
            entries.push(QueueEntry::new());
            i = i + 1;
        }
        let q = Queue { entries, head: capacity, tail: capacity, items: Ghost(Seq::empty()) };
        proof {
            let n = capacity as int;
            assert forall|p: int| q.tail - n <= p < q.tail implies cycle_of(#[trigger] q.raw_at(p)) == (p
                / n) as u32 by {
                vstd::arithmetic::div_mod::lemma_small_mod(p as nat, n as nat);
                vstd::arithmetic::div_mod::lemma_basic_div(p, n);
                assert(q.raw_at(p) == 0);
                assert(cycle_of(0u64) == 0u32) by (bit_vector);
            }
            assert(capacity as int / n == 1) by {
                vstd::arithmetic::div_mod::lemma_div_by_self(n);
            }
        }
        q
    }

    /// The indices in the queue, oldest first.
    pub closed spec fn view(&self) -> Seq<usize> {
        self.items@
    }

    /// The number of entries.
    pub closed spec fn spec_capacity(&self) -> nat {
        self.entries.len() as nat
    }

    /// The cycle of position `tail` in a ring of `capacity` entries.
    pub fn cycle(tail: usize, capacity: usize) -> (c: u32)
        requires
            capacity > 0,
            tail / capacity <= u32::MAX,
        ensures
            c == tail / capacity,
    {
        (tail / capacity) as u32
    }

    /// The entry `raw_at(p)` for a position of the window.
    proof fn lemma_slot(&self, p: int)
        requires
            self.wf(),
            0 <= p,
        ensures
            0 <= p % (self.entries.len() as int) < self.entries.len(),
    {
        vstd::arithmetic::div_mod::lemma_mod_bound(p, self.entries.len() as int);
    }
}

/// For a queue of `n` entries: the tail position below which the tail can
/// still move by two and its cycle still fits in 32 bits.
pub open spec fn ncq_position_limit(n: nat) -> nat {
    if usize::MAX - 2 <= u32::MAX * n - 1 {
        (usize::MAX - 2) as nat
    } else {
        (u32::MAX * n - 1) as nat
    }
}

impl UnderlyingQueue for Queue {
    open spec fn well_formed(&self) -> bool {
        self.wf()
    }

    open spec fn indices(&self) -> Seq<usize> {
        self.view()
    }

    open spec fn capacity(&self) -> nat {
        self.spec_capacity()
    }

    open spec fn position(&self) -> nat {
        self.tail_position()
    }

    open spec fn has_room(&self) -> bool {
        &&& self.tail_position() + 2 < usize::MAX
        &&& (self.tail_position() + 1) / self.spec_capacity() < u32::MAX
    }

    open spec fn position_limit(&self) -> nat {
        ncq_position_limit(self.spec_capacity())
    }

    proof fn lemma_room_below_limit(&self) {
        lemma_div_below(self.tail_position() + 1int, u32::MAX as int, self.spec_capacity() as int);
    }

    proof fn lemma_capacity_fits(&self) {
    }

    fn has_any(&self) -> (b: bool) {
        self.head < self.tail
    }

    fn room(&self) -> (b: bool) {
        let n = self.entries.len();
        self.tail < usize::MAX - 2 && (self.tail + 1) / n < u32::MAX as usize
    }

    fn enqueue(&mut self, index: usize) {
        let n = self.entries.len();
        let tail = self.tail;
        let ghost ni = n as int;
        let ghost prev = tail as int - ni;
        proof {
            lemma_next_turn(prev, ni);
            self.lemma_slot(tail as int);
        }
        let tail_cycle = Self::cycle(tail, n);
        let j = tail % n;
        let raw_entry = self.entries[j].load();
        let entry_cycle = QueueEntry::cycle(raw_entry);
        assert(raw_entry == self.raw_at(prev));
        assert(entry_cycle as int + 1 == tail_cycle as int);
        let ghost old_self = *self;
        let r = self.entries[j].cas(raw_entry, tail_cycle, index as u32);
        self.tail = tail + 1;
        self.items = Ghost(self.items@.push(index));
        proof {
            lemma_pack_unpack(tail_cycle, index as u32);
            assert forall|p: int| self.tail - ni <= p < self.tail implies cycle_of(#[trigger] self.raw_at(p))
                == (p / ni) as u32 by {
                if p != tail {
                    old_self.lemma_slot(p);
                    if p % ni == tail as int % ni {
                        lemma_same_slot(p, tail as int, ni);
                    }
                    assert(self.raw_at(p) == old_self.raw_at(p));
                }
            }
            assert forall|p: int| self.head <= p < self.tail implies index_of(#[trigger] self.raw_at(p)) as usize
                == self.items@[p - self.head] by {
                if p != tail {
                    old_self.lemma_slot(p);
                    if p % ni == tail as int % ni {
                        lemma_same_slot(p, tail as int, ni);
                    }
                    assert(self.raw_at(p) == old_self.raw_at(p));
                }
            }
        }
    }

    fn dequeue(&mut self) -> (r: Option<usize>) {
        let n = self.entries.len();
        let head = self.head;
        let ghost ni = n as int;
        proof {
            lemma_cycle_ordered(head as int, self.tail as int, ni);
            self.lemma_slot(head as int);
        }
        let head_cycle = Self::cycle(head, n);
        let j = head % n;
        let raw_entry = self.entries[j].load();
        let entry_cycle = QueueEntry::cycle(raw_entry);
        if entry_cycle != head_cycle {
            proof {
                if head < self.tail {
                    assert(raw_entry == self.raw_at(head as int));
                }
            }
            return None;
        }
        proof {
            if head == self.tail {
                let prev = head as int - ni;
                lemma_next_turn(prev, ni);
                assert(raw_entry == self.raw_at(prev));
            }
            assert(raw_entry == self.raw_at(head as int));
            assert(head < self.tail);
        }
        let ghost old_self = *self;
        self.head = head + 1;
        self.items = Ghost(self.items@.drop_first());
        proof {
            assert forall|p: int| self.head <= p < self.tail implies index_of(#[trigger] self.raw_at(p)) as usize
                == self.items@[p - self.head] by {
                assert(self.raw_at(p) == old_self.raw_at(p));
                assert(old_self.items@[p - old_self.head] == self.items@[p - self.head]);
            }
            assert forall|k: int| 0 <= k < self.items@.len() implies #[trigger] self.items@[k] <= u32::MAX by {
                assert(self.items@[k] == old_self.items@[k + 1]);
            }
            assert forall|p: int| self.tail - ni <= p < self.tail implies cycle_of(#[trigger] self.raw_at(p))
                == (p / ni) as u32 by {
                assert(self.raw_at(p) == old_self.raw_at(p));
            }
        }
        Some(QueueEntry::index(raw_entry) as usize)
    }
}

} // verus!
