//! SCQ: a ring of `2n` entries for at most `n` indices. Each entry packs a
//! "safe" flag, the cycle in which it was last written and an index; an entry
//! whose index is `2n - 1` (the invalid index) holds nothing. A threshold
//! counter lets a dequeue on a queue that stayed empty return at once.

use vstd::prelude::*;

use super::{lemma_cycle_ordered, lemma_div_below, lemma_next_turn, lemma_same_slot, UnderlyingQueue};

pub mod entry_data;
use entry_data::{cycle_of, index_of, lemma_pack_unpack, pack, safe_of, QueueEntryData};

verus! {

/// One entry of the ring.
#[derive(Debug)]
pub struct QueueEntry(u64);

impl QueueEntry {
    /// The packed value of the entry.
    pub closed spec fn raw(&self) -> u64 {
        self.0
    }

    /// An empty, safe entry of cycle 0.
    pub fn new(invalid_index: u32) -> (e: Self)
        ensures
            e.raw() == pack(true, 0, invalid_index),
    {
        let data = QueueEntryData::new(true, 0, invalid_index);
        QueueEntry(data.into_raw())
    }

    /// The decoded entry.
    pub fn load(&self) -> (d: QueueEntryData)
        ensures
            d.raw() == self.raw(),
    {
        QueueEntryData::from_raw(self.0)
    }

    /// Replaces the entry by `new` if it still holds `current`; returns the
    /// value it held.
    pub fn cas(&mut self, current: QueueEntryData, new: QueueEntryData) -> (r: Result<u64, u64>)
        ensures
            old(self).raw() == current.raw() ==> r == Ok::<u64, u64>(current.raw()) && final(self).raw()
                == new.raw(),
            old(self).raw() != current.raw() ==> r == Err::<u64, u64>(old(self).raw()) && final(self).raw()
                == old(self).raw(),
    {
        let c = current.into_raw();
        if self.0 == c {
            self.0 = new.into_raw();
            Ok(c)
        } else {
            Err(self.0)
        }
    }

    /// Overwrites the entry with `new`.
    pub fn store(&mut self, new: QueueEntryData)
        ensures
            final(self).raw() == new.raw(),
    {
        self.0 = new.into_raw();
    }
}

/// An SCQ queue of indices.
pub struct Queue {
    size: usize,
    invalid_index: u32,
    entries: Vec<QueueEntry>,
    head: usize,
    tail: usize,
    threshold: isize,
    items: Ghost<Seq<usize>>,
}

impl Queue {
    /// The packed entry that position `p` falls into.
    spec fn raw_at(&self, p: int) -> u64 {
        self.entries@[p % (self.entries.len() as int)].raw()
    }

    /// The furthest position that the head or the tail has reached.
    pub closed spec fn top(&self) -> nat {
        if self.head <= self.tail {
            self.tail as nat
        } else {
            self.head as nat
        }
    }

    /// The entry that position `p` of the window must hold: an index for the
    /// positions from the head to the tail, nothing for the others.
    spec fn expected(&self, p: int) -> u64 {
        let m = self.entries.len() as int;
        if self.head <= p < self.tail {
            pack(true, (p / m) as u32, self.items@[p - self.head] as u32)
        } else {
            pack(true, (p / m) as u32, self.invalid_index)
        }
    }

    /// The `2n` positions before the top each sit in their own entry, tagged
    /// with their own cycle; the head runs at most one position past the tail,
    /// and only on an empty queue.
    pub closed spec fn wf(&self) -> bool {
        let n = self.size as int;
        let m = self.entries.len() as int;
        let top = self.top() as int;
        &&& 0 < n
        &&& m == 2 * n
        &&& 2 * n - 1 <= u32::MAX
        &&& 3 * n - 1 <= isize::MAX
        &&& self.invalid_index == 2 * n - 1
        &&& self.head <= self.tail + 1
        &&& (self.head <= self.tail ==> self.tail - self.head <= n)
        &&& self.items@.len() == (if self.head <= self.tail {
            self.tail - self.head
        } else {
            0
        })
        &&& m <= self.tail
        &&& m <= self.head
        &&& top / m < 0x7fffffff
        &&& forall|p: int| top - m <= p < top ==> #[trigger] self.raw_at(p) == self.expected(p)
        &&& forall|k: int| 0 <= k < self.items@.len() ==> #[trigger] self.items@[k] <= u32::MAX
        &&& -1 <= self.threshold <= 3 * n - 1
        &&& (self.items@.len() > 0 ==> self.threshold == 3 * n - 1)
    }

    /// The indices in the queue, oldest first.
    pub closed spec fn view(&self) -> Seq<usize> {
        self.items@
    }

    /// The number of indices the queue can hold.
    pub closed spec fn spec_size(&self) -> nat {
        self.size as nat
    }

    /// Creates an empty queue with room for `capacity` indices.
    pub fn new(capacity: usize) -> (q: Self)
        requires
            0 < capacity,
            2 * capacity - 1 <= u32::MAX,
            3 * capacity - 1 <= isize::MAX,
        ensures
            q.wf(),
            q.view() == Seq::<usize>::empty(),
            q.spec_size() == capacity,
            q.top() == 2 * capacity,
    {
        let invalid_index = (2 * capacity - 1) as u32;
        let m = capacity * 2;
        let mut entries: Vec<QueueEntry> = Vec::with_capacity(m);
        let mut i: usize = 0;
        while i < m
            invariant
                m == 2 * capacity,
                i <= m,
                entries.len() == i,
                forall|j: int| 0 <= j < i ==> (#[trigger] entries@[j]).raw() == pack(true, 0, invalid_index),
            decreases m - i,
        {
            entries.push(QueueEntry::new(invalid_index));
            i = i + 1;
        }
        let q = Queue {
            size: capacity,
            invalid_index,
            entries,
            head: capacity * 2,
            tail: capacity * 2,
            threshold: -1,
            items: Ghost(Seq::empty()),
        };
        proof {
            let m = 2 * capacity as int;
            assert forall|p: int| q.top() - m <= p < q.top() implies #[trigger] q.raw_at(p) == q.expected(p) by {
                vstd::arithmetic::div_mod::lemma_small_mod(p as nat, m as nat);
                vstd::arithmetic::div_mod::lemma_basic_div(p, m);
            }
            assert(m / m == 1) by {
                vstd::arithmetic::div_mod::lemma_div_by_self(m);
            }
        }
        q
    }

    /// The cycle of position `raw` in a ring for `capacity` indices.
    fn cycle(raw: usize, capacity: usize) -> (c: u32)
        requires
            capacity > 0,
            2 * capacity <= usize::MAX,
            (raw as int) / (2 * capacity as int) <= u32::MAX,
        ensures
            c == (raw as int) / (2 * capacity as int),
    {
        (raw / (capacity * 2)) as u32
    }

    /// Moves the tail up to `head` when it still is at `tail`.
    fn catchup(&mut self, head: usize, tail: usize)
        ensures
            old(self).tail == tail ==> final(self).tail == head,
            old(self).tail != tail ==> final(self).tail == old(self).tail,
            final(self).head == old(self).head,
            final(self).entries == old(self).entries,
            final(self).items == old(self).items,
            final(self).threshold == old(self).threshold,
            final(self).size == old(self).size,
            final(self).invalid_index == old(self).invalid_index,
    {
        if self.tail == tail {
            self.tail = head;
        }
    }

    proof fn lemma_slot(&self, p: int)
        requires
            self.entries.len() > 0,
            0 <= p,
        ensures
            0 <= p % (self.entries.len() as int) < self.entries.len(),
    {
        vstd::arithmetic::div_mod::lemma_mod_bound(p, self.entries.len() as int);
    }

    /// Two positions of one window that fall into the same entry are equal.
    proof fn lemma_window(&self, p: int, q: int, lo: int)
        requires
            self.entries.len() > 0,
            0 <= lo <= p < lo + self.entries.len(),
            lo <= q < lo + self.entries.len(),
            p % (self.entries.len() as int) == q % (self.entries.len() as int),
        ensures
            p == q,
    {
        let m = self.entries.len() as int;
        if p <= q {
            lemma_same_slot(p, q, m);
        } else {
            lemma_same_slot(q, p, m);
        }
    }
}

/// A 31-bit cycle survives the mask that packing applies.
proof fn lemma_small_cycle(c: u32)
    requires
        c < 0x7fffffffu32,
    ensures
        c & 0x7fffffffu32 == c,
{
    assert(c < 0x7fffffffu32 ==> c & 0x7fffffffu32 == c) by (bit_vector);
}

/// For a queue of `n` indices (`2 * n` entries): the position below which
/// the counters can still move by three and their cycle still fits in 31
/// bits.
pub open spec fn scq_position_limit(n: nat) -> nat {
    if usize::MAX - 3 <= 0x7fffffff * (2 * n) - 2 {
        (usize::MAX - 3) as nat
    } else {
        (0x7fffffff * (2 * n) - 2) as nat
    }
}

impl UnderlyingQueue for Queue {
    open spec fn well_formed(&self) -> bool {
        self.wf()
    }

    open spec fn indices(&self) -> Seq<usize> {
        self.view()
    }

    open spec fn capacity(&self) -> nat {
        self.spec_size()
    }

    open spec fn position(&self) -> nat {
        self.top()
    }

    open spec fn has_room(&self) -> bool {
        &&& self.top() + 3 < usize::MAX
        &&& (self.top() + 2) / (2 * self.spec_size()) < 0x7fffffff
    }

    open spec fn position_limit(&self) -> nat {
        scq_position_limit(self.spec_size())
    }

    proof fn lemma_room_below_limit(&self) {
        lemma_div_below(self.top() + 2int, 0x7fffffff, 2 * self.spec_size() as int);
    }

    proof fn lemma_capacity_fits(&self) {
    }

    fn has_any(&self) -> (b: bool) {
        self.head < self.tail
    }

    fn room(&self) -> (b: bool) {
        let top = if self.head <= self.tail { self.tail } else { self.head };
        top < usize::MAX - 3 && (top + 2) / (2 * self.size) < 0x7fffffff
    }

    fn enqueue(&mut self, index: usize) {
        let ghost items0 = self.items@;
        let ghost top0 = self.top();
        loop
            invariant
                self.wf(),
                self.items@ == items0,
                self.top() == top0,
                self.size == old(self).size,
                items0 == old(self).items@,
                top0 == old(self).top(),
                top0 + 3 < usize::MAX,
                (top0 + 2) as int / (2 * self.size as int) < 0x7fffffff,
                self.items@.len() < self.size,
                index <= u32::MAX,
            ensures
                self.wf(),
                self.items@ == items0.push(index),
                self.top() <= top0 + 2,
            decreases self.head + 2 - self.tail,
        {
            let m = self.size * 2;
            let tail = self.tail;
            let ghost mi = m as int;
            let ghost ti = tail as int;
            let ghost s0 = *self;
            proof {
                lemma_cycle_ordered(ti, top0 as int, mi);
                self.lemma_slot(ti);
            }
            self.tail = tail + 1;
            let tail_cycle = Self::cycle(tail, self.size);
            let j = tail % m;
            let raw_entry = self.entries[j].load();
            let entry_cycle = raw_entry.cycle();
            let entry_index = raw_entry.index();
            if entry_cycle < tail_cycle && entry_index == self.invalid_index && (raw_entry.is_safe() || self.head
                <= tail) {
                let ghost old_self = s0;
                let new_value = QueueEntryData::new(true, tail_cycle, index as u32);
                let _ = self.entries[j].cas(raw_entry, new_value);
                let thres_chk = (self.size * 3 - 1) as isize;
                if self.threshold != thres_chk {
                    self.threshold = thres_chk;
                }
                self.items = Ghost(self.items@.push(index));
                proof {
                    // The tail was at the top: the entry held position tail - 2n.
                    assert(self.head <= ti) by {
                        if self.head == ti + 1 {
                            // the marked position `tail` has the tail's cycle
                            assert(old_self.raw_at(ti) == old_self.expected(ti));
                            lemma_pack_unpack(true, (ti / mi) as u32, self.invalid_index);
                            lemma_small_cycle((ti / mi) as u32);
                        }
                    }
                    lemma_small_cycle(tail_cycle);
                    lemma_pack_unpack(true, tail_cycle, index as u32);
                    assert forall|p: int| self.top() - mi <= p < self.top() implies #[trigger] self.raw_at(p)
                        == self.expected(p) by {
                        if p != ti {
                            old_self.lemma_slot(p);
                            if p % mi == ti % mi {
                                self.lemma_window(p, ti, ti + 1 - mi);
                            }
                            assert(self.raw_at(p) == old_self.raw_at(p));
                            assert(self.expected(p) == old_self.expected(p));
                        }
                    }
                    lemma_cycle_ordered(ti + 1, top0 + 2int, mi);
                    assert forall|k: int| 0 <= k < self.items@.len() implies #[trigger] self.items@[k]
                        <= u32::MAX by {
                        if k < items0.len() {
                            assert(self.items@[k] == items0[k]);
                        }
                    }
                }
                return;
            }
            proof {
                let prev = ti - mi;
                lemma_next_turn(prev, mi);
                if self.head <= ti {
                    // the entry holds position tail - 2n, which is free
                    assert(s0.raw_at(prev) == s0.expected(prev));
                    lemma_pack_unpack(true, (prev / mi) as u32, self.invalid_index);
                    lemma_small_cycle((prev / mi) as u32);
                    assert(false);
                }
                assert forall|p: int| self.top() - mi <= p < self.top() implies #[trigger] self.raw_at(p)
                    == self.expected(p) by {
                    assert(self.raw_at(p) == s0.raw_at(p));
                    assert(self.expected(p) == s0.expected(p));
                }
            }
        }
    }

    fn dequeue(&mut self) -> (r: Option<usize>) {
        if self.threshold < 0 {
            return None;
        }
        let ghost top0 = self.top();
        let m = self.size * 2;
        let head = self.head;
        let ghost mi = m as int;
        let ghost hi = head as int;
        let ghost old_self = *self;
        proof {
            lemma_cycle_ordered(hi, self.top() as int, mi);
            self.lemma_slot(hi);
        }
        self.head = head + 1;
        let head_cycle = Self::cycle(head, self.size);
        let j = head % m;
        let entry_data = self.entries[j].load();
        let entry_cycle = entry_data.cycle();
        let entry_index = entry_data.index();
        let entry_safe = entry_data.is_safe();
        if entry_cycle == head_cycle {
            proof {
                if hi >= old_self.tail {
                    let prev = hi - mi;
                    lemma_next_turn(prev, mi);
                    assert(old_self.raw_at(prev) == old_self.expected(prev));
                    lemma_pack_unpack(true, (prev / mi) as u32, self.invalid_index);
                    lemma_small_cycle((prev / mi) as u32);
                    assert(false);
                }
                assert(old_self.raw_at(hi) == old_self.expected(hi));
                lemma_small_cycle(head_cycle);
                lemma_pack_unpack(true, head_cycle, old_self.items@[0] as u32);
            }
            self.entries[j].store(QueueEntryData::new(entry_safe, entry_cycle, self.invalid_index));
            self.items = Ghost(self.items@.drop_first());
            proof {
                lemma_pack_unpack(true, head_cycle, self.invalid_index);
                assert forall|p: int| self.top() - mi <= p < self.top() implies #[trigger] self.raw_at(p)
                    == self.expected(p) by {
                    if p != hi {
                        old_self.lemma_slot(p);
                        if p % mi == hi % mi {
                            self.lemma_window(p, hi, self.top() - mi);
                        }
                        assert(self.raw_at(p) == old_self.raw_at(p));
                        if self.head <= p < self.tail {
                            assert(self.items@[p - self.head] == old_self.items@[p - old_self.head]);
                        }
                    }
                }
                assert forall|k: int| 0 <= k < self.items@.len() implies #[trigger] self.items@[k] <= u32::MAX by {
                    assert(self.items@[k] == old_self.items@[k + 1]);
                }
            }
            return Some(entry_index as usize);
        }
        // The queue is empty: the entry still holds position head - 2n.
        proof {
            let prev = hi - mi;
            lemma_next_turn(prev, mi);
            if hi < old_self.tail {
                assert(old_self.raw_at(hi) == old_self.expected(hi));
                lemma_small_cycle(head_cycle);
                lemma_pack_unpack(true, head_cycle, old_self.items@[0] as u32);
                assert(false);
            }
            assert(old_self.raw_at(prev) == old_self.expected(prev));
            lemma_pack_unpack(true, (prev / mi) as u32, self.invalid_index);
            lemma_small_cycle((prev / mi) as u32);
            lemma_small_cycle(head_cycle);
        }
        let new = if entry_index == self.invalid_index {
            QueueEntryData::new(entry_safe, head_cycle, self.invalid_index)
        } else {
            QueueEntryData::new(false, entry_cycle, entry_index)
        };
        if entry_cycle < head_cycle {
            let _ = self.entries[j].cas(entry_data, new);
        }
        let tail = self.tail;
        self.catchup(head, tail);
        self.threshold = self.threshold - 1;
        proof {
            lemma_cycle_ordered(hi + 1, top0 + 2int, mi);
            lemma_pack_unpack(true, head_cycle, self.invalid_index);
            assert forall|p: int| self.top() - mi <= p < self.top() implies #[trigger] self.raw_at(p)
                == self.expected(p) by {
                if p != hi {
                    old_self.lemma_slot(p);
                    if p % mi == hi % mi {
                        self.lemma_window(p, hi, self.top() - mi);
                    }
                    assert(self.raw_at(p) == old_self.raw_at(p));
                    assert(self.expected(p) == old_self.expected(p));
                }
            }
        }
        None
    }
}

} // verus!
