//! A compact SCQ variant that keeps cycle and index in one word per entry,
//! using bit masks over a ring of `2^(order + 1)` entries.
//!
//! The queue runs on one thread at a time here (`&mut self`), so every
//! compare-and-swap of the lock-free design succeeds on its first try and
//! the loops that retry them collapse. What remains is a walk over positions:
//! an enqueue walks the tail until it finds an entry it may use, a dequeue
//! walks the head until it finds an entry of its cycle, meets the tail, or
//! runs out of threshold. Where such a walk would never end (or would index
//! past the ring), the operations leave the state out by `requires`. An
//! entry that is still zero as built counts as empty for an enqueue in the
//! first cycle, so a queue built empty takes enqueues from position 0 on.
//! The index field of an entry has `order + 1` bits: an index at or above
//! the ring size does not survive the round trip.

use vstd::arithmetic::power2::{lemma_pow2_adds, lemma_pow2_pos, lemma_pow2_strictly_increases, lemma_pow2_unfold, pow2};
use vstd::bits::{lemma_usize_low_bits_mask_is_mod, lemma_usize_pow2_no_overflow, lemma_usize_shl_is_mul, low_bits_mask};
use vstd::prelude::*;

verus! {

/// The cycle word of position `p` in a ring of `n` entries: `p` shifted up
/// by one bit, with the low `log2(n) + 1` bits set.
pub open spec fn cycle_word(p: usize, n: nat) -> u64 {
    ((p << 1usize) | ((2 * n - 1) as usize)) as u64
}

/// Whether an enqueue whose tail is at `t` may use the entry at `t % n`:
/// either the entry is still zero as built and `t` is in the first cycle
/// (a fresh entry counts as empty), or the entry is of an older cycle and
/// either consumed (all its low bits set) or empty and not ahead of the head.
pub open spec fn usable(entries: Seq<u64>, head: usize, t: usize, n: nat) -> bool {
    let entry = entries[((t as nat) % n) as int];
    let e_cycle = entry | ((2 * n - 1) as u64);
    ||| (entry == 0 && e_cycle == cycle_word(t, n))
    ||| (e_cycle < cycle_word(t, n) && (entry == e_cycle || (entry == e_cycle ^ (n as u64) && head <= t)))
}

/// Whether an enqueue of `index` that starts with the tail at `t0` over
/// `entries` used position `t`, leaving `entries2` and the tail at `t2`:
/// `t` is the first usable position from `t0` on, the entry there now holds
/// the cycle word of `t` with the low bits of `index` flipped, and the tail
/// is past `t`.
pub open spec fn enqueued_at(
    entries: Seq<u64>,
    head: usize,
    t0: usize,
    n: nat,
    index: usize,
    t: usize,
    entries2: Seq<u64>,
    t2: usize,
) -> bool {
    &&& t0 <= t
    &&& usable(entries, head, t, n)
    &&& forall|u: usize| t0 <= u < t ==> !#[trigger] usable(entries, head, u, n)
    &&& t2 == t + 1
    &&& entries2 == entries.update(
        ((t as nat) % n) as int,
        cycle_word(t, n) ^ ((index ^ ((n - 1) as usize)) as u64),
    )
}

/// The entry that a dequeue at position `h` leaves behind when the cycle
/// of the entry does not match: it clears bit `n` of an entry of an older
/// cycle.
pub open spec fn cleaned(entries: Seq<u64>, h: usize, n: nat) -> Seq<u64> {
    let idx = ((h as nat) % (2 * n)) as int;
    let entry = entries[idx];
    let e_cycle = entry | ((2 * n - 1) as u64);
    let entry_new = entry & ((!(n as usize)) as u64);
    if entry != entry_new && e_cycle < cycle_word(h, n) {
        entries.update(idx, entry_new)
    } else {
        entries
    }
}

/// The outcome of a dequeue that starts with the head at `h`, the tail at
/// `t` and threshold `th >= 0` over `entries`: the index handed out, then
/// the entries, head, tail and threshold it leaves.
///
/// Each round takes the next head position. An entry of the round's cycle
/// is consumed (its low bits set) and its index handed out. Otherwise the
/// entry is cleaned; when the tail is not ahead of the new head, the tail
/// catches up with it and the dequeue gives up; when the threshold was used
/// up, it gives up too; otherwise the next round follows with one less
/// threshold.
pub open spec fn dequeue_run(entries: Seq<u64>, h: usize, t: usize, th: isize, n: nat) -> (
    Option<usize>,
    Seq<u64>,
    usize,
    usize,
    isize,
)
    decreases th,
{
    let idx = ((h as nat) % (2 * n)) as int;
    let entry = entries[idx];
    let e_cycle = entry | ((2 * n - 1) as u64);
    if e_cycle == cycle_word(h, n) {
        (
            Some(((entry as usize) & ((n - 1) as usize)) as usize),
            entries.update(idx, entry | ((n - 1) as u64)),
            (h + 1) as usize,
            t,
            th,
        )
    } else if t <= h + 1 {
        (None, cleaned(entries, h, n), (h + 1) as usize, (h + 1) as usize, (th - 1) as isize)
    } else if th <= 0 {
        (None, cleaned(entries, h, n), (h + 1) as usize, t, (th - 1) as isize)
    } else {
        dequeue_run(cleaned(entries, h, n), (h + 1) as usize, t, (th - 1) as isize, n)
    }
}

/// Whether a dequeue from that state returns: in every round the head can
/// move on, the head's entry lies in the ring, and the entry is not one
/// whose low bits are all set while its cycle differs (on such an entry the
/// dequeue retries forever).
pub open spec fn dequeue_returns(entries: Seq<u64>, h: usize, t: usize, th: isize, n: nat) -> bool
    decreases th,
{
    let idx = ((h as nat) % (2 * n)) as int;
    let entry = entries[idx];
    let e_cycle = entry | ((2 * n - 1) as u64);
    &&& h < usize::MAX
    &&& (h as nat) % (2 * n) < n
    &&& (e_cycle == cycle_word(h, n) || (entry | (n as u64)) != e_cycle)
    &&& (e_cycle != cycle_word(h, n) && h + 1 < t && th > 0 ==> dequeue_returns(
        cleaned(entries, h, n),
        (h + 1) as usize,
        t,
        (th - 1) as isize,
        n,
    ))
}

/// The entries of a queue built full with `half` indices after `j`
/// dequeues: the first `j` entries consumed, the rest of the lower half
/// holding their own index, the upper half 0.
pub open spec fn full_after(half: nat, j: nat) -> Seq<u64> {
    Seq::new(
        2 * half,
        |i: int|
            if i < j {
                (2 * half - 1) as u64
            } else if i < half {
                i as u64
            } else {
                0u64
            },
    )
}

/// In a ring of `n = 2^k` entries whose double fits a word, a position `j`
/// below `n` has cycle word `2n - 1`; an index `j` below `n` keeps its
/// cycle bits clear, reads back as `j`, and is consumed to `n - 1`.
proof fn lemma_low_position(j: usize, n: usize, k: usize)
    requires
        k + 1 < usize::BITS,
        n == 1usize << k,
        j < n,
    ensures
        ((j << 1usize) | ((2 * n - 1) as usize)) == (2 * n - 1) as usize,
        (j as u64) | ((2 * n - 1) as u64) == (2 * n - 1) as u64,
        ((j as u64) as usize) & ((n - 1) as usize) == j,
        (j as u64) | ((n - 1) as u64) == (n - 1) as u64,
{
    assert(((j << 1usize) | ((2 * n - 1) as usize)) == (2 * n - 1) as usize) by (bit_vector)
        requires
            k + 1 < usize::BITS,
            n == 1usize << k,
            j < n,
    ;
    assert((j as u64) | ((2 * n - 1) as u64) == (2 * n - 1) as u64) by (bit_vector)
        requires
            k + 1 < usize::BITS,
            n == 1usize << k,
            j < n,
    ;
    assert(((j as u64) as usize) & ((n - 1) as usize) == j) by (bit_vector)
        requires
            k + 1 < usize::BITS,
            n == 1usize << k,
            j < n,
    ;
    assert((j as u64) | ((n - 1) as u64) == (n - 1) as u64) by (bit_vector)
        requires
            k + 1 < usize::BITS,
            n == 1usize << k,
            j < n,
    ;
}

/// In a ring of `n = 2^k` entries whose double fits a word: the word that an
/// enqueue of `index < n` stores in cycle 0 stays within cycle 0 and reads
/// back as `index`; position 0 has cycle word `2n - 1`.
proof fn lemma_stored_index(index: usize, n: usize, k: usize)
    requires
        k + 1 < usize::BITS,
        n == 1usize << k,
        index < n,
    ensures
        ((0usize << 1usize) | ((2 * n - 1) as usize)) == (2 * n - 1) as usize,
        (0u64 | ((2 * n - 1) as u64)) == (2 * n - 1) as u64,
        ((2 * n - 1) as u64 ^ ((index ^ ((n - 1) as usize)) as u64)) | ((2 * n - 1) as u64) == (2 * n - 1) as u64,
        ((((2 * n - 1) as u64 ^ ((index ^ ((n - 1) as usize)) as u64)) as usize) & ((n - 1) as usize)) == index,
{
    assert(((0usize << 1usize) | ((2 * n - 1) as usize)) == (2 * n - 1) as usize) by (bit_vector)
        requires
            k + 1 < usize::BITS,
            n == 1usize << k,
    ;
    assert((0u64 | ((2 * n - 1) as u64)) == (2 * n - 1) as u64) by (bit_vector)
        requires
            k + 1 < usize::BITS,
            n == 1usize << k,
    ;
    assert(((2 * n - 1) as u64 ^ ((index ^ ((n - 1) as usize)) as u64)) | ((2 * n - 1) as u64) == (2 * n - 1) as u64)
        by (bit_vector)
        requires
            k + 1 < usize::BITS,
            n == 1usize << k,
            index < n,
    ;
    assert(((((2 * n - 1) as u64 ^ ((index ^ ((n - 1) as usize)) as u64)) as usize) & ((n - 1) as usize)) == index)
        by (bit_vector)
        requires
            k + 1 < usize::BITS,
            n == 1usize << k,
            index < n,
    ;
}

/// `2^k` as a shift, for `k` below the word size.
proof fn lemma_pow2_shift(k: usize)
    requires
        k < usize::BITS,
    ensures
        (1usize << k) == pow2(k as nat),
        0 < pow2(k as nat) < usize::MAX,
{
    lemma_usize_pow2_no_overflow(k as nat);
    lemma_usize_shl_is_mul(1, k);
}

/// Four times `2^k` fits a word when `k + 2` is at most the word size.
proof fn lemma_pow2_quadruple(k: nat)
    requires
        k + 2 <= usize::BITS,
    ensures
        4 * pow2(k) <= usize::MAX + 1,
        pow2(k + 1) == 2 * pow2(k),
{
    lemma_pow2_unfold(k + 1);
    lemma_pow2_adds(k, 2);
    vstd::arithmetic::power2::lemma2_to64();
    if k + 2 < usize::BITS {
        lemma_pow2_strictly_increases(k + 2, usize::BITS as nat);
    }
}

/// The queue: a ring of `2^(order + 1)` entries.
pub struct Queue {
    order: usize,
    tail: usize,
    head: usize,
    entries: Vec<u64>,
    threshold: isize,
}

impl Queue {
    /// The number of entries.
    pub closed spec fn size(&self) -> nat {
        self.entries.len() as nat
    }

    /// The entries.
    pub closed spec fn view(&self) -> Seq<u64> {
        self.entries@
    }

    /// The position of the next dequeue.
    pub closed spec fn head_pos(&self) -> usize {
        self.head
    }

    /// The position of the next enqueue.
    pub closed spec fn tail_pos(&self) -> usize {
        self.tail
    }

    /// How many more rounds a dequeue may take; a queue built empty starts
    /// below zero.
    pub closed spec fn threshold_val(&self) -> isize {
        self.threshold
    }

    /// The ring has `2^(order + 1)` entries, and that count fits a word.
    pub closed spec fn wf(&self) -> bool {
        &&& self.order + 1 < usize::BITS
        &&& self.entries.len() == pow2((self.order + 1) as nat)
    }

    /// The slot of `index` in a ring of `n` entries, `n` a power of two.
    fn map(index: usize, order: usize, n: usize) -> (r: usize)
        requires
            exists|k: nat| k < usize::BITS && n == #[trigger] pow2(k),
        ensures
            r == index % n,
            r < n,
    {
        proof {
            let k = choose|k: nat| k < usize::BITS && n == #[trigger] pow2(k);
            lemma_pow2_pos(k);
            lemma_usize_low_bits_mask_is_mod(index, k);
            assert(low_bits_mask(k) == n - 1);
        }
        index & (n - 1)
    }

    /// `2^order`.
    fn pow2(order: usize) -> (r: usize)
        requires
            order < usize::BITS,
        ensures
            r == pow2(order as nat),
    {
        proof {
            lemma_pow2_shift(order);
        }
        1usize << order
    }

    /// An empty queue: all entries 0, head and tail 0, threshold -1.
    pub fn new_empty(order: usize) -> (q: Self)
        requires
            order + 1 < usize::BITS,
        ensures
            q.wf(),
            q.size() == pow2((order + 1) as nat),
            q.view() == Seq::new(q.size(), |i: int| 0u64),
            q.head_pos() == 0,
            q.tail_pos() == 0,
            q.threshold_val() == -1,
            usable(q.view(), q.head_pos(), q.tail_pos(), q.size()),
    {
        let n = Self::pow2(order + 1);
        let mut entries: Vec<u64> = Vec::with_capacity(n);
        let mut i: usize = 0;
        while i < n
            invariant
                i <= n,
                entries.len() == i,
                forall|k: int| 0 <= k < i ==> (#[trigger] entries@[k]) == 0,
            decreases n - i,
        {
            entries.push(0);
            i = i + 1;
        }
        let q = Queue { order, head: 0, tail: 0, threshold: -1, entries };
        assert(q.view() =~= Seq::new(q.size(), |i: int| 0u64));
        proof {
            lemma_pow2_quadruple(order as nat);
            lemma_pow2_pos((order + 1) as nat);
            let m = (2 * n - 1) as usize;
            assert(2 * n - 1 <= usize::MAX);
            assert(((0usize << 1usize) | m) == m && (0u64 | (m as u64)) == m as u64) by (bit_vector);
            vstd::arithmetic::div_mod::lemma_small_mod(0, n as nat);
            assert(q.view()[0] == 0);
            assert(cycle_word(0, q.size()) == m as u64);
        }
        q
    }

    /// A full queue: the lower half of the entries holds the indices
    /// `0..2^order`, the upper half 0; the tail is at `2^order` and the
    /// threshold at `3 * 2^order - 1` (as a signed word).
    pub fn new_full(order: usize) -> (q: Self)
        requires
            order + 1 < usize::BITS,
        ensures
            q.wf(),
            q.size() == 2 * pow2(order as nat),
            q.view() == full_after(pow2(order as nat), 0),
            q.head_pos() == 0,
            q.tail_pos() == pow2(order as nat),
            q.threshold_val() == (3 * pow2(order as nat) - 1) as isize,
    {
        let half = Self::pow2(order);
        proof {
            lemma_pow2_quadruple(order as nat);
            lemma_pow2_pos(order as nat);
        }
        let n = half * 2;
        let mut entries: Vec<u64> = Vec::with_capacity(n);
        let mut i: usize = 0;
        while i < half
            invariant
                i <= half,
                half == pow2(order as nat),
                0 < half,
                n == 2 * half,
                4 * half <= usize::MAX + 1,
                order < usize::BITS,
                entries.len() == i,
                forall|k: int| 0 <= k < i ==> (#[trigger] entries@[k]) == k,
            decreases half - i,
        {
            let v = Self::map(n + i, order, half);
            proof {
                vstd::arithmetic::div_mod::lemma_mod_multiples_vanish(2, i as int, half as int);
                vstd::arithmetic::div_mod::lemma_small_mod(i as nat, half as nat);
            }
            entries.push(v as u64);
            i = i + 1;
        }
        while i < n
            invariant
                half <= i <= n,
                n == 2 * half,
                entries.len() == i,
                forall|k: int| 0 <= k < half ==> (#[trigger] entries@[k]) == k,
                forall|k: int| half <= k < i ==> (#[trigger] entries@[k]) == 0,
            decreases n - i,
        {
            entries.push(0);
            i = i + 1;
        }
        let q = Queue { order, head: 0, tail: half, threshold: (half + n - 1) as isize, entries };
        assert(q.view() =~= full_after(pow2(order as nat), 0));
        q
    }

    /// Moves the tail to `head` when it still is at `tail`.
    fn catchup(&mut self, tail: usize, head: usize)
        ensures
            old(self).tail == tail ==> final(self).tail == head,
            old(self).tail != tail ==> final(self).tail == old(self).tail,
            final(self).head == old(self).head,
            final(self).entries == old(self).entries,
            final(self).order == old(self).order,
            final(self).threshold == old(self).threshold,
    {
        if self.tail == tail {
            self.tail = head;
        }
    }

    /// Stores `index` at the first position from the tail on whose entry
    /// the enqueue may use, moves the tail past it, and resets the
    /// threshold. The stored word is the position's cycle word with the low
    /// bits of `index` flipped. Some position from the tail on must be
    /// usable (otherwise the enqueue walks the tail forever).
    #[verifier::rlimit(50)]
    pub fn enqueue(&mut self, index: usize)
        requires
            old(self).wf(),
            3 * old(self).size() <= usize::MAX,
            exists|t: usize|
                old(self).tail_pos() <= t < usize::MAX && #[trigger] usable(
                    old(self).view(),
                    old(self).head_pos(),
                    t,
                    old(self).size(),
                ),
        ensures
            final(self).wf(),
            final(self).size() == old(self).size(),
            final(self).head_pos() == old(self).head_pos(),
            final(self).threshold_val() == (3 * old(self).size() - 1) as isize,
            exists|t: usize|
                #[trigger] enqueued_at(
                    old(self).view(),
                    old(self).head_pos(),
                    old(self).tail_pos(),
                    old(self).size(),
                    index,
                    t,
                    final(self).view(),
                    final(self).tail_pos(),
                ),
    {
        let ghost size = self.size();
        let ghost t0 = choose|t: usize|
            old(self).tail_pos() <= t < usize::MAX && #[trigger] usable(
                old(self).view(),
                old(self).head_pos(),
                t,
                old(self).size(),
            );
        proof {
            lemma_pow2_unfold((self.order + 1) as nat);
            lemma_pow2_pos((self.order + 1) as nat);
        }
        let n = Self::pow2(self.order) * 2;
        let flipped = index ^ (n - 1);
        loop
            invariant
                self.wf(),
                n == size,
                0 < n,
                size == old(self).size(),
                3 * n <= usize::MAX,
                flipped == index ^ ((n - 1) as usize),
                self.entries@ == old(self).entries@,
                self.head == old(self).head,
                self.order == old(self).order,
                self.threshold == old(self).threshold,
                old(self).tail <= self.tail <= t0 < usize::MAX,
                usable(old(self).view(), old(self).head_pos(), t0, size),
                forall|u: usize|
                    old(self).tail <= u < self.tail ==> !#[trigger] usable(
                        old(self).view(),
                        old(self).head_pos(),
                        u,
                        size,
                    ),
            decreases t0 - self.tail,
        {
            let tail = self.tail;
            self.tail = tail + 1;
            let t_cycle = ((tail << 1) | (2 * n - 1)) as u64;
            assert(n == pow2((self.order + 1) as nat));
            let j = Self::map(tail, self.order, n);
            let entry = self.entries[j];
            let e_cycle = entry | (2 * n - 1) as u64;
            let empty_index = e_cycle ^ (n as u64);
            let older_cycle = e_cycle < t_cycle;
            let consumed = entry == e_cycle;
            let empty = entry == empty_index;
            let head_behind = self.head <= tail;
            let fresh = entry == 0 && e_cycle == t_cycle;
            let found = fresh || (older_cycle && (consumed || (empty && head_behind)));
            assert(found == usable(old(self).view(), old(self).head_pos(), tail, size));
            if found {
                assert(cycle_word(tail, size) == t_cycle);
                self.entries.set(j, t_cycle ^ flipped as u64);
                let new_threshold = (3 * n - 1) as isize;
                if self.threshold != new_threshold {
                    self.threshold = new_threshold;
                }
                assert(enqueued_at(
                    old(self).view(),
                    old(self).head_pos(),
                    old(self).tail_pos(),
                    old(self).size(),
                    index,
                    tail,
                    self.view(),
                    self.tail_pos(),
                ));
                return;
            }
            assert(tail != t0);
        }
    }

    /// Dequeues: on a queue whose threshold is below zero this is `None` and
    /// changes nothing; otherwise the rounds of `dequeue_run` take place,
    /// provided that they return (`dequeue_returns`).
    #[verifier::rlimit(50)]
    pub fn dequeue(&mut self) -> (r: Option<usize>)
        requires
            old(self).wf(),
            2 * old(self).size() <= usize::MAX,
            old(self).threshold_val() >= 0 ==> dequeue_returns(
                old(self).view(),
                old(self).head_pos(),
                old(self).tail_pos(),
                old(self).threshold_val(),
                old(self).size(),
            ),
        ensures
            final(self).wf(),
            final(self).size() == old(self).size(),
            old(self).threshold_val() < 0 ==> r is None && *final(self) == *old(self),
            old(self).threshold_val() >= 0 ==> (
                r,
                final(self).view(),
                final(self).head_pos(),
                final(self).tail_pos(),
                final(self).threshold_val(),
            ) == dequeue_run(
                old(self).view(),
                old(self).head_pos(),
                old(self).tail_pos(),
                old(self).threshold_val(),
                old(self).size(),
            ),
    {
        if self.threshold < 0 {
            return None;
        }
        let ghost size = self.size();
        proof {
            lemma_pow2_unfold((self.order + 1) as nat);
            lemma_pow2_pos((self.order + 1) as nat);
        }
        let n = Self::pow2(self.order) * 2;
        loop
            invariant
                self.wf(),
                n == size,
                0 < n,
                self.entries.len() == n,
                size == old(self).size(),
                2 * n <= usize::MAX,
                self.order == old(self).order,
                self.threshold >= 0,
                old(self).threshold >= 0,
                dequeue_returns(self.entries@, self.head, self.tail, self.threshold, size),
                dequeue_run(self.entries@, self.head, self.tail, self.threshold, size) == dequeue_run(
                    old(self).view(),
                    old(self).head_pos(),
                    old(self).tail_pos(),
                    old(self).threshold_val(),
                    old(self).size(),
                ),
            decreases self.threshold,
        {
            let head = self.head;
            self.head = head + 1;
            let h_cycle = ((head << 1) | (2 * n - 1)) as u64;
            let h_idx = head % (n * 2);
            let entry = self.entries[h_idx];
            let e_cycle = entry | (2 * n - 1) as u64;
            if e_cycle == h_cycle {
                self.entries.set(h_idx, entry | (n - 1) as u64);
                return Some(entry as usize & (n - 1));
            }
            let entry_new = entry & !n as u64;
            if entry != entry_new && e_cycle < h_cycle {
                self.entries.set(h_idx, entry_new);
            }
            let tail = self.tail;
            if tail <= head + 1 {
                self.catchup(tail, head + 1);
                self.threshold = self.threshold - 1;
                return None;
            }
            let threshold = self.threshold;
            self.threshold = threshold - 1;
            if threshold <= 0 {
                return None;
            }
        }
    }

    /// A queue built full hands out its indices in order: with `j` indices
    /// taken, the next dequeue returns `Some(j)`, consumes entry `j`, and
    /// moves the head to `j + 1`; tail and threshold stay. (Where
    /// `3 * 2^order - 1` does not fit a signed word, the threshold that
    /// `new_full` stores is negative and the queue hands out nothing.)
    pub proof fn law_full_dequeues_in_order(order: usize, j: usize)
        requires
            order + 2 < usize::BITS,
            3 * pow2(order as nat) - 1 <= isize::MAX,
            j < pow2(order as nat),
        ensures
            ({
                let half = pow2(order as nat);
                let th = (3 * half - 1) as isize;
                &&& dequeue_returns(full_after(half, j as nat), j, half as usize, th, 2 * half)
                &&& dequeue_run(full_after(half, j as nat), j, half as usize, th, 2 * half) == (
                    Some(j),
                    full_after(half, (j + 1) as nat),
                    (j + 1) as usize,
                    half as usize,
                    th,
                )
            }),
    {
        let half = pow2(order as nat);
        lemma_pow2_shift((order + 1) as usize);
        lemma_pow2_quadruple(order as nat);
        let n = 2 * half;
        let nu = n as usize;
        let e = full_after(half, j as nat);
        vstd::arithmetic::div_mod::lemma_small_mod(j as nat, 2 * n);
        lemma_low_position(j, nu, (order + 1) as usize);
        assert(e[j as int] == j as u64);
        assert(cycle_word(j, n) == (2 * n - 1) as u64);
        assert(e.update(j as int, (j as u64) | ((n - 1) as u64)) =~= full_after(half, (j + 1) as nat));
    }

    /// What a dequeue reads back of an enqueue on a queue built empty: the
    /// enqueue of an index below the ring size uses position 0, and the
    /// dequeue that follows returns that index.
    pub proof fn law_empty_enqueue_then_dequeue(
        order: usize,
        index: usize,
        t: usize,
        entries: Seq<u64>,
        tail: usize,
    )
        requires
            order + 2 < usize::BITS,
            3 * pow2((order + 1) as nat) - 1 <= isize::MAX,
            index < pow2((order + 1) as nat),
            enqueued_at(
                Seq::new(pow2((order + 1) as nat), |i: int| 0u64),
                0,
                0,
                pow2((order + 1) as nat),
                index,
                t,
                entries,
                tail,
            ),
        ensures
            ({
                let n = pow2((order + 1) as nat);
                let th = (3 * n - 1) as isize;
                &&& t == 0
                &&& tail == 1
                &&& dequeue_returns(entries, 0, tail, th, n)
                &&& dequeue_run(entries, 0, tail, th, n).0 == Some(index)
            }),
    {
        let n = pow2((order + 1) as nat);
        let zeros = Seq::new(n, |i: int| 0u64);
        lemma_pow2_shift((order + 1) as usize);
        let nu = n as usize;
        lemma_stored_index(index, nu, (order + 1) as usize);
        vstd::arithmetic::div_mod::lemma_small_mod(0, n);
        vstd::arithmetic::div_mod::lemma_small_mod(0, 2 * n);
        assert(usable(zeros, 0, 0, n));
        if t > 0 {
            assert(!usable(zeros, 0, 0usize, n));
        }
    }
}

} // verus!
