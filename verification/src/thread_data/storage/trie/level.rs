//! A level of the trie: one bucket per value of a group of key bits.

use vstd::prelude::*;
use vstd::arithmetic::power2::pow2;

use super::ptr::{CustomPtr, PtrTarget, MAX_SLOT};

verus! {

/// The bits `[width * depth, width * (depth + 1))` of `key`, as a number.
pub open spec fn key_bits(key: u64, depth: nat, width: nat) -> nat {
    (key as nat / pow2(width * depth)) % pow2(width)
}

/// A level of the trie. Every bucket points at the level itself while it is
/// empty, at the first entry of a chain, or at a level one deeper.
#[derive(Debug)]
pub struct Level {
    pub level: usize,
    pub previous: usize,
    pub entries: Vec<CustomPtr>,
    pub key_size: usize,
    pub own: usize,
}

impl Level {
    /// A level at depth `level` in arena slot `own`, below the level in slot
    /// `previous`, with `2^key_size` empty buckets.
    pub fn new(level: usize, key_size: usize, previous: usize, own: usize) -> (r: Self)
        requires
            key_size < 32,
            own <= MAX_SLOT,
        ensures
            r.level == level,
            r.key_size == key_size,
            r.previous == previous,
            r.own == own,
            r.entries@.len() == pow2(key_size as nat),
            forall|b: int| 0 <= b < r.entries@.len() ==> #[trigger] r.entries@[b].target() == PtrTarget::Level(own),
    {
        proof {
            vstd::bits::lemma_u64_pow2_no_overflow(key_size as nat);
            vstd::arithmetic::power2::lemma_pow2_strictly_increases(key_size as nat, 32);
            vstd::arithmetic::power2::lemma2_to64();
            vstd::bits::lemma_usize_shl_is_mul(1, key_size);
        }
        let bucket_count: usize = 1usize << key_size;
        let mut entries: Vec<CustomPtr> = Vec::with_capacity(bucket_count);
        let mut i: usize = 0;
        while i < bucket_count
            invariant
                i <= bucket_count,
                own <= MAX_SLOT,
                entries@.len() == i,
                forall|b: int| 0 <= b < i ==> #[trigger] entries@[b].target() == PtrTarget::Level(own),
            decreases bucket_count - i,
        {
            entries.push(CustomPtr::new_level(own));
            i = i + 1;
        }
        Self { level, previous, entries, key_size, own }
    }

    /// The longest chain a bucket holds before its entries move one level
    /// down.
    pub fn max_chain(&self) -> (r: usize)
        ensures
            r == 2,
    {
        2
    }

    /// The depth of the level.
    pub fn level(&self) -> (r: usize)
        ensures
            r == self.level,
    {
        self.level
    }

    /// The number of key bits that select a bucket.
    pub fn key_size(&self) -> (r: usize)
        ensures
            r == self.key_size,
    {
        self.key_size
    }

    /// The arena slot of the level.
    pub fn get_own_ptr(&self) -> (r: usize)
        ensures
            r == self.own,
    {
        self.own
    }

    /// The arena slot of the level above.
    pub fn previous(&self) -> (r: usize)
        ensures
            r == self.previous,
    {
        self.previous
    }

    /// The bucket of `key` at depth `level` for buckets of `key_size` bits:
    /// the key's bits from `key_size * level` up to, not including,
    /// `key_size * (level + 1)`, cut to the width of `usize` (which cuts
    /// nothing for groups of at most 32 bits).
    pub fn index(key: u64, level: usize, key_size: usize) -> (r: usize)
        requires
            level < usize::MAX,
            key_size * (level + 1) < 64,
        ensures
            r == key_bits(key, level as nat, key_size as nat) as usize,
            key_size <= 32 ==> r == key_bits(key, level as nat, key_size as nat),
    {
        proof {
            assert(key_size * (level + 1) == key_size * level + key_size) by (nonlinear_arith);
            assert(0 <= key_size * level) by (nonlinear_arith);
        }
        let start = key_size * level;
        let end = key_size * (level + 1);
        let mask = !(u64::MAX << end);
        proof {
            let e = end as u64;
            assert(!(u64::MAX << e) == ((1u64 << e) - 1u64) as u64) by (bit_vector)
                requires
                    e < 64,
            ;
            vstd::bits::lemma_u64_pow2_no_overflow(end as nat);
            vstd::bits::lemma_u64_shl_is_mul(1, e);
            vstd::bits::lemma_u64_low_bits_mask_is_mod(key, end as nat);
            vstd::bits::lemma_u64_shr_is_div(key & mask, start as u64);
            vstd::arithmetic::power2::lemma_pow2_pos(start as nat);
            vstd::arithmetic::power2::lemma_pow2_pos(key_size as nat);
            vstd::arithmetic::power2::lemma_pow2_adds(start as nat, key_size as nat);
            vstd::arithmetic::div_mod::lemma_mod_breakdown(key as int, pow2(start as nat) as int, pow2(key_size as nat) as int);
            let q = (key as nat / pow2(start as nat)) % pow2(key_size as nat);
            let low = key as nat % pow2(start as nat);
            vstd::arithmetic::div_mod::lemma_mod_pos_bound(key as int, pow2(start as nat) as int);
            vstd::arithmetic::div_mod::lemma_div_multiples_vanish_fancy(q as int, low as int, pow2(start as nat) as int);
            vstd::arithmetic::div_mod::lemma_mod_pos_bound((key as nat / pow2(start as nat)) as int, pow2(key_size as nat) as int);
            vstd::arithmetic::power2::lemma2_to64();
            if key_size < 32 {
                vstd::arithmetic::power2::lemma_pow2_strictly_increases(key_size as nat, 32);
            }
            assert(key_size <= 63) by (nonlinear_arith)
                requires
                    key_size * (level + 1) < 64,
                    level < usize::MAX,
            ;
        }
        let v: u64 = (key & mask) >> start;
        v as usize
    }
}

} // verus!
