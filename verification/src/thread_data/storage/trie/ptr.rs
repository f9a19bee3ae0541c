//! A trie pointer: one word holding a tagged arena slot.

use vstd::prelude::*;

pub mod target;

pub use target::{PtrTarget, MAX_SLOT};

verus! {

/// A pointer to an entry or a level of the trie, kept as its one-word
/// encoding.
#[derive(Debug)]
pub struct CustomPtr {
    ptr: usize,
}

impl CustomPtr {
    /// What the pointer points at.
    pub closed spec fn target(&self) -> PtrTarget {
        target::decode(self.ptr)
    }

    /// A pointer to the level in arena slot `level`.
    pub fn new_level(level: usize) -> (r: Self)
        requires
            level <= MAX_SLOT,
        ensures
            r.target() == PtrTarget::Level(level),
    {
        proof {
            target::lemma_decode_encode(PtrTarget::Level(level));
        }
        Self { ptr: PtrTarget::Level(level).into() }
    }

    /// What the pointer points at.
    pub fn load(&self) -> (r: PtrTarget)
        ensures
            r == self.target(),
    {
        PtrTarget::from(self.ptr)
    }

    /// Points the pointer at `value`.
    pub fn store(&mut self, value: PtrTarget)
        requires
            value.slot() <= MAX_SLOT,
        ensures
            final(self).target() == value,
    {
        proof {
            target::lemma_decode_encode(value);
        }
        self.ptr = value.into();
    }

    /// Points the pointer at `new` if it points at `expected`, and answers
    /// `Ok(expected)`; otherwise leaves it and answers `Err` with what it
    /// points at.
    pub fn compare_exchange(&mut self, expected: PtrTarget, new: PtrTarget) -> (r: Result<PtrTarget, PtrTarget>)
        requires
            expected.slot() <= MAX_SLOT,
            new.slot() <= MAX_SLOT,
        ensures
            old(self).target() == expected ==> r == Ok::<PtrTarget, PtrTarget>(expected) && final(self).target() == new,
            old(self).target() != expected ==> r == Err::<PtrTarget, PtrTarget>(old(self).target()) && final(self).target() == old(self).target(),
    {
        let expected_raw: usize = expected.into();
        proof {
            target::lemma_decode_encode(expected);
            target::lemma_decode_encode(new);
            let raw = self.ptr;
            assert(target::encode(target::decode(raw)) == raw) by {
                assert((raw & 1usize == 1usize ==> ((raw >> 1usize) << 1usize) | 1usize == raw)
                    && (raw & 1usize != 1usize ==> ((raw >> 1usize) << 1usize) == raw)) by (bit_vector);
            }
        }
        if self.ptr == expected_raw {
            self.ptr = new.into();
            Ok(PtrTarget::from(expected_raw))
        } else {
            Err(PtrTarget::from(self.ptr))
        }
    }
}

} // verus!
