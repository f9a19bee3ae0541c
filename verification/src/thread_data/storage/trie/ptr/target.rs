//! What a trie pointer points at, and its one-word encoding.

use vstd::prelude::*;

verus! {

/// The target of a trie pointer: an entry or a level, each named by its
/// slot in the trie's arena.
#[derive(Debug, Clone, Copy, PartialEq, Eq, Structural)]
pub enum PtrTarget {
    Entry(usize),
    Level(usize),
}

/// The largest arena slot that the one-word encoding keeps intact on every
/// platform: the slot is shifted left by one bit to make room for the tag.
pub const MAX_SLOT: usize = 0x7fff_ffff;

impl PtrTarget {
    /// The arena slot named by the target.
    pub open spec fn slot(self) -> usize {
        match self {
            PtrTarget::Entry(i) => i,
            PtrTarget::Level(i) => i,
        }
    }
}

/// The word for a target: the slot shifted left by one, with the low bit set
/// for an entry.
pub open spec fn encode(target: PtrTarget) -> usize {
    match target {
        PtrTarget::Entry(i) => (i << 1usize) | 1usize,
        PtrTarget::Level(i) => i << 1usize,
    }
}

/// The target of a word: an entry when the low bit is set, a level
/// otherwise, at the slot held by the remaining bits.
pub open spec fn decode(raw: usize) -> PtrTarget {
    if raw & 1usize == 1usize {
        PtrTarget::Entry(raw >> 1usize)
    } else {
        PtrTarget::Level(raw >> 1usize)
    }
}

/// Decoding the encoding of a target gives the target back, for every slot
/// up to `MAX_SLOT`.
pub proof fn lemma_decode_encode(target: PtrTarget)
    requires
        target.slot() <= MAX_SLOT,
    ensures
        decode(encode(target)) == target,
{
    match target {
        PtrTarget::Entry(i) => {
            assert((((i << 1usize) | 1usize) & 1usize) == 1usize
                && (((i << 1usize) | 1usize) >> 1usize) == i) by (bit_vector)
                requires
                    i <= 0x7fff_ffffusize,
            ;
        },
        PtrTarget::Level(i) => {
            assert(((i << 1usize) & 1usize) != 1usize && ((i << 1usize) >> 1usize) == i) by (bit_vector)
                requires
                    i <= 0x7fff_ffffusize,
            ;
        },
    }
}

impl From<usize> for PtrTarget {
    fn from(raw: usize) -> (r: Self) {
        if raw & 1 == 1 {
            PtrTarget::Entry(raw >> 1)
        } else {
            PtrTarget::Level(raw >> 1)
        }
    }
}

impl vstd::std_specs::convert::FromSpecImpl<usize> for PtrTarget {
    open spec fn obeys_from_spec() -> bool {
        true
    }

    open spec fn from_spec(raw: usize) -> Self {
        decode(raw)
    }
}

impl From<PtrTarget> for usize {
    fn from(target: PtrTarget) -> (r: Self) {
        match target {
            PtrTarget::Entry(i) => (i << 1) | 1,
            PtrTarget::Level(i) => i << 1,
        }
    }
}

impl vstd::std_specs::convert::FromSpecImpl<PtrTarget> for usize {
    open spec fn obeys_from_spec() -> bool {
        true
    }

    open spec fn from_spec(target: PtrTarget) -> usize {
        encode(target)
    }
}

} // verus!
