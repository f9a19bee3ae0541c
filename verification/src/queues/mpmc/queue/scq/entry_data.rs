//! The packed form of one SCQ entry: bit 63 is the "safe" flag, bits 32..63
//! the cycle and bits 0..32 the index.

use vstd::prelude::*;

verus! {

/// The safe flag of a packed entry.
pub open spec fn safe_of(raw: u64) -> bool {
    (raw >> 63u64) == 1
}

/// The cycle of a packed entry.
pub open spec fn cycle_of(raw: u64) -> u32 {
    ((raw >> 32u64) & 0x7fffffffu64) as u32
}

/// The index of a packed entry.
pub open spec fn index_of(raw: u64) -> u32 {
    (raw & 0xffffffffu64) as u32
}

/// The packed form of `(is_safe, cycle, index)`; only the low 31 bits of the
/// cycle are kept.
pub open spec fn pack(is_safe: bool, cycle: u32, index: u32) -> u64 {
    (if is_safe { 0x8000000000000000u64 } else { 0u64 }) | (((cycle & 0x7fffffffu32) as u64) << 32u64)
        | (index as u64)
}

/// Unpacking a packed entry gives back its flag, the low 31 bits of its cycle,
/// and its index.
pub proof fn lemma_pack_unpack(is_safe: bool, cycle: u32, index: u32)
    ensures
        safe_of(pack(is_safe, cycle, index)) == is_safe,
        cycle_of(pack(is_safe, cycle, index)) == cycle & 0x7fffffffu32,
        index_of(pack(is_safe, cycle, index)) == index,
{
    let s: u64 = if is_safe { 0x8000000000000000u64 } else { 0u64 };
    let c: u64 = (cycle & 0x7fffffffu32) as u64;
    let i: u64 = index as u64;
    assert(c < 0x80000000u64) by (bit_vector)
        requires
            c == (cycle & 0x7fffffffu32) as u64,
    ;
    assert(i <= 0xffffffffu64);
    assert(s == 0x8000000000000000u64 || s == 0u64);
    assert((((s | (c << 32u64) | i) >> 63u64) == 1) == (s == 0x8000000000000000u64)) by (bit_vector)
        requires
            c < 0x80000000u64,
            i <= 0xffffffffu64,
            s == 0x8000000000000000u64 || s == 0u64,
    ;
    assert(((s | (c << 32u64) | i) >> 32u64) & 0x7fffffffu64 == c) by (bit_vector)
        requires
            c < 0x80000000u64,
            i <= 0xffffffffu64,
            s == 0x8000000000000000u64 || s == 0u64,
    ;
    assert((s | (c << 32u64) | i) & 0xffffffffu64 == i) by (bit_vector)
        requires
            c < 0x80000000u64,
            i <= 0xffffffffu64,
            s == 0x8000000000000000u64 || s == 0u64,
    ;
}

/// One decoded SCQ entry.
pub struct QueueEntryData(pub u64);

impl QueueEntryData {
    /// The packed value.
    pub open spec fn raw(&self) -> u64 {
        self.0
    }

    /// Packs the given flag, cycle and index.
    pub fn new(is_safe: bool, cycle: u32, index: u32) -> (r: Self)
        ensures
            r.raw() == pack(is_safe, cycle, index),
            safe_of(r.raw()) == is_safe,
            cycle_of(r.raw()) == cycle & 0x7fffffffu32,
            index_of(r.raw()) == index,
    {
        proof { lemma_pack_unpack(is_safe, cycle, index); }
        let base_val: u64 = if is_safe { 0x8000000000000000u64 } else { 0u64 };
        QueueEntryData(base_val | (((cycle & 0x7fffffffu32) as u64) << 32u64) | (index as u64))
    }

    /// Wraps a packed value.
    pub fn from_raw(raw: u64) -> (r: Self)
        ensures
            r.raw() == raw,
    {
        QueueEntryData(raw)
    }

    /// The packed value.
    pub fn into_raw(self) -> (r: u64)
        ensures
            r == self.raw(),
    {
        self.0
    }

    /// Whether the entry is marked safe.
    pub fn is_safe(&self) -> (b: bool)
        ensures
            b == safe_of(self.raw()),
    {
        (self.0 >> 63u64) == 1
    }

    /// The cycle stored in the entry.
    pub fn cycle(&self) -> (c: u32)
        ensures
            c == cycle_of(self.raw()),
    {
        ((self.0 >> 32u64) & 0x7fffffffu64) as u32
    }

    /// The index stored in the entry.
    pub fn index(&self) -> (i: u32)
        ensures
            i == index_of(self.raw()),
    {
        (self.0 & 0xffffffffu64) as u32
    }
}

impl From<u64> for QueueEntryData {
    fn from(data: u64) -> (r: Self) {
        QueueEntryData(data)
    }
}

impl vstd::std_specs::convert::FromSpecImpl<u64> for QueueEntryData {
    open spec fn obeys_from_spec() -> bool {
        true
    }

    open spec fn from_spec(v: u64) -> Self {
        QueueEntryData(v)
    }
}

impl From<QueueEntryData> for u64 {
    fn from(data: QueueEntryData) -> (r: Self) {
        data.0
    }
}

impl vstd::std_specs::convert::FromSpecImpl<QueueEntryData> for u64 {
    open spec fn obeys_from_spec() -> bool {
        true
    }

    open spec fn from_spec(v: QueueEntryData) -> u64 {
        v.0
    }
}

} // verus!
