//! An entry of the trie: a key, its data and the pointer to what follows it
//! on its chain.

use vstd::prelude::*;

use super::ptr::CustomPtr;

verus! {

/// A key with its data, linked to the next entry of its chain or, at the
/// end of the chain, to the level that holds the chain.
#[derive(Debug)]
pub struct Entry<T> {
    pub key: u64,
    pub data: T,
    pub next: CustomPtr,
}

impl<T> Entry<T> {
    /// An entry for `key` and `data` whose next pointer is `next`.
    pub fn new(key: u64, data: T, next: CustomPtr) -> (r: Self)
        ensures
            r.key == key,
            r.data == data,
            r.next == next,
    {
        Self { key, data, next }
    }

    /// The key of the entry.
    pub fn key(&self) -> (r: u64)
        ensures
            r == self.key,
    {
        self.key
    }

    /// The data of the entry.
    pub fn data(&self) -> (r: &T)
        ensures
            *r == self.data,
    {
        &self.data
    }
}

} // verus!
