//! The storages that can back per-thread data.

pub mod list;
pub mod trie;

pub use list::List;
pub use trie::Trie;
