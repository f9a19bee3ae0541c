//! A collection of queue and thread-data structures whose sequential behaviour
//! is stated in contracts and proved with Verus.
//!
//! Every queue keeps its shared state in one core value (a ring buffer, a
//! list of buffers, a cycle-tagged index queue, ...). The core carries the
//! algorithm and its proof; the sender and receiver handles share the core
//! through a lock.

pub mod queues;
pub mod thread_data;

mod shared;
