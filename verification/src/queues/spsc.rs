//! Single-producer single-consumer queues.
//!
//! The bounded queue holds at most a fixed number of elements; the unbounded
//! queue chains bounded buffers and grows as needed.

pub mod bounded;
pub mod unbounded;
