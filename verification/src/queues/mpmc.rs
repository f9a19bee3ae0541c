//! Multi-producer multi-consumer queues.
//!
//! The bounded queue keeps its elements in a fixed set of slots and two
//! queues of slot indices (NCQ or SCQ); the unbounded queue chains bounded
//! segments.

pub mod queue;
pub mod scq;
pub mod unbounded;
