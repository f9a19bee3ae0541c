//! Multi-producer single-consumer queues.
//!
//! Jiffy is an unbounded queue made of a list of fixed-size buffers: every
//! producer reserves the next location by bumping a shared counter and then
//! stores its element there, while the single consumer walks the locations in
//! order.

pub mod jiffy;

pub use crate::queues::{DequeueError, EnqueueError};
