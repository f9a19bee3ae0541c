use vstd::prelude::*;

use super::node::{Node, NodeState};
use super::BUFFER_SIZE;

verus! {

/// One buffer of the list: `BUFFER_SIZE` nodes, the consumer's read offset
/// within it, and its place in the list (the first buffer is at place 1).
pub struct BufferList<T> {
    /// The nodes.
    pub buffer: Vec<Node<T>>,
    /// The offset of the next node the consumer reads.
    pub head: usize,
    /// The place of this buffer in the list of buffers.
    pub position_in_queue: usize,
}

impl<T> BufferList<T> {
    /// A fresh buffer of empty nodes at the given place.
    pub fn boxed(position_in_queue: usize) -> (b: Box<Self>)
        ensures
            b.buffer.len() == BUFFER_SIZE,
            b.head == 0,
            b.position_in_queue == position_in_queue,
            forall|j: int|
                0 <= j < BUFFER_SIZE ==> (#[trigger] b.buffer@[j]).wf() && b.buffer@[j].state()
                    == NodeState::Empty && b.buffer@[j].data() is None,
    {
        let mut raw: Vec<Node<T>> = Vec::with_capacity(BUFFER_SIZE);
        let mut i: usize = 0;
        while i < BUFFER_SIZE
            invariant
                i <= BUFFER_SIZE,
                raw.len() == i,
                forall|j: int|
                    0 <= j < i ==> (#[trigger] raw@[j]).wf() && raw@[j].state() == NodeState::Empty
                        && raw@[j].data() is None,
            decreases BUFFER_SIZE - i,
        {
            raw.push(Node::default());
            i = i + 1;
        }
        Box::new(BufferList { buffer: raw, head: 0, position_in_queue })
    }
}

} // verus!
