use vstd::prelude::*;

verus! {

/// The states of a node.
#[derive(Debug, PartialEq, Eq, Structural, Clone, Copy)]
pub enum NodeState {
    /// The node is empty, or its location is reserved but not yet written.
    Empty,
    /// The node holds a value (or held one that the consumer took in order).
    Filled,
    /// The consumer took the node's value out of order.
    Handled,
}

/// The number that stands for a state.
pub open spec fn state_code(s: NodeState) -> u8 {
    match s {
        NodeState::Empty => 0,
        NodeState::Filled => 1,
        NodeState::Handled => 2,
    }
}

impl NodeState {
    /// The number that stands for this state.
    pub fn to_u8(&self) -> (v: u8)
        ensures
            v == state_code(*self),
    {
        match self {
            NodeState::Empty => 0,
            NodeState::Filled => 1,
            NodeState::Handled => 2,
        }
    }

    /// The state that a number stands for, if any.
    pub fn from_u8(val: u8) -> (r: Option<Self>)
        ensures
            r matches Some(s) ==> state_code(s) == val,
            r is None <==> val > 2,
    {
        match val {
            0 => Some(NodeState::Empty),
            1 => Some(NodeState::Filled),
            2 => Some(NodeState::Handled),
            _ => None,
        }
    }
}

/// One location of a buffer: a state and possibly a value.
pub struct Node<T> {
    data: Option<T>,
    is_set: u8,
}

impl<T> Node<T> {
    /// The node's state.
    pub closed spec fn state(&self) -> NodeState {
        if self.is_set == 0 {
            NodeState::Empty
        } else if self.is_set == 1 {
            NodeState::Filled
        } else {
            NodeState::Handled
        }
    }

    /// The node's value, if it holds one.
    pub closed spec fn data(&self) -> Option<T> {
        self.data
    }

    /// The stored state number is one of the three codes.
    pub closed spec fn wf(&self) -> bool {
        self.is_set <= 2
    }

    /// An empty node.
    pub fn new() -> (n: Self)
        ensures
            n.wf(),
            n.state() == NodeState::Empty,
            n.data() is None,
    {
        Node { data: None, is_set: 0 }
    }

    /// The node's state.
    pub fn get_state(&self) -> (s: NodeState)
        requires
            self.wf(),
        ensures
            s == self.state(),
    {
        let raw = self.is_set;
        NodeState::from_u8(raw).unwrap()
    }

    /// Stores `data` and marks the node as set.
    pub fn store(&mut self, data: T)
        ensures
            final(self).wf(),
            final(self).state() == NodeState::Filled,
            final(self).data() == Some(data),
    {
        self.data = Some(data);
        self.is_set = NodeState::Filled.to_u8();
    }

    /// Takes the value out of the node; the state stays as it is.
    pub fn load(&mut self) -> (data: T)
        requires
            old(self).data() is Some,
        ensures
            Some(data) == old(self).data(),
            final(self).data() is None,
            final(self).state() == old(self).state(),
            final(self).wf() == old(self).wf(),
    {
        let d = self.data.take();
        d.unwrap()
    }

    /// Marks the node as handled; its value stays as it is.
    pub fn handled(&mut self)
        ensures
            final(self).wf(),
            final(self).state() == NodeState::Handled,
            final(self).data() == old(self).data(),
    {
        self.is_set = NodeState::Handled.to_u8();
    }
}

impl<T> Default for Node<T> {
    fn default() -> (n: Self)
        ensures
            n.wf(),
            n.state() == NodeState::Empty,
            n.data() is None,
    {
        Node::new()
    }
}

} // verus!
