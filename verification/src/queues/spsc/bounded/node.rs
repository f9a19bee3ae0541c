use vstd::prelude::*;

verus! {

/// A single slot of a bounded buffer: either empty or holding one element.
pub struct Node<T> {
    data: Option<T>,
}

impl<T> View for Node<T> {
    type V = Option<T>;

    closed spec fn view(&self) -> Option<T> {
        self.data
    }
}

impl<T> Node<T> {
    /// Creates an empty slot.
    pub fn new() -> (n: Self)
        ensures
            n@ is None,
    {
        Node { data: None }
    }

    /// Whether the slot holds an element.
    pub fn is_set(&self) -> (b: bool)
        ensures
            b == self@ is Some,
    {
        self.data.is_some()
    }

    /// Stores `data` into the slot.
    pub fn store(&mut self, data: T)
        ensures
            final(self)@ == Some(data),
    {
        self.data = Some(data);
    }

    /// Takes the element out of a set slot, leaving it empty.
    pub fn load(&mut self) -> (data: T)
        requires
            old(self)@ is Some,
        ensures
            Some(data) == old(self)@,
            final(self)@ is None,
    {
        let d = self.data.take();
        d.unwrap()
    }
}

} // verus!
