use vstd::prelude::*;

use super::Receiver;

verus! {

/// Yields the elements of the queue until it is closed and drained; it
/// borrows the receiver, which stays usable afterwards.
#[verifier::reject_recursive_types(T)]
pub struct RefIter<'queue, T> {
    recv: &'queue mut Receiver<T>,
}

impl<'queue, T> RefIter<'queue, T> {
    /// The receiver the iterator dequeues from.
    pub closed spec fn receiver(&self) -> Receiver<T> {
        *self.recv
    }

    /// An iterator over the elements that `recv` dequeues.
    pub fn new(recv: &'queue mut Receiver<T>) -> (r: Self)
        ensures
            r.receiver() == *old(recv),
    {
        RefIter { recv }
    }

    /// The next element, waiting for one while the queue is open: `None`
    /// only once the queue is closed and drained, or once `try_dequeue` has
    /// answered `Empty` `u64::MAX + 1` times in a row.
    pub fn next(&mut self) -> (r: Option<T>)
        ensures
            final(self).receiver().tries() > old(self).receiver().tries(),
            r is Some ==> final(self).receiver().empty_run() == 0 && !final(self).receiver().last_closed(),
            r is None ==> final(self).receiver().last_closed() || final(self).receiver().empty_run()
                == old(self).receiver().empty_run() + u64::MAX + 1,
    {
        self.recv.dequeue()
    }
}

} // verus!
