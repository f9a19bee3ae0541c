//! What a task waiting on a queue does after each attempt: it is done once
//! the attempt succeeded or the queue is closed, and waits to be woken while
//! the queue is full (for an enqueue) or empty (for a dequeue).

use vstd::prelude::*;

use crate::queues::{DequeueError, EnqueueError};

verus! {

/// The next move of a waiting task.
#[derive(Debug, PartialEq, Eq)]
pub enum Next<R> {
    /// The task is done with this result.
    Ready(R),
    /// The task waits to be woken, then tries again.
    Wait,
}

/// After an enqueue attempt: done when the element went in or the queue is
/// closed; a full queue hands the element back for the next attempt.
pub fn after_enqueue<T>(attempt: Result<(), (T, EnqueueError)>) -> (r: (Next<Result<(), (T, EnqueueError)>>, Option<T>))
    ensures
        match attempt {
            Ok(()) => r.0 == Next::<Result<(), (T, EnqueueError)>>::Ready(Ok(())) && r.1 is None,
            Err((d, e)) => if e == EnqueueError::Full {
                r.0 == Next::<Result<(), (T, EnqueueError)>>::Wait && r.1 == Some(d)
            } else {
                r.0 == Next::<Result<(), (T, EnqueueError)>>::Ready(Err((d, e))) && r.1 is None
            },
        },
{
    match attempt {
        Ok(()) => (Next::Ready(Ok(())), None),
        Err((d, EnqueueError::Full)) => (Next::Wait, Some(d)),
        Err((d, EnqueueError::Closed)) => (Next::Ready(Err((d, EnqueueError::Closed))), None),
    }
}

/// After a dequeue attempt: done with an element or when the queue is
/// closed and drained; an empty queue means waiting.
pub fn after_dequeue<T>(attempt: Result<T, DequeueError>) -> (r: Next<Result<T, DequeueError>>)
    ensures
        attempt == Err::<T, DequeueError>(DequeueError::Empty) ==> r == Next::<Result<T, DequeueError>>::Wait,
        attempt != Err::<T, DequeueError>(DequeueError::Empty) ==> r == Next::<Result<T, DequeueError>>::Ready(attempt),
{
    match attempt {
        Err(DequeueError::Empty) => Next::Wait,
        other => Next::Ready(other),
    }
}

} // verus!
