//! Queues: single-producer/single-consumer, multi-producer/single-consumer
//! and multi-producer/multi-consumer.

use vstd::prelude::*;

pub mod mpmc;
pub mod mpsc;
pub mod spsc;
pub mod waiting;

verus! {

/// Why an element could not be enqueued.
#[derive(Debug, PartialEq, Eq, Structural, Clone, Copy)]
pub enum EnqueueError {
    /// The queue has no room for another element.
    Full,
    /// The other side of the queue is gone.
    Closed,
}

/// Why no element could be dequeued.
#[derive(Debug, PartialEq, Eq, Structural, Clone, Copy)]
pub enum DequeueError {
    /// There is currently no element in the queue.
    Empty,
    /// There is no element and the producing side is gone.
    Closed,
}

/// `after` is `before` with `x` appended: what a successful enqueue of `x`
/// does to the items of every queue of this crate.
pub open spec fn appended<T>(before: Seq<T>, after: Seq<T>, x: T) -> bool {
    after == before.push(x)
}

/// `x` is the oldest item of `before` and `after` holds the others: what a
/// successful dequeue that hands out `x` does to the items of every queue of
/// this crate.
pub open spec fn removed_first<T>(before: Seq<T>, after: Seq<T>, x: T) -> bool {
    &&& before.len() > 0
    &&& x == before[0]
    &&& after == before.drop_first()
}

/// One successful operation on a queue, with the value it moved.
pub enum Step<T> {
    Enqueued(T),
    Dequeued(T),
}

/// The items of a queue that started with `start` after `steps`, each step
/// doing what a successful enqueue or dequeue does; `None` when a step could
/// not have happened (a dequeue that does not hand out the oldest item).
pub open spec fn run<T>(start: Seq<T>, steps: Seq<Step<T>>) -> Option<Seq<T>>
    decreases steps.len(),
{
    if steps.len() == 0 {
        Some(start)
    } else {
        match run(start, steps.drop_last()) {
            None => None,
            Some(items) => match steps.last() {
                Step::Enqueued(x) => Some(items.push(x)),
                Step::Dequeued(x) => if items.len() > 0 && items[0] == x {
                    Some(items.drop_first())
                } else {
                    None
                },
            },
        }
    }
}

/// The values enqueued by `steps`, in order.
pub open spec fn enqueued<T>(steps: Seq<Step<T>>) -> Seq<T>
    decreases steps.len(),
{
    if steps.len() == 0 {
        Seq::empty()
    } else {
        match steps.last() {
            Step::Enqueued(x) => enqueued(steps.drop_last()).push(x),
            Step::Dequeued(_) => enqueued(steps.drop_last()),
        }
    }
}

/// The values dequeued by `steps`, in order.
pub open spec fn dequeued<T>(steps: Seq<Step<T>>) -> Seq<T>
    decreases steps.len(),
{
    if steps.len() == 0 {
        Seq::empty()
    } else {
        match steps.last() {
            Step::Enqueued(_) => dequeued(steps.drop_last()),
            Step::Dequeued(x) => dequeued(steps.drop_last()).push(x),
        }
    }
}

/// A step of a run does to the items what the matching operation's contract
/// says: `appended` for an enqueue, `removed_first` for a dequeue.
pub proof fn law_step<T>(start: Seq<T>, steps: Seq<Step<T>>, before: Seq<T>, step: Step<T>, after: Seq<T>)
    requires
        run(start, steps) == Some(before),
    ensures
        run(start, steps.push(step)) == Some(after) <==> match step {
            Step::Enqueued(x) => appended(before, after, x),
            Step::Dequeued(x) => removed_first(before, after, x),
        },
{
    assert(steps.push(step).drop_last() =~= steps);
}

/// Queues are first in, first out: over any run of successful enqueues and
/// dequeues, interleaved in any way, starting from an empty queue, the
/// values handed out followed by the values still held are exactly the
/// values put in, in the order they were put in.
pub proof fn law_fifo<T>(steps: Seq<Step<T>>, items: Seq<T>)
    requires
        run(Seq::empty(), steps) == Some(items),
    ensures
        enqueued(steps) == dequeued(steps) + items,
    decreases steps.len(),
{
    if steps.len() == 0 {
        assert(dequeued(steps) + items =~= Seq::<T>::empty());
    } else {
        let prefix = steps.drop_last();
        let before = run(Seq::empty(), prefix)->0;
        law_fifo(prefix, before);
        match steps.last() {
            Step::Enqueued(x) => {
                assert(enqueued(steps) =~= dequeued(steps) + items);
            },
            Step::Dequeued(x) => {
                assert(before =~= seq![x] + items);
                assert(enqueued(steps) =~= dequeued(steps) + items);
            },
        }
    }
}

/// What is enqueued into an empty queue is what the next dequeue hands out,
/// and the queue is empty again.
pub proof fn law_read_back<T>(empty: Seq<T>, one: Seq<T>, again: Seq<T>, x: T, y: T)
    requires
        empty.len() == 0,
        appended(empty, one, x),
        removed_first(one, again, y),
    ensures
        y == x,
        again.len() == 0,
{
}

} // verus!
