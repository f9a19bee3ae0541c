use nolock::queues::mpmc::unbounded::queue::new_queue;
use nolock::queues::mpmc::unbounded::{queue, Lscq, BUFFER_SIZE};
use nolock::queues::{DequeueError, EnqueueError};

#[test]
fn unbounded_new_queue() {
    queue::<u64>();
}

#[test]
fn unbounded_enqueue() {
    let (rx, tx) = queue::<u64>();

    assert_eq!(Ok(()), tx.enqueue(13));
    drop(rx);
}

#[test]
fn lscq_enqueue_dequeue() {
    let (rx, tx) = queue::<u64>();

    assert_eq!(Ok(()), tx.enqueue(13));
    assert_eq!(Ok(13), rx.try_dequeue());
}

#[test]
fn enqueue_fill_multiple() {
    let (rx, tx) = queue::<usize>();

    for index in 0..(BUFFER_SIZE * 3) {
        tx.enqueue(index).unwrap();
    }
    drop(rx);
}

#[test]
fn enqueue_dequeue_fill_multiple() {
    let (rx, tx) = queue::<usize>();

    for index in 0..(BUFFER_SIZE * 3) {
        tx.enqueue(index).unwrap();
        assert_eq!(Ok(index), rx.try_dequeue());
    }
}

#[test]
fn enqueue_fill_multiple_dequeue_all() {
    let (rx, tx) = queue::<usize>();

    for index in 0..(BUFFER_SIZE * 3) {
        tx.enqueue(index).unwrap();
    }
    for index in 0..(BUFFER_SIZE * 3) {
        assert_eq!(Ok(index), rx.try_dequeue());
    }
}

#[test]
fn receiver_is_closed() {
    let (rx, tx) = queue::<u64>();

    assert_eq!(false, rx.is_closed());

    drop(tx);
    assert_eq!(true, rx.is_closed());
}

#[test]
fn sender_is_closed() {
    let (rx, tx) = queue::<u64>();

    assert_eq!(false, tx.is_closed());

    drop(rx);
    assert_eq!(true, tx.is_closed());
}

#[test]
fn enqueue_on_closed() {
    let (rx, tx) = queue::<u64>();

    assert_eq!(Ok(()), tx.enqueue(13));
    drop(rx);

    assert_eq!(Err(14), tx.enqueue(14));
}

#[test]
fn dequeue_on_closed() {
    let (rx, tx) = queue::<u64>();

    assert_eq!(Err(DequeueError::Empty), rx.try_dequeue());
    drop(tx);

    assert_eq!(Err(DequeueError::Closed), rx.try_dequeue());
}

#[test]
fn enqueue_finalize() {
    let mut queue = new_queue(10);

    for index in 0..10 {
        queue
            .try_enqueue(index)
            .expect("Queue has enough capacity to place all the Elements into it");
    }

    assert_eq!(Err((EnqueueError::Full, 0)), queue.try_enqueue(0));

    queue.dequeue().expect("The Queue contains elements");

    assert_eq!(Err((EnqueueError::Full, 0)), queue.try_enqueue(0));
}

#[test]
fn segment_is_fifo_and_reports_empty() {
    let mut queue = new_queue(3);
    assert_eq!(true, queue.is_empty());
    assert_eq!(Err(DequeueError::Empty), queue.dequeue());
    queue.try_enqueue('x').unwrap();
    queue.try_enqueue('y').unwrap();
    assert_eq!(false, queue.is_empty());
    assert_eq!(Ok('x'), queue.dequeue());
    assert_eq!(Ok('y'), queue.dequeue());
    assert_eq!(Err(DequeueError::Empty), queue.dequeue());
}

#[test]
fn lscq_core_counts_sides() {
    let mut q = Lscq::new();
    assert_eq!(Ok(()), q.enqueue(1u8));
    q.drop_receiver();
    assert_eq!(true, q.is_closed_for_sender());
    assert_eq!(Err(2), q.enqueue(2u8));
    assert_eq!(Ok(1), q.try_dequeue());
    q.drop_sender();
    assert_eq!(true, q.is_closed_for_receiver());
    assert_eq!(Err(DequeueError::Closed), q.try_dequeue());
}
