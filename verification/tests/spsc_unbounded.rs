use nolock::queues::spsc::unbounded::d_spsc::{unbounded_basic_queue, BasicQueue};
use nolock::queues::spsc::unbounded::{queue, Unbounded, BUFFER_SIZE};
use nolock::queues::{DequeueError, EnqueueError};

#[test]
fn unbounded_enqueue_dequeue() {
    let (mut rx, mut tx) = queue();

    tx.enqueue(13).unwrap();
    assert_eq!(Ok(13), rx.try_dequeue());
}

#[test]
fn multi_buffer() {
    let (mut rx, mut tx) = queue();

    tx.enqueue(13).unwrap();
    tx.enqueue(14).unwrap();
    tx.enqueue(15).unwrap();

    assert_eq!(Ok(13), rx.try_dequeue());
    assert_eq!(Ok(14), rx.try_dequeue());
    assert_eq!(Ok(15), rx.try_dequeue());
}

#[test]
fn unbounded_enqueue_closed() {
    let (rx, mut tx) = queue();
    drop(rx);

    assert_eq!(Err((13, EnqueueError::Closed)), tx.enqueue(13));
}

#[test]
fn unbounded_dequeue_closed() {
    let (mut rx, tx) = queue::<usize>();
    drop(tx);

    assert_eq!(Err(DequeueError::Closed), rx.try_dequeue());
}

#[test]
fn d_spsc_enqueue_dequeue() {
    let (mut rx, mut tx) = unbounded_basic_queue();

    tx.enqueue(13).unwrap();
    assert_eq!(Ok(13), rx.try_dequeue());
}

#[test]
fn d_spsc_dequeue_empty() {
    let (mut rx, mut tx) = unbounded_basic_queue();

    assert_eq!(Err(DequeueError::Empty), rx.try_dequeue());
    tx.enqueue(13).unwrap();
    assert_eq!(Ok(13), rx.try_dequeue());
    assert_eq!(Err(DequeueError::Empty), rx.try_dequeue());
}

#[test]
fn multiple_enqueue_dequeue() {
    let (mut rx, mut tx) = unbounded_basic_queue();

    tx.enqueue(13).unwrap();
    assert_eq!(Ok(13), rx.try_dequeue());
    tx.enqueue(14).unwrap();
    assert_eq!(Ok(14), rx.try_dequeue());
    tx.enqueue(15).unwrap();
    assert_eq!(Ok(15), rx.try_dequeue());
}

#[test]
fn multiple_enqueue_dequeue_2() {
    let (mut rx, mut tx) = unbounded_basic_queue();

    tx.enqueue(13).unwrap();
    tx.enqueue(14).unwrap();
    tx.enqueue(15).unwrap();
    assert_eq!(Ok(13), rx.try_dequeue());
    assert_eq!(Ok(14), rx.try_dequeue());
    assert_eq!(Ok(15), rx.try_dequeue());
}

#[test]
fn unbounded_spans_many_rings() {
    let (mut rx, mut tx) = queue::<usize>();
    let n = BUFFER_SIZE * 3 + 5;
    for i in 0..n {
        tx.enqueue(i).unwrap();
    }
    for i in 0..n {
        assert_eq!(Ok(i), rx.try_dequeue());
    }
    assert_eq!(Err(DequeueError::Empty), rx.try_dequeue());
}

#[test]
fn unbounded_drains_after_sender_drop() {
    let (mut rx, mut tx) = queue::<usize>();
    for i in 0..(BUFFER_SIZE + 1) {
        tx.enqueue(i).unwrap();
    }
    assert_eq!(false, rx.is_closed());
    drop(tx);
    for i in 0..(BUFFER_SIZE + 1) {
        assert_eq!(Ok(i), rx.try_dequeue());
    }
    assert_eq!(true, rx.is_closed());
    assert_eq!(Err(DequeueError::Closed), rx.try_dequeue());
    assert_eq!(None, rx.dequeue());
}

#[test]
fn unbounded_sender_sees_receiver_drop() {
    let (rx, tx) = queue::<u8>();
    assert_eq!(false, tx.is_closed());
    drop(rx);
    assert_eq!(true, tx.is_closed());
}

#[test]
fn unbounded_core_closes_per_side() {
    let mut q = Unbounded::new(2);
    assert_eq!(Ok(()), q.enqueue(1u8));
    assert_eq!(Ok(()), q.enqueue(2u8));
    assert_eq!(Ok(()), q.enqueue(3u8));
    q.close_sender();
    assert_eq!(Ok(1), q.try_dequeue());
    assert_eq!(Ok(2), q.try_dequeue());
    assert_eq!(Ok(3), q.try_dequeue());
    assert_eq!(Err(DequeueError::Closed), q.try_dequeue());
}

#[test]
fn basic_queue_reuses_nodes_and_keeps_order() {
    let mut q = BasicQueue::new();
    for round in 0..3u32 {
        for i in 0..10u32 {
            assert_eq!(Ok(()), q.enqueue(round * 10 + i));
        }
        assert_eq!(true, q.has_next());
        for i in 0..10u32 {
            assert_eq!(Ok(round * 10 + i), q.try_dequeue());
        }
        assert_eq!(false, q.has_next());
    }
    q.close();
    assert_eq!(Err(7), q.enqueue(7));
}

#[test]
fn basic_queue_has_next_through_handles() {
    let (mut rx, mut tx) = unbounded_basic_queue();
    assert_eq!(false, rx.has_next());
    tx.enqueue(1u8).unwrap();
    assert_eq!(true, rx.has_next());
    drop(rx);
    assert_eq!(Err(2), tx.enqueue(2u8));
}
