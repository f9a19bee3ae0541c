use nolock::queues::spsc::bounded::{next_element, queue, Node, Ring};
use nolock::queues::{DequeueError, EnqueueError};

#[test]
fn bounded_enqueue_dequeue() {
    let (mut rx, mut tx) = queue(10);

    assert_eq!(Ok(()), tx.try_enqueue(13));
    assert_eq!(Ok(13), rx.try_dequeue());
}

#[test]
fn enqueue_will_block() {
    let (rx, mut tx) = queue(1);

    assert_eq!(Ok(()), tx.try_enqueue(13));
    assert_eq!(Err((14, EnqueueError::Full)), tx.try_enqueue(14));

    drop(rx);
}

#[test]
fn dequeue_will_block() {
    let (mut rx, tx) = queue::<usize>(1);

    assert_eq!(Err(DequeueError::Empty), rx.try_dequeue());

    drop(tx);
}

#[test]
fn enqueue_dequeue_full_buffer() {
    let (mut rx, mut tx) = queue(3);

    for i in 0..4 {
        assert_eq!(Ok(()), tx.try_enqueue(i));
        assert_eq!(Ok(i), rx.try_dequeue());
    }
}

#[test]
fn enqueue_is_closed() {
    let (rx, mut tx) = queue(3);

    drop(rx);
    assert_eq!(Err((13, EnqueueError::Closed)), tx.try_enqueue(13));
}

#[test]
fn dequeue_is_closed() {
    let (mut rx, tx) = queue::<usize>(3);

    drop(tx);
    assert_eq!(Err(DequeueError::Closed), rx.try_dequeue());
}

#[test]
fn enqueue_dequeue_is_closed() {
    let (mut rx, mut tx) = queue::<usize>(3);

    tx.try_enqueue(13).unwrap();
    drop(tx);

    assert_eq!(Ok(13), rx.try_dequeue());
    assert_eq!(Err(DequeueError::Closed), rx.try_dequeue());
}

#[test]
fn blocking_enqueue_closed() {
    let (rx, mut tx) = queue::<usize>(3);
    drop(rx);

    assert_eq!(Err((13, EnqueueError::Closed)), tx.enqueue(13));
}

#[test]
fn blocking_dequeue_closed() {
    let (mut rx, tx) = queue::<usize>(3);
    drop(tx);

    assert_eq!(None, rx.dequeue());
}

#[test]
fn is_empty() {
    let (mut rx, mut tx) = queue::<usize>(3);

    assert_eq!(true, rx.is_empty());

    tx.try_enqueue(13).unwrap();
    assert_eq!(false, rx.is_empty());

    rx.try_dequeue().unwrap();
    assert_eq!(true, rx.is_empty());
}

#[test]
fn is_full() {
    let (mut rx, mut tx) = queue::<usize>(1);

    assert_eq!(false, tx.is_full());

    tx.try_enqueue(13).unwrap();
    assert_eq!(true, tx.is_full());

    rx.try_dequeue().unwrap();
    assert_eq!(false, tx.is_full());
}

#[test]
fn sender_sees_close_by_receiver() {
    let (rx, tx) = queue::<usize>(3);
    assert_eq!(false, tx.is_closed());
    drop(rx);
    assert_eq!(true, tx.is_closed());
}

#[test]
fn receiver_sees_close_by_sender() {
    let (rx, tx) = queue::<usize>(3);
    assert_eq!(false, rx.is_closed());
    drop(tx);
    assert_eq!(true, rx.is_closed());
}

#[test]
fn elements_come_out_in_order_across_the_wrap() {
    let (mut rx, mut tx) = queue::<usize>(3);
    tx.try_enqueue(1).unwrap();
    tx.try_enqueue(2).unwrap();
    assert_eq!(Ok(1), rx.try_dequeue());
    tx.try_enqueue(3).unwrap();
    tx.try_enqueue(4).unwrap();
    assert_eq!(Err((5, EnqueueError::Full)), tx.try_enqueue(5));
    assert_eq!(Ok(2), rx.try_dequeue());
    assert_eq!(Ok(3), rx.try_dequeue());
    assert_eq!(Ok(4), rx.try_dequeue());
    assert_eq!(Err(DequeueError::Empty), rx.try_dequeue());
}

#[test]
fn blocking_enqueue_and_dequeue_succeed_with_room() {
    let (mut rx, mut tx) = queue::<usize>(2);
    assert_eq!(Ok(()), tx.enqueue(7));
    assert_eq!(Some(7), rx.dequeue());
}

#[test]
fn next_element_wraps() {
    assert_eq!(1, next_element(0, 3));
    assert_eq!(2, next_element(1, 3));
    assert_eq!(0, next_element(2, 3));
}

#[test]
fn node_store_and_load() {
    let mut node = Node::new();
    assert_eq!(false, node.is_set());
    node.store(5u8);
    assert_eq!(true, node.is_set());
    assert_eq!(5, node.load());
    assert_eq!(false, node.is_set());
}

#[test]
fn ring_reports_full_and_closed() {
    let mut ring = Ring::new(1);
    assert_eq!(true, ring.is_empty());
    assert_eq!(Ok(()), ring.try_enqueue(9u8));
    assert_eq!(true, ring.is_full());
    ring.close();
    assert_eq!(Err((1, EnqueueError::Closed)), ring.try_enqueue(1));
    assert_eq!(Ok(9), ring.try_dequeue());
    assert_eq!(Err(DequeueError::Closed), ring.try_dequeue());
}
