use nolock::queues::mpsc::jiffy::node::{Node, NodeState};
use nolock::queues::mpsc::jiffy::{queue, Jiffy, OwnedIter, BUFFER_SIZE};
use nolock::queues::{DequeueError, EnqueueError};

#[test]
fn jiffy_dequeue_empty() {
    let (mut rx, tx) = queue::<u8>();

    assert_eq!(Err(DequeueError::Empty), rx.try_dequeue());
    drop(tx);
}

#[test]
fn enqueue_one() {
    let (rx, tx) = queue();

    tx.enqueue(13).unwrap();
    drop(rx);
}

#[test]
fn jiffy_enqueue_dequeue() {
    let (mut rx, tx) = queue();

    tx.enqueue(13).unwrap();
    assert_eq!(Ok(13), rx.try_dequeue());
}

#[test]
fn enqueue_fill_one_buffer() {
    let (mut rx, tx) = queue();

    let elements = BUFFER_SIZE + 2;
    for i in 0..elements {
        tx.enqueue(i).unwrap();
    }
    for i in 0..elements {
        assert_eq!(Ok(i), rx.try_dequeue());
    }
}

#[test]
fn fill_mulitple_buffers() {
    let (mut rx, tx) = queue();

    let elements = BUFFER_SIZE * 5;
    for i in 0..elements {
        tx.enqueue(i).unwrap();
    }
    for i in 0..elements {
        assert_eq!(Ok(i), rx.try_dequeue());
    }

    tx.enqueue(13).unwrap();
    assert_eq!(Ok(13), rx.try_dequeue());
}

#[test]
fn jiffy_enqueue_closed() {
    let (rx, tx) = queue();
    drop(rx);

    assert_eq!(Err((13, EnqueueError::Closed)), tx.enqueue(13));
}

#[test]
fn jiffy_dequeue_closed() {
    let (mut rx, tx) = queue::<usize>();
    drop(tx);

    assert_eq!(Err(DequeueError::Closed), rx.try_dequeue());
}

#[test]
fn enqueue_dequeue_closed() {
    let (mut rx, tx) = queue::<usize>();

    tx.enqueue(13).unwrap();
    drop(tx);

    assert_eq!(Ok(13), rx.try_dequeue());
    assert_eq!(Err(DequeueError::Closed), rx.try_dequeue());
}

#[test]
fn enqueue_some_close() {
    let (rx, tx) = queue::<usize>();

    for index in 0..10 {
        tx.enqueue(index).unwrap();
    }

    drop(tx);
    drop(rx);
}

#[test]
fn iter_mut() {
    let (mut rx, tx) = queue::<usize>();

    tx.enqueue(13).unwrap();
    drop(tx);

    let mut iter = rx.iter_mut();
    assert_eq!(Some(13), iter.next());
    assert_eq!(None, iter.next());

    assert_eq!(true, rx.is_closed());
}

#[test]
fn node_store_load() {
    let mut node: Node<u64> = Default::default();

    node.store(15);
    assert_eq!(15, node.load());
}

#[test]
fn node_state_store_state() {
    let mut node: Node<u64> = Default::default();

    assert_eq!(NodeState::Empty, node.get_state());
    node.store(13);
    assert_eq!(NodeState::Filled, node.get_state());
}

#[test]
fn iterate() {
    let (rx, tx) = queue();

    tx.enqueue(13).unwrap();
    drop(tx);

    let mut rx_iter = OwnedIter::new(rx);

    assert_eq!(Some(13), rx_iter.next());
    assert_eq!(None, rx_iter.next());
}

#[test]
fn scan() {
    let mut q = Jiffy::new();
    let a = q.reserve().unwrap();
    let b = q.reserve().unwrap();
    let c = q.reserve().unwrap();
    assert_eq!((0, 1, 2), (a, b, c));
    q.store(c, 13u32);

    assert_eq!((0, Some(2)), q.scan(0));
}

#[test]
fn out_of_order_write_is_taken_then_skipped() {
    let mut q = Jiffy::new();
    let first = q.reserve().unwrap();
    let second = q.reserve().unwrap();
    q.store(second, 'b');
    // The head's location is reserved but not written: the later element comes out.
    assert_eq!(Ok('b'), q.try_dequeue());
    assert_eq!(Err(DequeueError::Empty), q.try_dequeue());
    q.store(first, 'a');
    assert_eq!(Ok('a'), q.try_dequeue());
    // The handled node is skipped.
    assert_eq!(Ok(()), q.enqueue('c'));
    assert_eq!(Ok('c'), q.try_dequeue());
    assert_eq!(Err(DequeueError::Empty), q.try_dequeue());
}

#[test]
fn node_state_codes() {
    assert_eq!(0, NodeState::Empty.to_u8());
    assert_eq!(1, NodeState::Filled.to_u8());
    assert_eq!(2, NodeState::Handled.to_u8());
    assert_eq!(Some(NodeState::Handled), NodeState::from_u8(2));
    assert_eq!(None, NodeState::from_u8(3));
}

#[test]
fn node_handled_keeps_value() {
    let mut node: Node<u8> = Node::new();
    node.store(4);
    node.handled();
    assert_eq!(NodeState::Handled, node.get_state());
    assert_eq!(4, node.load());
}

#[test]
fn receiver_and_sender_see_closing() {
    let (rx, tx) = queue::<u8>();
    assert_eq!(false, rx.is_closed());
    assert_eq!(false, tx.is_closed());
    drop(rx);
    assert_eq!(true, tx.is_closed());
}

#[test]
fn owned_iter_collects_in_order() {
    let (rx, tx) = queue::<usize>();
    for i in 0..5 {
        tx.enqueue(i).unwrap();
    }
    drop(tx);
    let mut it = rx.into_iter();
    let mut seen = Vec::new();
    while let Some(v) = it.next() {
        seen.push(v);
    }
    assert_eq!(vec![0, 1, 2, 3, 4], seen);
}
