use nolock::queues::mpmc::scq::Queue;

#[test]
fn scq_new() {
    let queue = Queue::new_empty(2);
    drop(queue);
}

#[test]
fn scq_variant_empty_dequeue() {
    let mut queue = Queue::new_empty(2);
    assert_eq!(None, queue.dequeue());
    assert_eq!(None, queue.dequeue());
}

#[test]
fn scq_variant_full_dequeue() {
    let mut queue = Queue::new_full(2);
    for i in 0..4 {
        assert_eq!(Some(i), queue.dequeue());
    }
    for _ in 4..8 {
        assert_eq!(Some(0), queue.dequeue());
    }
}

#[test]
fn scq_variant_enqueue_after_dequeue() {
    let mut queue = Queue::new_full(2);
    assert_eq!(Some(0), queue.dequeue());
    queue.enqueue(5);
    assert_eq!(Some(1), queue.dequeue());
}

#[test]
fn scq_variant_empty_enqueue_then_dequeue() {
    let mut queue = Queue::new_empty(2);
    queue.enqueue(5);
    assert_eq!(Some(5), queue.dequeue());
}
