use nolock::queues::waiting::{after_dequeue, after_enqueue, Next};
use nolock::queues::{DequeueError, EnqueueError};

#[test]
fn waiting_after_enqueue() {
    let (next, back) = after_enqueue::<u32>(Ok(()));
    assert_eq!(Next::Ready(Ok(())), next);
    assert_eq!(None, back);

    let (next, back) = after_enqueue::<u32>(Err((7, EnqueueError::Full)));
    assert_eq!(Next::Wait, next);
    assert_eq!(Some(7), back);

    let (next, back) = after_enqueue::<u32>(Err((7, EnqueueError::Closed)));
    assert_eq!(Next::Ready(Err((7, EnqueueError::Closed))), next);
    assert_eq!(None, back);
}

#[test]
fn waiting_after_dequeue() {
    assert_eq!(Next::Ready(Ok(3)), after_dequeue::<u32>(Ok(3)));
    assert_eq!(Next::Wait, after_dequeue::<u32>(Err(DequeueError::Empty)));
    assert_eq!(
        Next::Ready(Err(DequeueError::Closed)),
        after_dequeue::<u32>(Err(DequeueError::Closed))
    );
}
