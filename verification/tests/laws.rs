use nolock::queues::mpmc::unbounded::Lscq;
use nolock::queues::mpsc::jiffy::Jiffy;
use nolock::queues::spsc::bounded::Ring;
use nolock::queues::spsc::unbounded::Unbounded;
use nolock::queues::EnqueueError;

#[test]
fn fifo_over_interleaved_steps() {
    let mut ring = Ring::new(16);
    let mut out = Vec::new();
    for round in 0..10u32 {
        assert_eq!(Ok(()), ring.try_enqueue(2 * round));
        assert_eq!(Ok(()), ring.try_enqueue(2 * round + 1));
        out.push(ring.try_dequeue().unwrap());
    }
    while let Ok(x) = ring.try_dequeue() {
        out.push(x);
    }
    assert_eq!((0..20).collect::<Vec<u32>>(), out);

    let mut lscq = Lscq::new();
    let mut out = Vec::new();
    for round in 0..300u32 {
        assert!(lscq.enqueue(round).is_ok());
        if round % 3 == 0 {
            out.push(lscq.try_dequeue().unwrap());
        }
    }
    while let Ok(x) = lscq.try_dequeue() {
        out.push(x);
    }
    assert_eq!((0..300).collect::<Vec<u32>>(), out);

    let mut unbounded = Unbounded::new(4);
    let mut out = Vec::new();
    for round in 0..50u32 {
        assert!(unbounded.enqueue(round).is_ok());
        if round % 2 == 1 {
            out.push(unbounded.try_dequeue().unwrap());
        }
    }
    while let Ok(x) = unbounded.try_dequeue() {
        out.push(x);
    }
    assert_eq!((0..50).collect::<Vec<u32>>(), out);
}

#[test]
fn bounded_holds_exactly_its_capacity() {
    let mut ring = Ring::new(4);
    for i in 0..4u8 {
        assert_eq!(Ok(()), ring.try_enqueue(i));
    }
    assert_eq!(Err((9, EnqueueError::Full)), ring.try_enqueue(9));
    assert_eq!(Ok(0), ring.try_dequeue());
    assert_eq!(Ok(()), ring.try_enqueue(9));
    assert_eq!(Err((10, EnqueueError::Full)), ring.try_enqueue(10));
}

#[test]
fn jiffy_hands_out_the_oldest_written_element() {
    let mut jiffy = Jiffy::new();
    let early = jiffy.reserve().unwrap();
    assert_eq!(Ok(()), jiffy.enqueue(20u32));
    assert_eq!(Ok(20), jiffy.try_dequeue());
    jiffy.store(early, 10);
    assert_eq!(Ok(10), jiffy.try_dequeue());
    assert!(jiffy.try_dequeue().is_err());
}
