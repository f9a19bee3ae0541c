use nolock::queues::mpmc::queue::scq::entry_data::QueueEntryData;
use nolock::queues::mpmc::queue::{ncq, queue_ncq, queue_scq, scq, SlotQueue, UnderlyingQueue};

#[test]
fn ncq_new() {
    queue_ncq::<u64>(10);
}

#[test]
fn ncq_enqueue() {
    let (_rx, tx) = queue_ncq::<u64>(10);

    assert_eq!(Ok(()), tx.try_enqueue(15));
}

#[test]
fn ncq_dequeue() {
    let (rx, _tx) = queue_ncq::<u64>(10);

    assert_eq!(None, rx.dequeue());
}

#[test]
fn ncq_enqueue_dequeue() {
    let (rx, tx) = queue_ncq::<u64>(10);

    assert_eq!(Ok(()), tx.try_enqueue(15));
    assert_eq!(Some(15), rx.dequeue());
}

#[test]
fn ncq_enqueue_dequeue_fill_multiple() {
    let (rx, tx) = queue_ncq::<u64>(10);

    for index in 0..(5 * 10) {
        assert_eq!(Ok(()), tx.try_enqueue(index));
        assert_eq!(Some(index), rx.dequeue());
    }
}

#[test]
fn queue_scq_new() {
    queue_scq::<u64>(10);
}

#[test]
fn scq_enqueue() {
    let (_rx, tx) = queue_scq::<u64>(10);

    assert_eq!(Ok(()), tx.try_enqueue(15));

    let mut queue = nolock::queues::mpmc::scq::Queue::new_empty(2);
    queue.enqueue(15);
}

#[test]
fn scq_dequeue() {
    let (rx, _tx) = queue_scq::<u64>(10);

    assert_eq!(None, rx.dequeue());
}

#[test]
fn scq_enqueue_dequeue() {
    let (rx, tx) = queue_scq::<u64>(10);

    assert_eq!(Ok(()), tx.try_enqueue(15));
    assert_eq!(Some(15), rx.dequeue());
}

#[test]
fn queue_scq_enqueue_dequeue_fill_multiple() {
    let (rx, tx) = queue_scq::<u64>(10);

    for index in 0..(5 * 10) {
        assert_eq!(Ok(()), tx.try_enqueue(index));
        assert_eq!(Some(index), rx.dequeue());
    }
}

#[test]
fn ncq_new_queue() {
    ncq::Queue::new(10);
}

#[test]
fn enqueue_single() {
    let mut queue = ncq::Queue::new(10);

    queue.enqueue(13);
}

#[test]
fn enqueue_dequeue_single() {
    let mut queue = ncq::Queue::new(10);

    queue.enqueue(13);
    assert_eq!(Some(13), queue.dequeue());
}

#[test]
fn enqueue_dequeue_double_capacity() {
    let mut queue = ncq::Queue::new(10);

    for index in 0..20 {
        queue.enqueue(index);
        assert_eq!(Some(index), queue.dequeue());
    }
}

#[test]
fn scq_scq_new() {
    scq::Queue::new(10);
}

#[test]
fn scq_enqueue_single() {
    let mut queue = scq::Queue::new(10);
    queue.enqueue(13);
}

#[test]
fn scq_enqueue_dequeue_single() {
    let mut queue = scq::Queue::new(10);
    queue.enqueue(13);
    assert_eq!(Some(13), queue.dequeue());
}

#[test]
fn scq_scq_enqueue_dequeue_fill_multiple() {
    let mut queue = scq::Queue::new(10);

    for index in 0..(3 * 10) {
        queue.enqueue(index);
        assert_eq!(Some(index), queue.dequeue());
    }
}

#[test]
fn queue_entry_is_safe() {
    assert_eq!(true, QueueEntryData::from(0x8000000000000000).is_safe());
    assert_eq!(true, QueueEntryData::from(0xd000000000000000).is_safe());
    assert_eq!(false, QueueEntryData::from(0x4000000000000000).is_safe());
}

#[test]
fn queue_entry_cycle() {
    assert_eq!(0, QueueEntryData::from(0x8000000000000000).cycle());
    assert_eq!(1, QueueEntryData::from(0x8000000100000000).cycle());
    assert_eq!(0x70000000, QueueEntryData::from(0xf000000000000000).cycle());
}

#[test]
fn queue_entry_index() {
    assert_eq!(0x80000000, QueueEntryData::from(0x8123456780000000).index());
}

#[test]
fn queue_entry_to_value() {
    let a: u64 = QueueEntryData::new(true, 0, 0).into();
    assert_eq!(0x8000000000000000u64, a);
    let b: u64 = QueueEntryData::new(true, 0x15, 0).into();
    assert_eq!(0x8000001500000000u64, b);
    let c: u64 = QueueEntryData::new(true, 0x15, 0x15).into();
    assert_eq!(0x8000001500000015u64, c);
}

#[test]
fn queue_entry_cycle_keeps_31_bits() {
    let d = QueueEntryData::new(false, 0xffff_ffff, 7);
    assert_eq!(false, d.is_safe());
    assert_eq!(0x7fff_ffff, d.cycle());
    assert_eq!(7, d.index());
}

#[test]
fn ncq_is_fifo_over_several_indices() {
    let mut queue = ncq::Queue::new(4);
    queue.enqueue(3);
    queue.enqueue(1);
    queue.enqueue(2);
    assert_eq!(Some(3), queue.dequeue());
    queue.enqueue(0);
    assert_eq!(Some(1), queue.dequeue());
    assert_eq!(Some(2), queue.dequeue());
    assert_eq!(Some(0), queue.dequeue());
    assert_eq!(None, queue.dequeue());
}

#[test]
fn scq_empty_dequeues_then_enqueue() {
    let mut queue = scq::Queue::new(3);
    assert_eq!(None, queue.dequeue());
    queue.enqueue(2);
    assert_eq!(Some(2), queue.dequeue());
    assert_eq!(None, queue.dequeue());
    assert_eq!(None, queue.dequeue());
    queue.enqueue(1);
    queue.enqueue(0);
    assert_eq!(Some(1), queue.dequeue());
    assert_eq!(Some(0), queue.dequeue());
    assert_eq!(None, queue.dequeue());
}

#[test]
fn bounded_queue_reports_full() {
    let (rx, tx) = queue_ncq::<u8>(2);
    assert_eq!(Ok(()), tx.try_enqueue(1));
    assert_eq!(Ok(()), tx.try_enqueue(2));
    assert_eq!(Err(3), tx.try_enqueue(3));
    assert_eq!(Some(1), rx.dequeue());
    assert_eq!(Ok(()), tx.try_enqueue(3));
    assert_eq!(Some(2), rx.dequeue());
    assert_eq!(Some(3), rx.dequeue());
    assert_eq!(None, rx.dequeue());
}

#[test]
fn slot_queue_over_scq_is_fifo() {
    let (rx, tx) = queue_scq::<&str>(3);
    assert_eq!(Ok(()), tx.try_enqueue("a"));
    assert_eq!(Ok(()), tx.try_enqueue("b"));
    assert_eq!(Ok(()), tx.try_enqueue("c"));
    assert_eq!(Err("d"), tx.try_enqueue("d"));
    assert_eq!(Some("a"), rx.dequeue());
    assert_eq!(Some("b"), rx.dequeue());
    assert_eq!(Some("c"), rx.dequeue());
    assert_eq!(None, rx.dequeue());
    let _unused: Option<SlotQueue<u8, ncq::Queue>> = None;
}
