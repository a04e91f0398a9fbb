use cao_queue::mpfifo::MpFifo;
use cao_queue::queue_error::QueueError;
use cao_queue::spmcfifo::SpmcFifo;
use cao_queue::MessageId;

#[test]
fn mpfifo_test_full_push_fails() {
    let mut msgs = Vec::with_capacity(17);
    let mut queue = MpFifo::new(16).unwrap();

    for i in 0..15 {
        // size - 1
        msgs.push(MessageId(i));
        let msg: &MessageId = msgs.last().unwrap();
        queue.push(*msg).unwrap();
    }

    msgs.push(MessageId(69));
    let msg: &MessageId = msgs.last().unwrap();

    // last push should err
    queue.push(*msg).unwrap_err();

    queue.pop_single().unwrap();

    queue.push(*msg).unwrap();
}

#[test]
fn spmcfifo_test_full_push_fails() {
    let mut msgs = Vec::with_capacity(17);
    let mut queue = SpmcFifo::new(16).unwrap();

    for i in 0..15 {
        // size - 1
        msgs.push(MessageId(i));
        let msg: &MessageId = msgs.last().unwrap();
        queue.push(*msg).unwrap();
    }

    msgs.push(MessageId(69));
    let msg: &MessageId = msgs.last().unwrap();

    // last push should err
    queue.push(*msg).unwrap_err();

    queue.pop().unwrap();

    queue.push(*msg).unwrap();
}

#[test]
fn spmcfifo_pops_in_push_order() {
    let mut queue = SpmcFifo::new(8).unwrap();
    for round in 0..5u64 {
        for i in 0..7u64 {
            queue.push(MessageId(round * 10 + i)).unwrap();
        }
        assert_eq!(queue.push(MessageId(99)), Err(QueueError::Full));
        assert_eq!(
            queue.iter(),
            (0..7u64).map(|i| MessageId(round * 10 + i)).collect::<Vec<_>>()
        );
        for i in 0..7u64 {
            assert_eq!(queue.pop(), Some(MessageId(round * 10 + i)));
        }
        assert_eq!(queue.pop(), None);
        assert!(queue.is_empty());
    }
}

#[test]
fn spmcfifo_clear_empties() {
    let mut queue = SpmcFifo::new(4).unwrap();
    queue.push(1u32).unwrap();
    queue.push(2u32).unwrap();
    assert!(!queue.is_empty());
    queue.clear();
    assert!(queue.is_empty());
    assert_eq!(queue.pop(), None);
    queue.push(3u32).unwrap();
    assert_eq!(queue.pop(), Some(3));
}

#[test]
fn fifo_sizes_must_be_powers_of_two() {
    assert!(matches!(SpmcFifo::<u8>::new(12), Err(QueueError::BadSize(12))));
    assert!(matches!(MpFifo::<u8>::new(3), Err(QueueError::BadSize(3))));
    assert!(SpmcFifo::<u8>::new(1).is_ok());
    // a ring of one slot holds nothing
    let mut one = MpFifo::new(1).unwrap();
    assert_eq!(one.push(7u8), Err(QueueError::Full));
}

#[test]
fn mpfifo_wraps_around() {
    let mut queue = MpFifo::new(4).unwrap();
    for i in 0..20u32 {
        queue.push(i).unwrap();
        queue.push(i + 100).unwrap();
        assert_eq!(queue.pop_single(), Some(i));
        assert_eq!(queue.pop_multi(), Some(i + 100));
        assert_eq!(queue.pop_single(), None);
    }
}
