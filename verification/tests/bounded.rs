use cao_queue::bounded::BoundedQueue;
use cao_queue::queue_error::QueueError;
use cao_queue::spmcfifo::SpmcFifo;
use uuid::Uuid;

fn id(n: u128) -> Uuid {
    Uuid::from_u128(n)
}

#[test]
fn push_creates_a_queue_per_producer() {
    let mut q = BoundedQueue::new(4);
    assert!(q.is_empty());
    assert_eq!(q.push(id(1), 'a'), Ok(()));
    assert_eq!(q.push(id(1), 'b'), Ok(()));
    assert_eq!(q.push(id(1), 'c'), Ok(()));
    // a queue of 4 slots holds 3 items
    assert_eq!(q.push(id(1), 'd'), Err(QueueError::Full));
    assert_eq!(q.push(id(2), 'x'), Ok(()));
    assert!(!q.is_empty());
    assert_eq!(q.pop_from(id(1)), Ok(Some('a')));
    assert_eq!(q.pop_from(id(3)), Err(QueueError::QueueNotFound));
    assert_eq!(q.clear(id(1)), Ok(()));
    assert_eq!(q.pop_from(id(1)), Ok(None));
    assert_eq!(q.pop_any(), Some('x'));
    assert_eq!(q.pop_any(), None);
    assert!(q.is_empty());
    q.remove_producer(id(2));
    assert_eq!(q.pop_from(id(2)), Err(QueueError::QueueNotFound));
    assert_eq!(q.clear(id(2)), Err(QueueError::QueueNotFound));
}

#[test]
fn bad_default_size_is_reported_on_first_push() {
    let mut q = BoundedQueue::new(3);
    assert_eq!(q.push(id(7), 0u8), Err(QueueError::BadSize(3)));
    let mut one = BoundedQueue::new(1);
    assert_eq!(one.push(id(7), 0u8), Err(QueueError::Full));
    assert_eq!(one.pop_from(id(7)), Err(QueueError::QueueNotFound));
}

#[test]
fn registered_queue_replaces_the_default() {
    let mut q = BoundedQueue::new(2);
    let mut custom = SpmcFifo::new(8).unwrap();
    custom.push(10u32).unwrap();
    assert!(q.register_producer(id(5), custom).is_ok());
    for i in 0..6u32 {
        assert_eq!(q.push(id(5), i), Ok(()));
    }
    assert_eq!(q.push(id(5), 99), Err(QueueError::Full));
    assert_eq!(q.pop_from(id(5)), Ok(Some(10)));
}
