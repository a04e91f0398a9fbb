use cao_queue::bucket_allocator::{Allocation, BucketAllocator};
use cao_queue::message::ManagedMessage;
use cao_queue::MessageId;

#[test]
fn can_allocate() {
    let mut allocator = BucketAllocator::new(128);
    let bytes = allocator.allocate(128);
    let res = b"pogchamp";
    allocator.write(bytes, res);

    assert_eq!(allocator.read(bytes, res.len()), res.to_vec());
}

#[test]
fn can_reuse_bucket() {
    let mut allocator = BucketAllocator::new(128);
    let ptr = allocator.allocate(128);
    allocator.deallocate(ptr, 128);
    let _ptr = allocator.allocate(128);

    // assert that no new instance has been created
    assert!(!allocator.has_next());
}

#[test]
fn allocate_align() {
    let mut allocator = BucketAllocator::new(512);
    let ptr = allocator.allocate_aligned(128, 16);

    assert_eq!(ptr.offset % 16, 0);
}

#[test]
fn can_expand() {
    let mut allocator = BucketAllocator::new(16);

    let ptr = allocator.allocate(128);
    let res = b"pogchamp";
    allocator.write(ptr, res);
    assert_eq!(allocator.read(ptr, res.len()), res.to_vec());

    allocator.deallocate(ptr, 128);

    assert!(allocator.has_next());

    assert!(allocator.capacity() >= 128 + 16);
}

#[test]
fn alignment_skips_to_the_next_multiple() {
    let mut allocator = BucketAllocator::new(64);
    let a = allocator.allocate(3);
    assert_eq!(a, Allocation { bucket: 0, offset: 0 });
    let b = allocator.allocate_aligned(4, 8);
    assert_eq!(b, Allocation { bucket: 0, offset: 8 });
    let c = allocator.allocate(1);
    assert_eq!(c, Allocation { bucket: 0, offset: 12 });
}

#[test]
fn new_bucket_is_half_again_as_large() {
    // a request that the first bucket cannot serve goes to a new bucket of 1.5 times the size
    let mut allocator = BucketAllocator::new(10);
    let a = allocator.allocate(20);
    assert_eq!(a, Allocation { bucket: 1, offset: 0 });
    assert_eq!(allocator.capacity(), 10 + 30);
    // the first bucket still serves small requests
    let b = allocator.allocate(4);
    assert_eq!(b, Allocation { bucket: 0, offset: 0 });
}

#[test]
fn small_request_that_does_not_fit_gives_back_the_tail() {
    let mut allocator = BucketAllocator::new(30);
    let a = allocator.allocate(25);
    assert_eq!(a, Allocation { bucket: 0, offset: 0 });
    // 10 bytes do not fit behind the head, and 10 < 30 * 2 / 3: the tail is counted as given
    // back; one allocation is still out, so the bucket does not start over
    let b = allocator.allocate(10);
    assert_eq!(b, Allocation { bucket: 1, offset: 0 });
    // once the allocation comes back the first bucket is empty again
    allocator.deallocate(a, 25);
    let c = allocator.allocate(10);
    assert_eq!(c, Allocation { bucket: 0, offset: 0 });
}

#[test]
fn full_bucket_starts_over_when_everything_came_back() {
    let mut allocator = BucketAllocator::new(30);
    let a = allocator.allocate(25);
    allocator.deallocate(a, 25);
    // the 5 bytes behind the head are counted as given back when a request does not fit
    // there; then every byte is back and the bucket starts over
    let b = allocator.allocate(10);
    assert_eq!(b.bucket, 0);
    assert_eq!(b.offset, 0);
    assert!(!allocator.has_next());
}

#[test]
fn managed_message_writes_up_to_its_capacity() {
    let mut allocator = BucketAllocator::new(64);
    let mut msg = ManagedMessage::new(MessageId(9), 5, &mut allocator);
    assert_eq!(msg.write(&mut allocator, b"abc"), 3);
    assert_eq!(msg.write(&mut allocator, b"defg"), 2);
    assert_eq!(msg.write(&mut allocator, b"h"), 0);
    assert_eq!(msg.as_slice(&allocator), b"abcde".to_vec());
    msg.release(&mut allocator);
}

#[test]
fn live_block_is_never_handed_out_again() {
    let mut allocator = BucketAllocator::new(120);
    let p = allocator.allocate(90);
    assert_eq!(p, Allocation { bucket: 0, offset: 0 });
    allocator.write(p, &[7u8; 90]);
    let mut blocks = Vec::new();
    for _ in 0..4 {
        let q = allocator.allocate(50);
        // the first bucket gave its tail back once and serves nothing while `p` is out
        assert_ne!(q.bucket, 0);
        allocator.write(q, &[1u8; 50]);
        blocks.push(q);
    }
    assert_eq!(blocks[0], Allocation { bucket: 1, offset: 0 });
    assert_eq!(blocks[1], Allocation { bucket: 1, offset: 50 });
    assert_eq!(blocks[2], Allocation { bucket: 1, offset: 100 });
    assert_eq!(blocks[3], Allocation { bucket: 2, offset: 0 });
    assert_eq!(allocator.read(p, 90), vec![7u8; 90]);
    // once `p` is back the first bucket starts over
    allocator.deallocate(p, 90);
    assert_eq!(allocator.allocate(50), Allocation { bucket: 0, offset: 0 });
}

#[test]
fn giving_back_one_block_keeps_the_others() {
    let mut allocator = BucketAllocator::new(64);
    let a = allocator.allocate(16);
    let b = allocator.allocate(16);
    allocator.write(b, b"bbbb");
    allocator.deallocate(a, 16);
    let c = allocator.allocate(16);
    assert_eq!(c, Allocation { bucket: 0, offset: 32 });
    assert_eq!(allocator.read(b, 4), b"bbbb".to_vec());
}

#[test]
fn managed_message_changes_in_place() {
    let mut allocator = BucketAllocator::new(64);
    let mut msg = ManagedMessage::new(MessageId(1), 8, &mut allocator);
    assert_eq!(msg.write(&mut allocator, b"abcd"), 4);
    {
        let s = msg.as_mut_slice(&mut allocator);
        assert_eq!(s.len(), 4);
        s[0] = b'x';
    }
    assert_eq!(msg.as_slice(&allocator), b"xbcd".to_vec());
    msg.release(&mut allocator);
    assert!(!allocator.has_next());
}
