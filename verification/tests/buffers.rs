use contextstore::aligned_buffer::{aligned_capacity, AlignedBuffer, AlignedBufferPool};

#[test]
fn write_via_ptr_then_read() {
    let mut buf = AlignedBuffer::zeroed(8192, 4096);
    for i in 0..100 {
        buf.write_byte(i, (i & 0xff) as u8);
    }
    buf.set_len(100);
    assert_eq!(buf.as_slice().len(), 100);
    for (i, &b) in buf.as_slice().iter().enumerate() {
        assert_eq!(b, (i & 0xff) as u8);
    }
}

#[test]
fn truncate_shortens() {
    let mut buf = AlignedBuffer::zeroed(4096, 4096);
    buf.set_len(4096);
    buf.truncate(1000);
    assert_eq!(buf.len(), 1000);
    // truncate does not grow length
    buf.truncate(5000);
    assert_eq!(buf.len(), 1000);
}

#[test]
fn pool_reuses_same_capacity() {
    let mut pool: AlignedBufferPool<u64> = AlignedBufferPool::new(2);
    assert!(pool.acquire(8192, 4096).is_none());
    let mut a = AlignedBuffer::new(0x5000u64, 8192, 4096);
    a.set_len(10);
    assert!(pool.release(a).is_none());
    let b = pool.acquire(8192, 4096).unwrap();
    assert_eq!(*b.mem(), 0x5000, "expected pooled buffer reuse");
    assert_eq!(b.len(), 0, "reused buffer len must be reset");
    assert!(pool.release(b).is_none());
}

#[test]
fn pool_bounded_per_class() {
    let mut pool: AlignedBufferPool<u64> = AlignedBufferPool::new(1);
    assert!(pool.release(AlignedBuffer::new(1, 4096, 4096)).is_none());
    let refused = pool.release(AlignedBuffer::new(2, 4096, 4096));
    assert_eq!(refused.unwrap().into_mem(), 2);
    assert_eq!(pool.acquire(4096, 4096).unwrap().into_mem(), 1);
    assert!(pool.acquire(4096, 4096).is_none());
    let mut none: AlignedBufferPool<u64> = AlignedBufferPool::new(0);
    assert!(none.release(AlignedBuffer::new(3, 4096, 4096)).is_some());
}

#[test]
fn pool_distinct_capacity_classes() {
    let mut pool: AlignedBufferPool<u64> = AlignedBufferPool::new(2);
    assert!(pool.release(AlignedBuffer::new(1, 4096, 4096)).is_none());
    assert!(pool.release(AlignedBuffer::new(2, 8192, 4096)).is_none());
    assert_eq!(pool.acquire(8192, 4096).unwrap().capacity(), 8192);
    assert_eq!(pool.acquire(4096, 4096).unwrap().capacity(), 4096);
}

#[test]
fn align_4k_ptr() {
    let buf = AlignedBuffer::zeroed(1, 4096);
    assert_eq!(buf.capacity(), 4096); // rounded up to 4K
}

#[test]
fn capacities_are_whole_blocks() {
    assert_eq!(aligned_capacity(1, 4096), 4096);
    assert_eq!(aligned_capacity(4096, 4096), 4096);
    assert_eq!(aligned_capacity(4097, 4096), 8192);
    assert!(AlignedBuffer::zeroed(1, 4096).is_empty());
}
