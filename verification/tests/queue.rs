use canal::mpmc::LockFreeQueue;

#[test]
fn test_capacity_rounding() {
    assert_eq!(LockFreeQueue::<u8>::with_capacity(0).capacity(), 2);
    assert_eq!(LockFreeQueue::<u8>::with_capacity(1).capacity(), 2);
    assert_eq!(LockFreeQueue::<u8>::with_capacity(2).capacity(), 2);
    assert_eq!(LockFreeQueue::<u8>::with_capacity(3).capacity(), 4);
    assert_eq!(LockFreeQueue::<u8>::with_capacity(5).capacity(), 8);
    assert_eq!(LockFreeQueue::<u8>::with_capacity(20).capacity(), 32);
    assert_eq!(LockFreeQueue::<u8>::with_capacity(1024).capacity(), 1024);
}

#[test]
fn test_capacity_two_scenario() {
    let mut q = LockFreeQueue::with_capacity(2);
    assert_eq!(q.push(1), Ok(()));
    assert_eq!(q.push(2), Ok(()));
    assert_eq!(q.push(3), Err(3));
    assert_eq!(q.pop(), Some(1));
    assert_eq!(q.pop(), Some(2));
    assert_eq!(q.pop(), None);
}

#[test]
fn test_full_push_retry() {
    let mut q = LockFreeQueue::with_capacity(2);
    assert_eq!(q.push(7), Ok(()));
    assert_eq!(q.push(8), Ok(()));
    // The queue is at capacity: the push fails and hands the value back
    // unchanged.
    assert_eq!(q.push(9), Err(9));
    assert_eq!(q.push(9), Err(9));
    // Once space frees, retrying with the same value succeeds.
    assert_eq!(q.pop(), Some(7));
    assert_eq!(q.push(9), Ok(()));
    assert_eq!(q.pop(), Some(8));
    assert_eq!(q.pop(), Some(9));
    assert_eq!(q.pop(), None);
}

#[test]
fn test_wraparound_reuses_slots() {
    // Push and pop many more items than the capacity, so that every slot
    // is reused and the sequence numbers wrap.
    let mut q = LockFreeQueue::with_capacity(4);
    for round in 0..25u32 {
        assert_eq!(q.push(4 * round), Ok(()));
        assert_eq!(q.push(4 * round + 1), Ok(()));
        assert_eq!(q.pop(), Some(4 * round));
        assert_eq!(q.pop(), Some(4 * round + 1));
    }
    assert_eq!(q.pop(), None);
}

#[test]
fn test_tagged_items_drain() {
    // Several producers' tagged items, interleaved round-robin: draining
    // must yield every tagged item exactly once.
    let producers: usize = 4;
    let per_producer: usize = 5;
    let mut q = LockFreeQueue::with_capacity(producers * per_producer);
    for i in 0..per_producer {
        for p in 0..producers {
            assert_eq!(q.push(100 * p + i), Ok(()));
        }
    }
    let mut seen = Vec::new();
    while let Some(v) = q.pop() {
        seen.push(v);
    }
    assert_eq!(seen.len(), producers * per_producer);
    seen.sort();
    let mut expected = Vec::new();
    for p in 0..producers {
        for i in 0..per_producer {
            expected.push(100 * p + i);
        }
    }
    assert_eq!(seen, expected);
}
