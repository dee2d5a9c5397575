use canal::mpmc::MutexLinkedList;

#[test]
fn test_push_pop() {
    let mut q = MutexLinkedList::new();
    assert!(q.pop().is_none());
    q.push(1);
    q.push(2);
    assert_eq!(q.pop().unwrap(), 1);
    assert_eq!(q.pop().unwrap(), 2);
}

#[test]
fn test_list_fifo_order() {
    let mut q = MutexLinkedList::new();
    for i in 0..50u32 {
        q.push(i);
    }
    for i in 0..50u32 {
        assert_eq!(q.pop(), Some(i));
    }
    assert_eq!(q.pop(), None);
}
