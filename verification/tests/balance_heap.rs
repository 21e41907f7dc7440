use dispatch_ng::balance_heap::BalanceHeap;

#[test]
fn test_basic() {
    let mut heap = BalanceHeap::<char, u32>::new();
    heap.update('A', 1);
    heap.update('B', 2);

    assert_eq!(heap.peek(), Some(('B', 2)));
}

#[test]
fn test_update() {
    let mut heap = BalanceHeap::<char, u32>::new();
    heap.update('A', 1);
    heap.update('B', 2);
    heap.update('A', 3);

    assert_eq!(heap.peek(), Some(('A', 3)));
}

#[test]
fn test_gc() {
    let mut heap = BalanceHeap::<char, u32>::new();
    heap.update('A', 1);
    heap.update('B', 2);

    for count in 3..=24 {
        heap.update('A', count);
    }

    assert_eq!(heap.backing_len(), 8);
    assert_eq!(heap.peek(), Some(('A', 24)));
}

#[test]
fn test_get_returns_latest() {
    let mut heap = BalanceHeap::<char, u32>::new();
    assert_eq!(heap.get(&'A'), None);
    heap.update('A', 1);
    assert_eq!(heap.get(&'A'), Some(&1));
    heap.update('A', 7);
    assert_eq!(heap.get(&'A'), Some(&7));
    heap.update('B', 3);
    assert_eq!(heap.get(&'A'), Some(&7));
    assert_eq!(heap.get(&'B'), Some(&3));
}

#[test]
fn test_peek_empty() {
    let mut heap = BalanceHeap::<char, u32>::new();
    assert_eq!(heap.peek(), None);
    assert_eq!(heap.pop(), None);
}

#[test]
fn test_pop_removes_mapping() {
    let mut heap = BalanceHeap::<char, u32>::new();
    heap.update('A', 1);
    heap.update('B', 2);
    heap.update('C', 5);

    assert_eq!(heap.len(), 3);
    assert_eq!(heap.pop(), Some(('C', 5)));
    assert_eq!(heap.get(&'C'), None);
    assert_eq!(heap.len(), 2);
    assert_eq!(heap.pop(), Some(('B', 2)));
    assert_eq!(heap.pop(), Some(('A', 1)));
    assert_eq!(heap.pop(), None);
    assert_eq!(heap.len(), 0);
}

#[test]
fn test_peek_then_pop_agree() {
    let mut heap = BalanceHeap::<u32, u32>::new();
    heap.update(10, 4);
    heap.update(20, 4);
    heap.update(30, 1);

    let peeked = heap.peek();
    let popped = heap.pop();
    assert_eq!(peeked, popped);
}

#[test]
fn test_peek_discards_stale_copies() {
    let mut heap = BalanceHeap::<char, u32>::new();
    for priority in (1..=5u32).rev() {
        heap.update('A', priority);
    }
    assert_eq!(heap.backing_len(), 5);

    // The four copies with outdated priorities sit above the current
    // one and are discarded on the way to it.
    assert_eq!(heap.peek(), Some(('A', 1)));
    assert_eq!(heap.backing_len(), 1);
}

#[test]
fn test_compaction_bound_held() {
    let mut heap = BalanceHeap::<u32, u32>::new();
    for round in 0..50u32 {
        for key in 0..4u32 {
            heap.update(key, round * 4 + key);
            let backing = heap.backing_len();
            let live = heap.len();
            assert!(backing <= 17 || backing <= 2 * live + 1);
        }
    }
    assert_eq!(heap.len(), 4);
    while heap.pop().is_some() {
        let backing = heap.backing_len();
        let live = heap.len();
        assert!(backing <= 17 || backing <= 2 * live + 1);
    }
    assert_eq!(heap.len(), 0);
}
