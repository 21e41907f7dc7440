use core::cmp::Ordering;

use dispatch_ng::balance_heap::BalanceHeap;
use dispatch_ng::ord::{EasyOrd, OrdWrapper};

#[test]
fn test_wrapper_equality_follows_comparison() {
    assert!(OrdWrapper(3u32) == OrdWrapper(3u32));
    assert!(OrdWrapper(3u32) != OrdWrapper(4u32));
    assert!(OrdWrapper(3u32) < OrdWrapper(4u32));
    assert!(OrdWrapper(9u32) > OrdWrapper(4u32));
    assert_eq!(
        OrdWrapper(1u32).partial_cmp(&OrdWrapper(2u32)),
        Some(Ordering::Less)
    );
}

#[test]
fn test_wrapper_comparison_delegates() {
    assert_eq!(OrdWrapper(1u32).cmp(&OrdWrapper(2u32)), Ordering::Less);
    assert_eq!(OrdWrapper(2u32).cmp(&OrdWrapper(2u32)), Ordering::Equal);
    assert_eq!(OrdWrapper(3u32).cmp(&OrdWrapper(2u32)), Ordering::Greater);
}

#[test]
fn test_heap_over_wrapped_values() {
    let mut heap = BalanceHeap::<char, OrdWrapper<u32>>::new();
    heap.update('A', OrdWrapper(1));
    heap.update('B', OrdWrapper(2));

    assert_eq!(heap.peek(), Some(('B', OrdWrapper(2))));
}
