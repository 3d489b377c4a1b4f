use tic_alloc::buddy::BuddyAllocator;
use tic_alloc::fast_pool::FastPool;

#[test]
fn fast_pool_hands_out_slots_in_order_then_runs_out() {
    let mut f = FastPool::new(100, 8, 3);
    assert_eq!(f.capacity(), 3);
    assert_eq!(f.slot_size(), 8);
    assert_eq!(f.allocate(), Some(100));
    assert_eq!(f.allocate(), Some(108));
    assert_eq!(f.allocate(), Some(116));
    assert_eq!(f.allocate(), None);
    assert!(f.contains_addr(100));
    assert!(f.contains_addr(123));
    assert!(!f.contains_addr(124));
    assert!(!f.contains_addr(99));
    f.free(108);
    f.free(116);
    assert_eq!(f.allocate(), Some(116));
    assert_eq!(f.allocate(), Some(108));
    assert_eq!(f.allocate(), None);
}

#[test]
fn empty_fast_pool() {
    let mut f = FastPool::new(0, 64, 0);
    assert_eq!(f.allocate(), None);
}

#[test]
fn buddy_splits_and_merges() {
    let mut b = BuddyAllocator::new(1000, 16, 3);
    assert_eq!(b.largest_free_block(), 128);
    assert_eq!(b.order_for(0), Some(0));
    assert_eq!(b.order_for(16), Some(0));
    assert_eq!(b.order_for(17), Some(1));
    assert_eq!(b.order_for(128), Some(3));
    assert_eq!(b.order_for(129), None);
    let p = b.allocate(10).unwrap();
    assert_eq!(p, 1000);
    let q = b.allocate(16).unwrap();
    assert_eq!(q, 1016);
    let r = b.allocate(32).unwrap();
    assert_eq!(r, 1032);
    assert_eq!(b.largest_free_block(), 64);
    assert_eq!(b.allocate(65), None);
    let s = b.allocate(64).unwrap();
    assert_eq!(s, 1064);
    assert_eq!(b.largest_free_block(), 0);
    assert_eq!(b.allocate(1), None);
    b.free(q, 16);
    assert_eq!(b.largest_free_block(), 16);
    b.free(p, 10);
    assert_eq!(b.largest_free_block(), 32);
    b.free(r, 32);
    assert_eq!(b.largest_free_block(), 64);
    b.free(s, 64);
    assert_eq!(b.largest_free_block(), 128);
}

#[test]
fn buddy_single_leaf_region() {
    let mut b = BuddyAllocator::new(0, 64, 0);
    assert_eq!(b.largest_free_block(), 64);
    let p = b.allocate(64).unwrap();
    assert_eq!(p, 0);
    assert_eq!(b.allocate(1), None);
    b.free(p, 64);
    assert_eq!(b.allocate(1), Some(0));
}

#[test]
fn buddy_search_starts_at_requested_order() {
    let mut b = BuddyAllocator::new(0, 16, 4);
    let a = b.allocate(16).unwrap();
    let c = b.allocate(64).unwrap();
    let d = b.allocate(16).unwrap();
    assert_eq!(a, 0);
    assert_eq!(c, 64);
    assert_eq!(d, 16);
    b.free(a, 16);
    b.free(d, 16);
    assert_eq!(b.largest_free_block(), 128);
    b.free(c, 64);
    assert_eq!(b.largest_free_block(), 256);
}
