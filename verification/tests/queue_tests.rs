use dedup_cache::dedup::Queue;
use dedup_cache::dedup::DEFAULT_CAPACITY;

#[test]
fn fifo_eviction_capacity_two() {
    let mut q = Queue::with_capacity(2);
    assert_eq!(q.push(1), None);
    assert_eq!(q.push(2), None);
    assert_eq!(q.push(3), Some(1));
    assert!(!q.contains(&1));
    assert!(q.contains(&2));
    assert!(q.contains(&3));
    assert_eq!(q.len(), 2);
}

#[test]
fn size_is_distinct_count_clipped_at_capacity() {
    let mut q = Queue::with_capacity(3);
    let inserts = [10, 20, 10, 30, 20, 40, 50, 10];
    for id in inserts {
        q.push(id);
    }
    // distinct inserted: 10, 20, 30, 40, 50 -> clipped at 3
    assert_eq!(q.len(), 3);

    let mut small = Queue::with_capacity(8);
    small.push(1);
    small.push(1);
    small.push(2);
    assert_eq!(small.len(), 2);
}

#[test]
fn reinserting_present_id_changes_nothing() {
    let mut q = Queue::with_capacity(2);
    q.push(1);
    q.push(2);
    assert_eq!(q.push(1), None);
    assert_eq!(q.len(), 2);
    assert!(q.contains(&1));
    assert!(q.contains(&2));
    // 1 was not moved to the back: the next fresh insert still evicts 1.
    assert_eq!(q.push(3), Some(1));
    assert!(q.contains(&2));
    assert!(q.contains(&3));
}

#[test]
fn under_capacity_no_eviction() {
    let mut q = Queue::with_capacity(4);
    assert_eq!(q.push(1), None);
    assert_eq!(q.push(2), None);
    assert_eq!(q.push(3), None);
    assert_eq!(q.len(), 3);
    assert!(q.contains(&1) && q.contains(&2) && q.contains(&3));
}

#[test]
fn clear_forgets_everything() {
    let mut q = Queue::with_capacity(4);
    q.push(1);
    q.push(2);
    q.clear();
    assert_eq!(q.len(), 0);
    assert!(!q.contains(&1));
    assert!(!q.contains(&2));
    // still usable afterwards
    assert_eq!(q.push(9), None);
    assert!(q.contains(&9));
}

#[test]
fn optimize_rebuilds_and_is_idempotent() {
    let mut q = Queue::with_capacity(4);
    q.push(5);
    q.push(6);
    q.push(7);
    q.optimize();
    let first: Vec<bool> = (0..10).map(|id| q.contains(&id)).collect();
    q.optimize();
    let second: Vec<bool> = (0..10).map(|id| q.contains(&id)).collect();
    assert_eq!(first, second);
    assert!(q.contains(&5) && q.contains(&6) && q.contains(&7));
    assert_eq!(q.len(), 3);
}

#[test]
fn new_has_default_capacity() {
    let mut q = Queue::new();
    for id in 0..DEFAULT_CAPACITY as u64 {
        assert_eq!(q.push(id), None);
    }
    assert_eq!(q.len(), DEFAULT_CAPACITY);
    assert_eq!(q.push(DEFAULT_CAPACITY as u64), Some(0));
    assert_eq!(q.len(), DEFAULT_CAPACITY);
    assert!(!q.contains(&0));
}

#[test]
fn reserve_affects_allocation_only() {
    let mut q = Queue::with_capacity(2);
    q.push(1);
    q.push(2);
    q.reserve(10);
    // membership and order are untouched
    assert_eq!(q.len(), 2);
    assert!(q.contains(&1) && q.contains(&2));
    assert_eq!(q.get(0), 1);
    assert_eq!(q.get(1), 2);
    // and so is the eviction point: the capacity is still 2
    assert_eq!(q.push(3), Some(1));
    assert_eq!(q.len(), 2);
    // a smaller reserve changes nothing either
    q.reserve(1);
    assert_eq!(q.push(4), Some(2));
    assert_eq!(q.len(), 2);
}

#[test]
fn capacity_zero_still_remembers_one() {
    let mut q = Queue::with_capacity(0);
    assert_eq!(q.push(5), None);
    assert_eq!(q.len(), 1);
    assert!(q.contains(&5));
    assert_eq!(q.push(6), Some(5));
    assert_eq!(q.len(), 1);
    assert!(!q.contains(&5));
    assert!(q.contains(&6));
}

#[test]
fn get_reports_insertion_order() {
    let mut q = Queue::with_capacity(3);
    q.push(30);
    q.push(10);
    q.push(20);
    assert_eq!(q.get(0), 30);
    assert_eq!(q.get(1), 10);
    assert_eq!(q.get(2), 20);
    q.push(40);
    assert_eq!(q.get(0), 10);
    assert_eq!(q.get(2), 40);
}

#[test]
fn largest_identifier_round_trips_through_membership() {
    let mut q = Queue::with_capacity(2);
    q.push(u64::MAX);
    q.push(0);
    assert!(q.contains(&u64::MAX));
    assert!(q.contains(&0));
    assert_eq!(q.push(u64::MAX), None);
}
