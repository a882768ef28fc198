use dedup_cache::scoped::ScopedCache;

#[test]
fn absent_scope_answers_false() {
    let c = ScopedCache::new(4);
    assert!(!c.contains(1, 1));
    assert!(!c.has_scope(1));
    assert_eq!(c.scope_count(), 0);
}

#[test]
fn scopes_are_created_lazily_and_kept() {
    let mut c = ScopedCache::new(4);
    assert!(!c.has_scope(7));
    c.insert(7, 100);
    assert!(c.has_scope(7));
    assert!(!c.has_scope(8));
    assert_eq!(c.scope_count(), 1);
    c.insert(8, 100);
    assert_eq!(c.scope_count(), 2);
}

#[test]
fn scopes_deduplicate_independently() {
    let mut c = ScopedCache::new(4);
    c.insert(1, 100);
    assert!(c.contains(1, 100));
    assert!(!c.contains(2, 100));
    c.insert(2, 100);
    assert!(c.contains(1, 100));
    assert!(c.contains(2, 100));
    assert!(!c.contains(1, 200));
}

#[test]
fn insert_delegates_fifo_eviction() {
    let mut c = ScopedCache::new(2);
    assert_eq!(c.insert(5, 1), None);
    assert_eq!(c.insert(5, 2), None);
    assert_eq!(c.insert(5, 3), Some(1));
    assert!(!c.contains(5, 1));
    assert!(c.contains(5, 2));
    assert!(c.contains(5, 3));
    // the other scope was never touched
    assert!(!c.contains(6, 1));
}

#[test]
fn reinsert_in_scope_is_noop() {
    let mut c = ScopedCache::new(2);
    c.insert(5, 1);
    c.insert(5, 2);
    assert_eq!(c.insert(5, 1), None);
    assert_eq!(c.total_entries(), 2);
    assert!(c.contains(5, 1));
    assert!(c.contains(5, 2));
}

#[test]
fn total_entries_sums_all_scopes() {
    let mut c = ScopedCache::new(3);
    assert_eq!(c.total_entries(), 0);
    c.insert(1, 10);
    c.insert(1, 11);
    c.insert(2, 10);
    assert_eq!(c.total_entries(), 3);
    // eviction keeps the count at the capacity
    c.insert(1, 12);
    c.insert(1, 13);
    assert_eq!(c.total_entries(), 4);
}

#[test]
fn scope_accessors_report_creation_order() {
    let mut c = ScopedCache::new(4);
    c.insert(9, 1);
    c.insert(3, 2);
    c.insert(9, 4);
    assert_eq!(c.scope_count(), 2);
    assert_eq!(c.scope_key(0), 9);
    assert_eq!(c.scope_key(1), 3);
    assert_eq!(c.scope_set(0).len(), 2);
    assert_eq!(c.scope_set(0).get(0), 1);
    assert_eq!(c.scope_set(0).get(1), 4);
    assert_eq!(c.scope_set(1).get(0), 2);
}
