use dedup_cache::codec::decode;
use dedup_cache::codec::encode;
use dedup_cache::codec::CacheError;
use dedup_cache::scoped::ScopedCache;

fn expect_ok(bytes: &Vec<u8>, capacity: usize) -> ScopedCache {
    match decode(bytes, capacity) {
        Ok(c) => c,
        Err(_) => panic!("expected the bytes to decode"),
    }
}

fn raw(words: &[u64]) -> Vec<u8> {
    let mut out = Vec::new();
    for w in words {
        out.extend_from_slice(&w.to_le_bytes());
    }
    out
}

#[test]
fn round_trip_preserves_membership() {
    let mut c = ScopedCache::new(3);
    c.insert(1, 10);
    c.insert(1, 11);
    c.insert(2, 20);
    c.insert(2, 21);
    c.insert(2, 22);
    c.insert(2, 23); // evicts 20
    let bytes = encode(&c);
    let d = expect_ok(&bytes, 3);
    for scope in 0..4 {
        for id in 0..30 {
            assert_eq!(d.contains(scope, id), c.contains(scope, id));
        }
    }
    assert!(!d.has_scope(3));
    assert_eq!(d.total_entries(), c.total_entries());
}

#[test]
fn round_trip_of_empty_cache() {
    let c = ScopedCache::new(5);
    let bytes = encode(&c);
    assert_eq!(bytes.len(), 8);
    let d = expect_ok(&bytes, 5);
    assert_eq!(d.scope_count(), 0);
    assert_eq!(d.total_entries(), 0);
}

#[test]
fn round_trip_keeps_insertion_order() {
    let mut c = ScopedCache::new(3);
    c.insert(7, 3);
    c.insert(7, 1);
    c.insert(7, 2);
    let bytes = encode(&c);
    let d = expect_ok(&bytes, 3);
    let set = d.scope_set(0);
    assert_eq!(set.get(0), 3);
    assert_eq!(set.get(1), 1);
    assert_eq!(set.get(2), 2);
    // the rebuilt set still evicts in the loaded order
    let mut d = d;
    c.insert(7, 4);
    d.insert(7, 4);
    assert!(!c.contains(7, 3));
    assert!(!d.contains(7, 3));
}

#[test]
fn empty_input_is_a_load_failure() {
    let bytes: Vec<u8> = Vec::new();
    assert!(matches!(decode(&bytes, 4), Err(CacheError::LoadFailure)));
}

#[test]
fn truncated_input_is_a_load_failure() {
    let mut c = ScopedCache::new(4);
    c.insert(1, 10);
    c.insert(2, 20);
    let bytes = encode(&c);
    for cut in 0..bytes.len() {
        let shorter: Vec<u8> = bytes[..cut].to_vec();
        assert!(matches!(decode(&shorter, 4), Err(CacheError::LoadFailure)));
    }
}

#[test]
fn trailing_bytes_are_a_load_failure() {
    let mut c = ScopedCache::new(4);
    c.insert(1, 10);
    let mut bytes = encode(&c);
    bytes.push(0);
    assert!(matches!(decode(&bytes, 4), Err(CacheError::LoadFailure)));
}

#[test]
fn repeated_identifier_is_a_load_failure() {
    // one scope, key 5, two ids, both 9
    let bytes = raw(&[1, 5, 2, 9, 9]);
    assert!(matches!(decode(&bytes, 4), Err(CacheError::LoadFailure)));
}

#[test]
fn repeated_scope_key_is_a_load_failure() {
    let bytes = raw(&[2, 5, 1, 9, 5, 1, 8]);
    assert!(matches!(decode(&bytes, 4), Err(CacheError::LoadFailure)));
}

#[test]
fn oversized_scope_is_a_load_failure() {
    // three ids in a scope, loaded with capacity two
    let bytes = raw(&[1, 5, 3, 7, 8, 9]);
    assert!(matches!(decode(&bytes, 2), Err(CacheError::LoadFailure)));
    // the same bytes are fine under a larger capacity
    let d = expect_ok(&bytes, 3);
    assert!(d.contains(5, 7) && d.contains(5, 8) && d.contains(5, 9));
}

#[test]
fn empty_scope_is_a_load_failure() {
    let bytes = raw(&[1, 5, 0]);
    assert!(matches!(decode(&bytes, 4), Err(CacheError::LoadFailure)));
}

#[test]
fn wrong_scope_count_is_a_load_failure() {
    // says two scopes, holds one
    let bytes = raw(&[2, 5, 1, 9]);
    assert!(matches!(decode(&bytes, 4), Err(CacheError::LoadFailure)));
}

#[test]
fn encode_layout_is_count_then_key_count_ids() {
    let mut c = ScopedCache::new(4);
    c.insert(5, 9);
    c.insert(5, 10);
    c.insert(6, 11);
    assert_eq!(encode(&c), raw(&[2, 5, 2, 9, 10, 6, 1, 11]));
}

#[test]
fn valid_raw_bytes_decode() {
    let bytes = raw(&[2, 5, 2, 9, 10, 6, 1, 11]);
    let d = expect_ok(&bytes, 4);
    assert_eq!(d.scope_count(), 2);
    assert_eq!(d.scope_key(0), 5);
    assert_eq!(d.scope_key(1), 6);
    assert!(d.contains(5, 9) && d.contains(5, 10) && d.contains(6, 11));
    assert!(!d.contains(6, 9));
    assert_eq!(d.total_entries(), 3);
}
