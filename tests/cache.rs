use movegen::cache::Cache;

#[test]
fn cache_rejects_bad_sizes() {
    assert!(Cache::new(0).is_err());
    assert!(Cache::new(100).is_err());
    assert!(Cache::new(1023).is_err());
    assert!(Cache::new(1536).is_err());
    assert!(Cache::new(512).is_err());
}

#[test]
fn cache_accepts_powers_of_two() {
    for size in [1024usize, 2048, 1 << 20] {
        let c = Cache::new(size).unwrap();
        assert_eq!(c.mask(), size / 16 - 1);
    }
}

#[test]
fn cache_error_messages() {
    assert_eq!(Cache::new(100).err().unwrap(), "Cache size must be 2^N");
    assert_eq!(Cache::new(512).err().unwrap(), "Cache size must be at least 1024 bytes");
}

#[test]
fn cache_fresh_misses() {
    let c = Cache::new(1024).unwrap();
    assert_eq!(c.probe(5, 3), None);
    assert_eq!(c.probe(0, 0), None);
}

#[test]
fn cache_distinct_slots_kept() {
    let mut c = Cache::new(1024).unwrap();
    c.save(1, 100, 3);
    c.save(2, 200, 4);
    assert_eq!(c.probe(1, 3), Some(100));
    assert_eq!(c.probe(2, 4), Some(200));
}

#[test]
fn cache_depth_mismatch_misses() {
    let mut c = Cache::new(1024).unwrap();
    c.save(7, 42, 5);
    assert_eq!(c.probe(7, 4), None);
    assert_eq!(c.probe(7, 6), None);
    assert_eq!(c.probe(7, 5), Some(42));
}

#[test]
fn cache_collision_overwrites() {
    let mut c = Cache::new(1024).unwrap();
    // 64 slots: keys 3 and 67 share a slot.
    c.save(3, 11, 2);
    c.save(67, 22, 2);
    assert_eq!(c.probe(3, 2), None);
    assert_eq!(c.probe(67, 2), Some(22));
}

#[test]
fn cache_same_key_latest_wins() {
    let mut c = Cache::new(2048).unwrap();
    c.save(9, 1, 1);
    c.save(9, 2, 1);
    assert_eq!(c.probe(9, 1), Some(2));
}

#[test]
fn cache_fresh_never_matches_wrapped_depth() {
    let c = Cache::new(1024).unwrap();
    assert_eq!(c.probe(0, 65535), None);
}

#[test]
fn cache_depth_compared_exactly() {
    let mut c = Cache::new(1024).unwrap();
    c.save(5, 9, 3);
    assert_eq!(c.probe(5, 65539), None);
    assert_eq!(c.probe(5, 3), Some(9));
}
