use ficsit_networks_repository::cache::{Action, FetchError, TtlCache};

#[test]
fn concurrent_requests_fetch_once() {
    let mut c: TtlCache<u32> = TtlCache::new(4, 30);
    let k = "x".to_string();
    let actions: Vec<Action> = (0..5).map(|t| c.request(&k, t)).collect();
    assert_eq!(actions, vec![Action::Fetch, Action::Wait, Action::Wait, Action::Wait, Action::Wait]);
    assert!(c.cached(&k).is_none());
    c.complete(&k, Ok(7), 5);
    assert_eq!(c.request(&k, 6), Action::Serve);
    assert_eq!(c.cached(&k), Some(&Ok(7)));
}

#[test]
fn not_found_is_cached_until_expiry() {
    let mut c: TtlCache<u32> = TtlCache::new(4, 30);
    let k = "missing".to_string();
    assert_eq!(c.request(&k, 100), Action::Fetch);
    c.complete(&k, Err(FetchError::NotFound), 100);
    assert_eq!(c.request(&k, 101), Action::Serve);
    assert_eq!(c.cached(&k), Some(&Err(FetchError::NotFound)));
    assert_eq!(c.request(&k, 129), Action::Serve);
    assert_eq!(c.request(&k, 130), Action::Fetch);
    assert_eq!(c.request(&k, 131), Action::Wait);
}

#[test]
fn ttl_counts_from_insertion_not_reads() {
    let mut c: TtlCache<u32> = TtlCache::new(4, 10);
    let k = "k".to_string();
    c.request(&k, 0);
    c.complete(&k, Ok(1), 0);
    for t in 1..10 {
        assert_eq!(c.request(&k, t), Action::Serve);
    }
    assert_eq!(c.request(&k, 10), Action::Fetch);
}

#[test]
fn capacity_evicts_oldest_outcome() {
    let mut c: TtlCache<u32> = TtlCache::new(2, 100);
    for (i, k) in ["a", "b", "c"].iter().enumerate() {
        let k = k.to_string();
        assert_eq!(c.request(&k, i as u64), Action::Fetch);
        c.complete(&k, Ok(i as u32), i as u64);
    }
    assert!(c.cached(&"a".to_string()).is_none());
    assert_eq!(c.cached(&"b".to_string()), Some(&Ok(1)));
    assert_eq!(c.cached(&"c".to_string()), Some(&Ok(2)));
    assert_eq!(c.request(&"a".to_string(), 5), Action::Fetch);
}

#[test]
fn zero_capacity_keeps_nothing() {
    let mut c: TtlCache<u32> = TtlCache::new(0, 100);
    let k = "a".to_string();
    assert_eq!(c.request(&k, 0), Action::Fetch);
    c.complete(&k, Ok(1), 0);
    assert!(c.cached(&k).is_none());
    assert_eq!(c.request(&k, 1), Action::Fetch);
}

#[test]
fn upstream_error_is_cached() {
    let mut c: TtlCache<u32> = TtlCache::new(1, 5);
    let k = "u".to_string();
    c.request(&k, 0);
    c.complete(&k, Err(FetchError::Upstream), 0);
    assert_eq!(c.request(&k, 4), Action::Serve);
    assert_eq!(c.cached(&k), Some(&Err(FetchError::Upstream)));
}
