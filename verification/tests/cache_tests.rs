use geph5_core::cache::{CacheDecision, SfCache};

fn key(s: &str) -> Vec<u8> {
    s.as_bytes().to_vec()
}

#[test]
fn exactly_one_of_many_concurrent_lookups_computes() {
    let mut cache: SfCache<u32> = SfCache::new(60);
    let k = key("shared");

    // K callers race on one uncached key: each looks up once before any
    // computation finishes. Exactly one is told to compute.
    let mut compute_count = 0;
    for _ in 0..5 {
        match cache.probe(&k, 10) {
            CacheDecision::Compute => compute_count += 1,
            CacheDecision::Join => {}
            CacheDecision::Fresh => panic!("nothing was published yet"),
        }
    }
    assert_eq!(compute_count, 1);

    // The winner publishes; every caller now sees the same value.
    cache.publish(&k, 42, 10);
    for _ in 0..5 {
        assert!(matches!(cache.probe(&k, 11), CacheDecision::Fresh));
        assert_eq!(*cache.get(&k), 42);
    }
}

#[test]
fn failures_are_not_cached() {
    let mut cache: SfCache<u32> = SfCache::new(60);
    let k = key("flaky");

    assert!(matches!(cache.probe(&k, 10), CacheDecision::Compute));
    cache.fail(&k);

    // The next caller retries from scratch.
    assert!(matches!(cache.probe(&k, 10), CacheDecision::Compute));
    cache.publish(&k, 7, 10);
    assert!(matches!(cache.probe(&k, 10), CacheDecision::Fresh));
}

#[test]
fn entries_expire_after_the_ttl() {
    let mut cache: SfCache<u32> = SfCache::new(60);
    let k = key("aging");

    assert!(matches!(cache.probe(&k, 100), CacheDecision::Compute));
    cache.publish(&k, 1, 100);

    // Still fresh one second before the window closes.
    assert!(matches!(cache.probe(&k, 159), CacheDecision::Fresh));
    // Stale at the boundary: the caller recomputes lazily.
    assert!(matches!(cache.probe(&k, 160), CacheDecision::Compute));
    cache.publish(&k, 2, 160);
    assert_eq!(*cache.get(&k), 2);
}

#[test]
fn keys_do_not_interfere() {
    let mut cache: SfCache<u32> = SfCache::new(60);
    let a = key("a");
    let b = key("b");

    assert!(matches!(cache.probe(&a, 10), CacheDecision::Compute));
    // A pending computation for one key leaves other keys cold.
    assert!(matches!(cache.probe(&b, 10), CacheDecision::Compute));
    cache.publish(&a, 1, 10);
    cache.publish(&b, 2, 10);
    assert_eq!(*cache.get(&a), 1);
    assert_eq!(*cache.get(&b), 2);
}
