use geph5_core::cache::SfCache;
use geph5_core::registry::{BridgeDescriptor, Registry};
use geph5_core::selection::query_bridges;
use std::collections::HashMap;

fn bridge(listen: &str, pool: &str, expiry: u64) -> BridgeDescriptor {
    BridgeDescriptor {
        control_listen: listen.to_string(),
        control_cookie: format!("cookie-{}", listen),
        pool: pool.to_string(),
        expiry,
    }
}

fn registry_with(bridges: Vec<BridgeDescriptor>) -> Registry {
    let mut reg = Registry::new();
    for b in bridges {
        reg.insert_bridge(b);
    }
    reg
}

/// The weight the selection orders by, recomputed independently.
fn expected_weight(listen: &str, key: &str) -> u64 {
    let mut data = listen.as_bytes().to_vec();
    data.extend_from_slice(key.as_bytes());
    let digest = blake3::hash(&data);
    let mut first = [0u8; 8];
    first.copy_from_slice(&digest.as_bytes()[0..8]);
    u64::from_le_bytes(first)
}

#[test]
fn selection_is_stable_for_one_key() {
    let reg = registry_with(vec![
        bridge("b1:9000", "east", 100),
        bridge("b2:9000", "east", 100),
        bridge("b3:9000", "west", 100),
    ]);
    let first = reg.select_bridges("some-key", 50);
    let second = reg.select_bridges("some-key", 50);
    assert_eq!(first.len(), 2);
    assert_eq!(first.len(), second.len());
    for (a, b) in first.iter().zip(second.iter()) {
        assert_eq!(a.control_listen, b.control_listen);
        assert_eq!(a.pool, b.pool);
    }
}

#[test]
fn selection_matches_independent_weighing() {
    let listens = ["b1:9000", "b2:9000", "b3:9000", "b4:9000"];
    let reg = registry_with(listens.iter().map(|l| bridge(l, "only", 100)).collect());
    for key in ["alice", "bob", "carol", "dave", "erin"] {
        let got = reg.select_bridges(key, 50);
        assert_eq!(got.len(), 1);
        let best = listens
            .iter()
            .min_by_key(|l| expected_weight(l, key))
            .unwrap();
        assert_eq!(&got[0].control_listen, best);
    }
}

#[test]
fn expired_bridges_are_not_candidates() {
    let reg = registry_with(vec![
        bridge("b1:9000", "east", 10),
        bridge("b2:9000", "east", 100),
        bridge("b3:9000", "gone", 10),
    ]);
    let got = reg.select_bridges("key", 50);
    assert_eq!(got.len(), 1);
    assert_eq!(got[0].control_listen, "b2:9000");
}

#[test]
fn selection_spread_is_roughly_uniform() {
    let listens = ["b1:9000", "b2:9000", "b3:9000"];
    let reg = registry_with(listens.iter().map(|l| bridge(l, "only", 100)).collect());
    let mut counts: HashMap<String, usize> = HashMap::new();
    let samples = 300;
    for i in 0..samples {
        let key = format!("client-key-{}", i);
        let got = reg.select_bridges(&key, 50);
        assert_eq!(got.len(), 1);
        *counts.entry(got[0].control_listen.clone()).or_insert(0) += 1;
    }
    for l in listens {
        let n = *counts.get(l).unwrap_or(&0);
        assert!(n > 0, "bridge {} was never chosen", l);
        assert!(n < samples * 2 / 3, "bridge {} dominates: {}/{}", l, n, samples);
    }
}

#[test]
fn removing_a_bridge_only_remaps_its_own_keys() {
    let listens = ["b1:9000", "b2:9000", "b3:9000", "b4:9000", "b5:9000"];
    let reg = registry_with(listens.iter().map(|l| bridge(l, "only", 100)).collect());
    let keys: Vec<String> = (0..200).map(|i| format!("k{}", i)).collect();
    let before: Vec<String> = keys
        .iter()
        .map(|k| reg.select_bridges(k, 50)[0].control_listen.clone())
        .collect();

    let removed = "b3:9000";
    let reg_after = registry_with(
        listens.iter().filter(|l| **l != removed).map(|l| bridge(l, "only", 100)).collect(),
    );
    let mut remapped = 0;
    for (k, old_choice) in keys.iter().zip(before.iter()) {
        let new_choice = reg_after.select_bridges(k, 50)[0].control_listen.clone();
        if old_choice == removed {
            remapped += 1;
        } else {
            assert_eq!(&new_choice, old_choice, "key {} moved although its bridge stayed", k);
        }
    }
    // Only the removed bridge's own keys moved, roughly a fifth of them.
    assert!(remapped < 200 / 2);
}

#[test]
fn query_bridges_caches_and_coalesces() {
    let reg = registry_with(vec![bridge("b1:9000", "east", 100), bridge("b2:9000", "west", 100)]);
    let mut cache: SfCache<Vec<BridgeDescriptor>> = SfCache::new(60);

    // A cold key computes once and caches the answer.
    let first = query_bridges(&reg, &mut cache, &"key".to_string(), 10).unwrap();
    assert_eq!(first.len(), 2);

    // Within the window the cached answer is served, even if the
    // registry has changed meanwhile.
    let empty = Registry::new();
    let second = query_bridges(&empty, &mut cache, &"key".to_string(), 30).unwrap();
    assert_eq!(second.len(), 2);

    // Past the window the answer is recomputed from the snapshot.
    let third = query_bridges(&empty, &mut cache, &"key".to_string(), 80).unwrap();
    assert_eq!(third.len(), 0);
}

#[test]
fn query_bridges_joins_an_in_flight_computation() {
    let reg = registry_with(vec![bridge("b1:9000", "east", 100)]);
    let mut cache: SfCache<Vec<BridgeDescriptor>> = SfCache::new(60);

    // Another caller has claimed the key and is still computing.
    let claimed = cache.probe(&b"key".to_vec(), 10);
    assert!(matches!(claimed, geph5_core::cache::CacheDecision::Compute));

    // A lookup meanwhile must await that computation, not start a second.
    assert!(query_bridges(&reg, &mut cache, &"key".to_string(), 10).is_none());
}

#[test]
fn an_empty_registry_selects_nothing() {
    let reg = Registry::new();
    assert!(reg.select_bridges("any-key", 50).is_empty());
}
