//! The store, through its clock-reading operations.
use kvr::{now_ms, ShardedKV, TtlInfo};

/// Waits until the clock has moved on by so many milliseconds.
fn wait_ms(ms: u64) {
    let start = now_ms();
    while now_ms() < start + ms {}
}

#[test]
fn test_set_get() {
    let mut store = ShardedKV::new();
    store.set("hello", b"world".to_vec());
    assert_eq!(store.get("hello"), Some(b"world".to_vec()));
}

#[test]
fn test_del() {
    let mut store = ShardedKV::new();
    store.set("key", b"value".to_vec());
    assert_eq!(store.del("key"), Some(b"value".to_vec()));
    assert_eq!(store.get("key"), None);
}

#[test]
fn test_overwrite() {
    let mut store = ShardedKV::new();
    store.set("k", b"v1".to_vec());
    store.set("k", b"v2".to_vec());
    assert_eq!(store.get("k"), Some(b"v2".to_vec()));
}

#[test]
fn test_delete_then_get() {
    let mut store = ShardedKV::new();
    store.set("x", b"y".to_vec());
    store.del("x");
    assert_eq!(store.get("x"), None);
}

#[test]
fn test_del_nonexistent() {
    let mut store = ShardedKV::new();
    assert_eq!(store.del("nope"), None);
}

#[test]
fn test_get_nonexistent() {
    let mut store = ShardedKV::new();
    assert_eq!(store.get("nope"), None);
}

#[test]
fn test_contains() {
    let mut store = ShardedKV::new();
    store.set("k", b"v".to_vec());
    assert!(store.contains("k"));
    assert!(!store.contains("missing"));
}

#[test]
fn test_empty_value() {
    let mut store = ShardedKV::new();
    store.set("empty", vec![]);
    assert_eq!(store.get("empty"), Some(vec![]));
    assert!(store.contains("empty"));
}

#[test]
fn test_large_value() {
    let mut store = ShardedKV::new();
    let val: Vec<u8> = (0..100_000).map(|i| (i % 256) as u8).collect();
    store.set("big", val.clone());
    assert_eq!(store.get("big"), Some(val));
}

#[test]
fn writers_of_different_keys_take_turns() {
    let mut store = ShardedKV::new();

    // Eight writers take turns.
    for i in 0..500 {
        for t in 0..8 {
            let key = format!("t{}_{}", t, i);
            let val = vec![(t + i) as u8];
            store.set(&key, val.clone());
            let retrieved = store.get(&key);
            assert_eq!(retrieved, Some(val));
        }
    }
}

#[test]
fn writers_of_one_key_take_turns() {
    let mut store = ShardedKV::new();

    // Eight writers take turns on one key; each may read what another wrote.
    for i in 0..500 {
        for t in 0..8 {
            let val = vec![(t + i) as u8];
            store.set("contention-key", val.clone());
        }
        for _ in 0..8 {
            let retrieved = store.get("contention-key");
            if let Some(ref r) = retrieved {
                assert!(!r.is_empty());
            }
        }
    }

    // Final state: some writer's value must be stored.
    let final_val = store.get("contention-key");
    assert!(final_val.is_some());
    assert!(!final_val.unwrap().is_empty());
}

#[test]
fn test_max_entries() {
    let mut store = ShardedKV::with_max_entries(3);
    assert!(store.set("a", b"1".to_vec()));
    assert!(store.set("b", b"2".to_vec()));
    assert!(store.set("c", b"3".to_vec()));
    // Store is full — new key should be rejected.
    assert!(!store.set("d", b"4".to_vec()));
    // Overwriting existing key should still work.
    assert!(store.set("a", b"updated".to_vec()));
    assert_eq!(store.get("a"), Some(b"updated".to_vec()));
    // After deleting one, we can add a new key.
    store.del("b");
    assert!(store.set("d", b"4".to_vec()));
    assert_eq!(store.get("d"), Some(b"4".to_vec()));
}

#[test]
fn test_entry_count() {
    let mut store = ShardedKV::new();
    assert_eq!(store.len(), 0);
    assert!(store.is_empty());
    store.set("a", b"1".to_vec());
    store.set("b", b"2".to_vec());
    assert_eq!(store.len(), 2);
    store.set("a", b"updated".to_vec()); // overwrite, no count change
    assert_eq!(store.len(), 2);
    store.del("a");
    assert_eq!(store.len(), 1);
    store.del("nonexistent"); // no count change
    assert_eq!(store.len(), 1);
}

#[test]
fn test_unlimited_entries() {
    let mut store = ShardedKV::new(); // max_entries = 0 = unlimited
    for i in 0..1000 {
        assert!(store.set(&format!("k{i}"), b"v".to_vec()));
    }
    assert_eq!(store.len(), 1000);
}

#[test]
fn writers_that_take_turns_keep_the_bound() {
    // Inserts of several writers that take turns never exceed max_entries.
    let mut store = ShardedKV::with_max_entries(50);

    let mut total_inserted: u64 = 0;
    for i in 0..100 {
        for t in 0..8 {
            let key = format!("t{}_{}", t, i);
            if store.set(&key, b"v".to_vec()) {
                total_inserted += 1;
            }
        }
    }

    // Total successful inserts must not exceed the max.
    assert!(
        total_inserted <= 50,
        "inserted {total_inserted} entries but max is 50"
    );
    assert_eq!(store.len(), total_inserted);
    assert!(store.len() <= 50, "len() = {} exceeds max 50", store.len());
}

// TTL tests

#[test]
fn test_setx_roundtrip() {
    let mut store = ShardedKV::new();
    assert!(store.set_with_ttl("temp", b"ephemeral".to_vec(), 3_600_000));
    assert_eq!(store.get("temp"), Some(b"ephemeral".to_vec()));
    assert!(store.contains("temp"));
}

#[test]
fn test_expiry_via_lazy_get() {
    let mut store = ShardedKV::new();
    // 50ms TTL — short enough for a fast test, long enough to not race.
    assert!(store.set_with_ttl("temp", b"v".to_vec(), 50));
    assert_eq!(store.get("temp"), Some(b"v".to_vec()));
    assert_eq!(store.len(), 1);

    // Wait for expiry.
    wait_ms(80);

    // GET on expired entry → None, entry removed, count decremented.
    assert_eq!(store.get("temp"), None);
    assert_eq!(store.len(), 0);
}

#[test]
fn test_expiry_via_lazy_contains() {
    let mut store = ShardedKV::new();
    assert!(store.set_with_ttl("temp", b"v".to_vec(), 50));
    assert!(store.contains("temp"));

    wait_ms(80);

    assert!(!store.contains("temp"));
    assert_eq!(store.len(), 0);
}

#[test]
fn test_expiry_via_lazy_del() {
    let mut store = ShardedKV::new();
    assert!(store.set_with_ttl("temp", b"v".to_vec(), 50));
    assert_eq!(store.len(), 1);

    wait_ms(80);

    // DEL on expired entry → None (treated as absent), count decremented.
    assert_eq!(store.del("temp"), None);
    assert_eq!(store.len(), 0);
}

#[test]
fn test_expiry_via_sweeper() {
    let mut store = ShardedKV::new();
    assert!(store.set_with_ttl("a", b"1".to_vec(), 50));
    assert!(store.set_with_ttl("b", b"2".to_vec(), 50));
    // Permanent entry — should NOT be swept.
    store.set("perm", b"forever".to_vec());
    assert_eq!(store.len(), 3);

    wait_ms(80);

    let removed = store.sweep_expired();
    assert_eq!(removed, 2);
    assert_eq!(store.len(), 1);
    assert_eq!(store.get("perm"), Some(b"forever".to_vec()));
    assert_eq!(store.get("a"), None);
    assert_eq!(store.get("b"), None);
}

#[test]
fn test_set_after_setx_clears_ttl() {
    let mut store = ShardedKV::new();
    // SETX with short TTL.
    assert!(store.set_with_ttl("k", b"v1".to_vec(), 50));
    assert_eq!(store.len(), 1);

    // Plain SET overwrites — entry becomes permanent (no TTL).
    assert!(store.set("k", b"v2".to_vec()));
    assert_eq!(store.len(), 1);

    // Wait past the original TTL — entry should still be present.
    wait_ms(80);
    assert_eq!(store.get("k"), Some(b"v2".to_vec()));
    assert!(store.contains("k"));
}

#[test]
fn test_setx_overwrite_existing_ttl() {
    let mut store = ShardedKV::new();
    // First SETX with 50ms TTL.
    assert!(store.set_with_ttl("k", b"v1".to_vec(), 50));

    // Second SETX with long TTL — overwrites value and TTL, no count change.
    assert!(store.set_with_ttl("k", b"v2".to_vec(), 3_600_000));
    assert_eq!(store.len(), 1);

    // Wait past the first TTL — entry should still be present (second TTL).
    wait_ms(80);
    assert_eq!(store.get("k"), Some(b"v2".to_vec()));
}

#[test]
fn test_setx_overwrite_existing_permanent() {
    let mut store = ShardedKV::new();
    // Plain SET first (permanent).
    store.set("k", b"v1".to_vec());
    assert_eq!(store.len(), 1);

    // SETX overwrites with a short TTL, no count change.
    assert!(store.set_with_ttl("k", b"v2".to_vec(), 50));
    assert_eq!(store.len(), 1);

    wait_ms(80);
    assert_eq!(store.get("k"), None);
    assert_eq!(store.len(), 0);
}

#[test]
fn test_capacity_freed_after_expiry() {
    // Fill store to capacity with short-TTL keys, wait for expiry,
    // verify new SETs succeed (capacity was freed).
    let mut store = ShardedKV::with_max_entries(5);
    for i in 0..5 {
        assert!(store.set_with_ttl(&format!("k{i}"), b"v".to_vec(), 50));
    }
    assert_eq!(store.len(), 5);
    // Store is full.
    assert!(!store.set("new", b"v".to_vec()));

    // Wait for expiry, then sweep.
    wait_ms(80);
    let removed = store.sweep_expired();
    assert_eq!(removed, 5);
    assert_eq!(store.len(), 0);

    // New SETs should succeed now.
    assert!(store.set("new", b"v".to_vec()));
    assert_eq!(store.len(), 1);
}

#[test]
fn test_sweep_expired_no_entries() {
    let mut store = ShardedKV::new();
    assert_eq!(store.sweep_expired(), 0);
}

#[test]
fn test_sweep_expired_only_permanent() {
    let mut store = ShardedKV::new();
    store.set("a", b"1".to_vec());
    store.set("b", b"2".to_vec());
    assert_eq!(store.sweep_expired(), 0);
    assert_eq!(store.len(), 2);
}

#[test]
fn test_setx_ttl_zero_rejected() {
    let mut store = ShardedKV::new();
    assert!(!store.set_with_ttl("k", b"v".to_vec(), 0));
    assert_eq!(store.get("k"), None);
    assert_eq!(store.len(), 0);
}

#[test]
fn test_capacity_freed_via_lazy_get() {
    // Fill store to capacity with short-TTL keys, wait for expiry,
    // then use GET (lazy removal) to free capacity — no sweep needed.
    let mut store = ShardedKV::with_max_entries(3);
    for i in 0..3 {
        assert!(store.set_with_ttl(&format!("k{i}"), b"v".to_vec(), 50));
    }
    assert_eq!(store.len(), 3);
    // Store is full.
    assert!(!store.set("new", b"v".to_vec()));

    // Wait for expiry.
    wait_ms(80);

    // GET each expired key — lazy removal frees capacity.
    for i in 0..3 {
        assert_eq!(store.get(&format!("k{i}")), None);
    }
    assert_eq!(store.len(), 0);

    // New SET should succeed now (capacity freed via lazy path only).
    assert!(store.set("new", b"v".to_vec()));
    assert_eq!(store.len(), 1);
}

#[test]
fn gets_around_a_sweep_count_each_entry_once() {
    // Lazy GETs on expired keys around a sweep of the same keys.
    // Must not double-decrement (underflow) or leak entries.
    let mut store = ShardedKV::new();

    // Insert 100 short-TTL keys.
    for i in 0..100 {
        store.set_with_ttl(&format!("k{i}"), b"v".to_vec(), 50);
    }
    assert_eq!(store.len(), 100);

    // Wait for expiry.
    wait_ms(80);

    // Reader 1 gets halfway, the sweep runs, reader 1 goes on, reader 2 follows.
    for i in 0..50 {
        let _ = store.get(&format!("k{i}"));
    }
    store.sweep_expired();
    for i in 50..100 {
        let _ = store.get(&format!("k{i}"));
    }
    for i in 0..100 {
        let _ = store.get(&format!("k{i}"));
    }

    // Count must be exactly 0 (an underflow would wrap to a huge u64).
    assert_eq!(
        store.len(),
        0,
        "entry count should be 0, got {} (possible underflow)",
        store.len()
    );
}

#[test]
fn sweeps_between_writes_leave_no_entry() {
    // Writers inserting short-TTL keys while the sweeper runs in between.
    // Final count must be exact, never negative, never leaked.
    let mut store = ShardedKV::with_max_entries(0);

    // Four writers with 200 short-TTL keys (50ms TTL) each, and ten sweeps in between.
    for i in 0..200 {
        for t in 0..4 {
            let key = format!("t{}_{}", t, i);
            store.set_with_ttl(&key, b"v".to_vec(), 50);
        }
        if i % 20 == 19 {
            wait_ms(20);
            store.sweep_expired();
        }
    }

    // Wait for all remaining TTLs to expire, then do a final sweep.
    wait_ms(100);
    store.sweep_expired();

    // All entries should be gone.
    assert_eq!(
        store.len(),
        0,
        "entry count should be 0 after all TTLs expired and swept"
    );
}

// SCAN tests

#[test]
fn test_scan_basic() {
    let mut store = ShardedKV::new();
    store.set("apple", b"1".to_vec());
    store.set("app2", b"2".to_vec());
    store.set("banana", b"3".to_vec());

    let (keys, more) = store.scan("app", 100, "");
    assert_eq!(keys, vec!["app2", "apple"]); // lexicographic order
    assert!(!more);
}

#[test]
fn test_scan_empty_prefix() {
    let mut store = ShardedKV::new();
    store.set("b", b"1".to_vec());
    store.set("a", b"2".to_vec());
    store.set("c", b"3".to_vec());

    let (keys, more) = store.scan("", 100, "");
    assert_eq!(keys, vec!["a", "b", "c"]); // sorted
    assert!(!more);
}

#[test]
fn test_scan_pagination() {
    let mut store = ShardedKV::new();
    for i in 0..10 {
        store.set(&format!("k{i:02}"), b"v".to_vec());
    }

    // Page 1: limit=3.
    let (keys, more) = store.scan("", 3, "");
    assert_eq!(keys.len(), 3);
    assert_eq!(keys[0], "k00");
    assert_eq!(keys[2], "k02");
    assert!(more);

    // Page 2: cursor = last key of page 1.
    let (keys, more) = store.scan("", 3, "k02");
    assert_eq!(keys.len(), 3);
    assert_eq!(keys[0], "k03");
    assert_eq!(keys[2], "k05");
    assert!(more);

    // Page 3.
    let (keys, more) = store.scan("", 3, "k05");
    assert_eq!(keys.len(), 3);
    assert_eq!(keys[0], "k06");
    assert_eq!(keys[2], "k08");
    assert!(more);

    // Page 4: 1 key left.
    let (keys, more) = store.scan("", 3, "k08");
    assert_eq!(keys.len(), 1);
    assert_eq!(keys[0], "k09");
    assert!(!more);
}

#[test]
fn test_scan_excludes_expired() {
    let mut store = ShardedKV::new();
    store.set("perm", b"1".to_vec());
    store.set_with_ttl("temp", b"2".to_vec(), 50);

    wait_ms(80);

    let (keys, more) = store.scan("", 100, "");
    assert_eq!(keys, vec!["perm"]);
    assert!(!more);
}

#[test]
fn test_scan_empty_store() {
    let mut store = ShardedKV::new();
    let (keys, more) = store.scan("", 100, "");
    assert!(keys.is_empty());
    assert!(!more);
}

#[test]
fn test_scan_limit_zero() {
    let mut store = ShardedKV::new();
    store.set("a", b"1".to_vec());
    let (keys, more) = store.scan("", 0, "");
    assert!(keys.is_empty());
    assert!(!more);
}

// MGET tests

#[test]
fn test_mget_mixed() {
    let mut store = ShardedKV::new();
    store.set("a", b"val_a".to_vec());
    store.set("c", b"val_c".to_vec());

    let results = store.mget(&["a".to_string(), "b".to_string(), "c".to_string()]);
    assert_eq!(results.len(), 3);
    assert_eq!(results[0], Some(b"val_a".to_vec()));
    assert_eq!(results[1], None);
    assert_eq!(results[2], Some(b"val_c".to_vec()));
}

#[test]
fn test_mget_preserves_order() {
    let mut store = ShardedKV::new();
    store.set("x", b"1".to_vec());
    store.set("y", b"2".to_vec());
    store.set("z", b"3".to_vec());

    let results = store.mget(&["z".to_string(), "x".to_string(), "y".to_string()]);
    assert_eq!(results[0], Some(b"3".to_vec()));
    assert_eq!(results[1], Some(b"1".to_vec()));
    assert_eq!(results[2], Some(b"2".to_vec()));
}

#[test]
fn test_mget_all_missing() {
    let mut store = ShardedKV::new();
    let results = store.mget(&["a".to_string(), "b".to_string()]);
    assert_eq!(results.len(), 2);
    assert_eq!(results[0], None);
    assert_eq!(results[1], None);
}

#[test]
fn test_mget_empty() {
    let mut store = ShardedKV::new();
    let results = store.mget(&[]);
    assert!(results.is_empty());
}

#[test]
fn test_mget_excludes_expired() {
    let mut store = ShardedKV::new();
    store.set("perm", b"1".to_vec());
    store.set_with_ttl("temp", b"2".to_vec(), 50);

    wait_ms(80);

    let results = store.mget(&["perm".to_string(), "temp".to_string()]);
    assert_eq!(results[0], Some(b"1".to_vec()));
    assert_eq!(results[1], None); // expired
    assert_eq!(store.len(), 1); // expired entry was lazily removed
}

// TTL tests

#[test]
fn test_ttl_permanent() {
    let mut store = ShardedKV::new();
    store.set("k", b"v".to_vec());
    assert_eq!(store.ttl("k"), Some(TtlInfo::Permanent));
}

#[test]
fn test_ttl_with_expiry() {
    let mut store = ShardedKV::new();
    store.set_with_ttl("temp", b"v".to_vec(), 3_600_000);
    match store.ttl("temp") {
        Some(TtlInfo::RemainingMs(ms)) => {
            assert!(ms > 3_500_000 && ms <= 3_600_000);
        }
        other => panic!("expected RemainingMs, got {other:?}"),
    }
}

#[test]
fn test_ttl_missing() {
    let mut store = ShardedKV::new();
    assert_eq!(store.ttl("missing"), None);
}

#[test]
fn test_ttl_expired_purges() {
    let mut store = ShardedKV::new();
    store.set_with_ttl("temp", b"v".to_vec(), 50);
    assert_eq!(store.len(), 1);

    wait_ms(80);

    assert_eq!(store.ttl("temp"), None);
    assert_eq!(store.len(), 0); // expired entry was lazily removed
}

#[test]
fn test_ttl_expired_frees_capacity() {
    let mut store = ShardedKV::with_max_entries(1);
    assert!(store.set_with_ttl("temp", b"v".to_vec(), 50));
    assert!(!store.set("new", b"v".to_vec())); // full

    wait_ms(80);

    // TTL on expired key purges it, freeing capacity.
    assert_eq!(store.ttl("temp"), None);
    assert!(store.set("new", b"v".to_vec())); // now succeeds
}

// Scan purge tests

#[test]
fn test_scan_purges_expired() {
    let mut store = ShardedKV::new();
    store.set("perm", b"1".to_vec());
    store.set_with_ttl("temp", b"2".to_vec(), 50);
    assert_eq!(store.len(), 2);

    wait_ms(80);

    let (keys, _) = store.scan("", 100, "");
    assert_eq!(keys.len(), 1); // only "perm"
    assert_eq!(store.len(), 1); // expired entry was purged by scan
}

#[test]
fn test_scan_purges_expired_frees_capacity() {
    let mut store = ShardedKV::with_max_entries(1);
    assert!(store.set_with_ttl("temp", b"v".to_vec(), 50));
    assert!(!store.set("new", b"v".to_vec())); // full

    wait_ms(80);

    // Scan purges the expired entry, freeing capacity.
    let _ = store.scan("", 100, "");
    assert!(store.set("new", b"v".to_vec())); // now succeeds
}

#[test]
fn test_scan_limit_zero_does_not_purge() {
    let mut store = ShardedKV::new();
    store.set_with_ttl("temp", b"v".to_vec(), 50);
    assert_eq!(store.len(), 1);

    wait_ms(80);

    // limit=0 returns early without iterating, so no purge.
    let (keys, more) = store.scan("", 0, "");
    assert!(keys.is_empty());
    assert!(!more);
    assert_eq!(store.len(), 1); // expired entry still present (not purged)
}

#[test]
fn test_scan_purges_all_expired_not_just_matching_prefix() {
    let mut store = ShardedKV::new();
    store.set_with_ttl("prefix_a", b"1".to_vec(), 50);
    store.set_with_ttl("prefix_b", b"2".to_vec(), 50);
    store.set("other", b"3".to_vec());
    assert_eq!(store.len(), 3);

    wait_ms(80);

    // Scan with prefix "prefix_" — should purge ALL expired entries
    // in the shard, not just those matching the prefix.
    let (keys, _) = store.scan("prefix_", 100, "");
    assert_eq!(keys.len(), 0); // both expired, neither returned
    assert_eq!(store.len(), 1); // both expired entries purged, "other" remains
}

// len_active tests

#[test]
fn test_len_active_excludes_expired() {
    let mut store = ShardedKV::new();
    store.set("perm", b"1".to_vec());
    store.set_with_ttl("temp", b"2".to_vec(), 50);

    assert_eq!(store.len(), 2);
    assert_eq!(store.len_active(), 2);

    wait_ms(80);

    // len() still counts the expired-but-not-removed entry.
    assert_eq!(store.len(), 2);
    // len_active() excludes it.
    assert_eq!(store.len_active(), 1);
}

// Overwrites and removals

#[test]
fn test_set_full_store_rejects_new_key() {
    let mut store = ShardedKV::with_max_entries(2);
    assert!(store.set("a", b"1".to_vec()));
    assert!(store.set("b", b"2".to_vec()));
    // Store is full — new key rejected.
    assert!(!store.set("c", b"3".to_vec()));
    // Overwriting existing key still works.
    assert!(store.set("a", b"updated".to_vec()));
    assert_eq!(store.len(), 2);
}

#[test]
fn test_set_overwrite_expired_entry() {
    // Overwriting an expired-but-unswept key should NOT change the count.
    let mut store = ShardedKV::with_max_entries(5);
    assert!(store.set_with_ttl("k", b"v1".to_vec(), 50));
    assert_eq!(store.len(), 1);

    // Wait for expiry but don't sweep — the key is still in the map.
    wait_ms(80);

    // Overwrite with a permanent entry. The key exists in the map
    // (expired but not removed).
    // Count should NOT change (no new entry added).
    assert!(store.set("k", b"v2".to_vec()));
    assert_eq!(store.len(), 1);
    assert_eq!(store.get("k"), Some(b"v2".to_vec()));
}

#[test]
fn test_mget_plain_miss_no_write_lock() {
    // mget on absent keys should not inflate count or cause issues.
    let mut store = ShardedKV::new();
    store.set("present", b"val".to_vec());
    assert_eq!(store.len(), 1);

    // mget with a mix of present and absent keys.
    let results = store.mget(&[
        "present".to_string(),
        "absent1".to_string(),
        "absent2".to_string(),
        "absent3".to_string(),
    ]);

    assert_eq!(results[0], Some(b"val".to_vec()));
    assert_eq!(results[1], None);
    assert_eq!(results[2], None);
    assert_eq!(results[3], None);

    // Count must be unchanged — absent keys should not have triggered
    // any write-lock path that could corrupt state.
    assert_eq!(store.len(), 1);
}

#[test]
fn test_del_single_remove_semantics() {
    let mut store = ShardedKV::new();
    store.set("live", b"val".to_vec());
    assert_eq!(store.del("live"), Some(b"val".to_vec()));
    assert_eq!(store.len(), 0);
    assert_eq!(store.get("live"), None);

    // del on missing key.
    assert_eq!(store.del("missing"), None);
    assert_eq!(store.len(), 0);

    // del on expired key returns None, decrements count.
    store.set_with_ttl("temp", b"v".to_vec(), 50);
    assert_eq!(store.len(), 1);
    wait_ms(80);
    assert_eq!(store.del("temp"), None);
    assert_eq!(store.len(), 0);
}
