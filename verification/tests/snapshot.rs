//! Snapshots: saving a store to bytes, and loading it again.
use kvr::crc::crc32;
use kvr::protocol::{dispatch, SnapshotSaver, OP_SAVE, RESP_ERROR, RESP_OK};
use kvr::snapshot::{
    encode_snapshot, restore, restore_at, SnapshotError, SnapshotManager,
};
use kvr::{now_ms, ShardedKV};

/// Waits until the clock has moved on by so many milliseconds.
fn wait_ms(ms: u64) {
    let start = now_ms();
    while now_ms() < start + ms {}
}

fn manager() -> SnapshotManager {
    SnapshotManager::new("/var/kvr.bin".to_string())
}

/// A file that snapshots are saved to, and the number of saves that were asked for.
struct File {
    data: Option<Vec<u8>>,
    asked: usize,
}

impl File {
    fn new() -> Self {
        File {
            data: None,
            asked: 0,
        }
    }

    fn is_there(&self) -> bool {
        self.data.is_some()
    }

    fn read(&self) -> Vec<u8> {
        self.data.clone().expect("file is there")
    }
}

impl SnapshotSaver for File {
    fn save(&mut self, store: &ShardedKV) -> std::io::Result<()> {
        self.asked += 1;
        match manager().save_snapshot(store) {
            Ok(data) => {
                self.data = Some(data);
                Ok(())
            }
            Err(e) => Err(std::io::Error::new(
                std::io::ErrorKind::InvalidData,
                format!("{e:?}"),
            )),
        }
    }
}

/// A snapshot with this body and a CRC that matches it.
fn sealed(body: &[u8]) -> Vec<u8> {
    let mut data = b"KVR1".to_vec();
    data.extend_from_slice(body);
    data.extend_from_slice(&crc32(body).to_be_bytes());
    data
}

/// A body that announces `count` entries, followed by `entries`.
fn body(count: u64, entries: &[u8]) -> Vec<u8> {
    let mut out = count.to_be_bytes().to_vec();
    out.extend_from_slice(entries);
    out
}

#[test]
fn save_and_load_roundtrip() {
    let mut file = File::new();
    let mut store = ShardedKV::new();
    store.set("a", b"val_a".to_vec());
    store.set("b", b"val_b".to_vec());
    store.set_with_ttl("temp", b"ephemeral".to_vec(), 3_600_000);

    file.save(&store).expect("save");

    // Load into a new store.
    let entries = SnapshotManager::load(&file.read()).expect("load");
    let mut new_store = ShardedKV::new();
    let now = now_ms();
    for (key, value, expires_at) in entries {
        if let Some(exp) = expires_at {
            if now >= exp {
                continue;
            }
        }
        new_store.load_entry(key, value, expires_at);
    }

    assert_eq!(new_store.len(), 3);
    assert_eq!(new_store.get("a"), Some(b"val_a".to_vec()));
    assert_eq!(new_store.get("b"), Some(b"val_b".to_vec()));
    assert_eq!(new_store.get("temp"), Some(b"ephemeral".to_vec()));
}

#[test]
fn save_with_ttl_preserves_expiry() {
    let mut file = File::new();
    let mut store = ShardedKV::new();
    // Short TTL: will be expired when we save.
    store.set_with_ttl("short", b"v".to_vec(), 50);
    // Long TTL: will still be valid when we save.
    store.set_with_ttl("long", b"v".to_vec(), 3_600_000);

    // Wait for short TTL to expire before saving.
    wait_ms(80);

    file.save(&store).expect("save");

    // Expired entry was filtered at save time, so only "long" is in the file.
    let entries = SnapshotManager::load(&file.read()).expect("load");
    assert_eq!(entries.len(), 1);
    let mut new_store = ShardedKV::new();
    let (loaded, skipped) = restore(&mut new_store, entries);

    assert_eq!(skipped, 0); // no load-time skipping needed
    assert_eq!(loaded, 1); // "long" is still valid
    assert_eq!(new_store.len(), 1);
    assert_eq!(new_store.get("long"), Some(b"v".to_vec()));
    assert_eq!(new_store.get("short"), None);
}

#[test]
fn corrupted_file_refuses_load() {
    let mut file = File::new();
    let mut store = ShardedKV::new();
    store.set("a", b"1".to_vec());
    file.save(&store).expect("save");

    // Flip a byte in the middle (not in the CRC itself).
    let mut corrupted = file.read();
    let flip_pos = corrupted.len() / 2;
    corrupted[flip_pos] ^= 0xFF;

    // Load should fail.
    let result = SnapshotManager::load(&corrupted);
    assert!(result.is_err(), "corrupted file should refuse to load");
    assert_eq!(result, Err(SnapshotError::CrcMismatch));
}

#[test]
fn bad_magic_refuses_load() {
    // Write a file with wrong magic.
    let mut bad_data = vec![b'X', b'X', b'X', b'X']; // wrong magic
    bad_data.extend_from_slice(&0u64.to_be_bytes()); // count = 0
    bad_data.extend_from_slice(&0u32.to_be_bytes()); // CRC = 0

    let result = SnapshotManager::load(&bad_data);
    assert!(result.is_err(), "bad magic should refuse to load");
    assert_eq!(result, Err(SnapshotError::BadMagic));
}

#[test]
fn truncated_file_refuses_load() {
    // A truncated file (magic + partial count).
    let truncated = b"KVR1\x00\x00";

    let result = SnapshotManager::load(truncated);
    assert!(result.is_err(), "truncated file should refuse to load");
    assert_eq!(result, Err(SnapshotError::TooShort));
}

#[test]
fn over_capacity_load() {
    // Load more entries than max_entries: should load everything anyway.
    let mut file = File::new();
    let mut store = ShardedKV::new();
    for i in 0..10 {
        store.set(&format!("k{i}"), b"v".to_vec());
    }
    file.save(&store).expect("save");

    // Load into a store with max_entries=5 (less than 10).
    let entries = SnapshotManager::load(&file.read()).expect("load");
    let mut bounded_store = ShardedKV::with_max_entries(5);
    assert_eq!(restore(&mut bounded_store, entries), (10, 0));

    // All 10 entries loaded: count reflects reality.
    assert_eq!(bounded_store.len(), 10);
    // New SET for non-existing key should be refused (over capacity).
    assert!(!bounded_store.set("new", b"v".to_vec()));
    // After deleting entries to bring count under max, new SET should succeed.
    bounded_store.del("k0");
    bounded_store.del("k1");
    bounded_store.del("k2");
    bounded_store.del("k3");
    bounded_store.del("k4");
    bounded_store.del("k5");
    assert!(bounded_store.set("new", b"v".to_vec()));
}

#[test]
fn dispatch_save_no_path_returns_error() {
    let mut store = ShardedKV::new();
    store.set("a", b"1".to_vec());
    // No snapshot manager configured.
    let resp = dispatch(&[OP_SAVE], &mut store, None);
    assert_eq!(resp, vec![RESP_ERROR]);
}

#[test]
fn dispatch_save_success() {
    let mut file = File::new();
    let mut store = ShardedKV::new();
    store.set("a", b"1".to_vec());

    let resp = dispatch(&[OP_SAVE], &mut store, Some(&mut file));
    assert_eq!(resp, vec![RESP_OK]);
    assert!(file.is_there());

    // File should be loadable.
    let entries = SnapshotManager::load(&file.read()).expect("load");
    assert_eq!(entries.len(), 1);
}

#[test]
fn dispatch_save_failure_returns_error() {
    let mut file = File::new();
    let mut store = ShardedKV::new();
    store.set(&"x".repeat(u16::MAX as usize + 1), b"v".to_vec());

    let resp = dispatch(&[OP_SAVE], &mut store, Some(&mut file));
    assert_eq!(resp, vec![RESP_ERROR]);
    assert!(!file.is_there());
}

#[test]
fn dispatch_save_trailing_bytes_rejected() {
    let mut file = File::new();
    let mut store = ShardedKV::new();

    let mut frame = vec![OP_SAVE];
    frame.push(0xDE);
    let resp = dispatch(&frame, &mut store, Some(&mut file));
    assert_eq!(resp, vec![RESP_ERROR]);
    assert!(!file.is_there());
}

#[test]
fn dispatch_saves_once_and_only_for_save() {
    let mut file = File::new();
    let mut store = ShardedKV::new();
    store.set("a", b"1".to_vec());

    let others: [&[u8]; 6] = [
        &[],
        &[OP_SAVE, 0],
        &[0x99],
        &[3],
        &[1, 0, 1, b'a'],
        &[1, 0, 2, b'a'],
    ];
    for frame in others {
        dispatch(frame, &mut store, Some(&mut file));
        assert_eq!(file.asked, 0);
    }
    for n in 1..4 {
        assert_eq!(
            dispatch(&[OP_SAVE], &mut store, Some(&mut file)),
            vec![RESP_OK]
        );
        assert_eq!(file.asked, n);
    }
}

#[test]
fn empty_store_snapshot() {
    let mut file = File::new();
    let store = ShardedKV::new();
    file.save(&store).expect("save");

    let entries = SnapshotManager::load(&file.read()).expect("load");
    assert!(entries.is_empty());
}

#[test]
fn snapshot_save_oversized_key() {
    // A key longer than u16::MAX (65535) entered via library API
    // should cause save() to return an error, not silently truncate.
    let mut file = File::new();
    let mut store = ShardedKV::new();
    let big_key = "x".repeat(u16::MAX as usize + 1);
    store.set(&big_key, b"v".to_vec());

    let result = file.save(&store);
    assert!(result.is_err(), "save should fail for oversized key");
    let err = result.unwrap_err();
    assert_eq!(err.kind(), std::io::ErrorKind::InvalidData);
    assert_eq!(
        manager().save_snapshot_at(&store, now_ms()),
        Err(SnapshotError::KeyTooLong { len: 65_536 })
    );

    // No snapshot file should have been written.
    assert!(!file.is_there());
}

#[test]
fn snapshot_save_normal_keys_still_work() {
    let mut file = File::new();
    let mut store = ShardedKV::new();
    store.set("normal_key", b"val".to_vec());

    file.save(&store).expect("save should succeed");

    let entries = SnapshotManager::load(&file.read()).expect("load");
    assert_eq!(entries.len(), 1);
    assert_eq!(entries[0].0, "normal_key");
}

#[test]
fn snapshot_bytes_are_as_documented() {
    let entries = vec![
        ("k".to_string(), b"ab".to_vec(), None),
        ("\u{e9}".to_string(), vec![], Some(0x0102)),
    ];
    let data = encode_snapshot(&entries).expect("encode");
    let mut expected = b"KVR1".to_vec();
    expected.extend_from_slice(&[0, 0, 0, 0, 0, 0, 0, 2]);
    expected.extend_from_slice(&[0, 1, b'k', 0, 0, 0, 2, b'a', b'b']);
    expected.extend_from_slice(&[0, 0, 0, 0, 0, 0, 0, 0]);
    expected.extend_from_slice(&[0, 2, 0xC3, 0xA9, 0, 0, 0, 0]);
    expected.extend_from_slice(&[0, 0, 0, 0, 0, 0, 1, 2]);
    let crc = crc32(&expected[4..]);
    expected.extend_from_slice(&crc.to_be_bytes());
    assert_eq!(data, expected);
    assert_eq!(SnapshotManager::load(&data), Ok(entries));
}

#[test]
fn each_defect_of_a_snapshot_has_its_error() {
    let cases: Vec<(Vec<u8>, SnapshotError)> = vec![
        (body(1, &[0]), SnapshotError::TruncatedKeyLength),
        (body(1, &[0, 2, b'k']), SnapshotError::TruncatedKey),
        (body(1, &[0, 1, 0xFF]), SnapshotError::InvalidUtf8Key),
        (
            body(1, &[0, 1, b'k', 0, 0, 0]),
            SnapshotError::TruncatedValueLength,
        ),
        (
            body(1, &[0, 1, b'k', 0, 0, 0, 2, b'v']),
            SnapshotError::TruncatedValue,
        ),
        (
            body(1, &[0, 1, b'k', 0, 0, 0, 1, b'v', 0, 0]),
            SnapshotError::TruncatedExpiry,
        ),
        (body(0, &[7]), SnapshotError::TrailingBytes),
        (body(u64::MAX, &[]), SnapshotError::TruncatedKeyLength),
    ];
    for (bytes, error) in cases {
        assert_eq!(SnapshotManager::load(&sealed(&bytes)), Err(error));
    }
}

#[test]
fn a_snapshot_is_written_beside_the_last_one() {
    assert_eq!(manager().path(), "/var/kvr.bin");
    assert_eq!(manager().tmp_path(), "/var/kvr.bin.tmp");
}

#[test]
fn a_save_is_the_encoding_of_what_is_collected() {
    let mut store = ShardedKV::new();
    for i in 0..50u64 {
        store.set_with_ttl_at(&format!("k{i}"), vec![i as u8], i + 1, 0);
    }
    let entries = store.collect_for_snapshot_at(20);
    assert_eq!(entries.len(), 30);
    let data = manager().save_snapshot_at(&store, 20).expect("save");
    assert_eq!(encode_snapshot(&entries), Ok(data.clone()));
    assert_eq!(SnapshotManager::load(&data), Ok(entries));
}

#[test]
fn every_changed_byte_of_a_snapshot_is_noticed() {
    let entries = vec![
        ("key".to_string(), b"value".to_vec(), Some(99)),
        ("other".to_string(), vec![0; 20], None),
    ];
    let data = encode_snapshot(&entries).expect("encode");
    for at in 0..data.len() {
        for flip in [0x01u8, 0x80, 0xFF] {
            let mut changed = data.clone();
            changed[at] ^= flip;
            assert!(SnapshotManager::load(&changed).is_err());
        }
    }
}

#[test]
fn every_truncation_of_a_snapshot_is_noticed() {
    let entries = vec![("key".to_string(), b"value".to_vec(), Some(99))];
    let data = encode_snapshot(&entries).expect("encode");
    for cut in 0..data.len() {
        assert!(SnapshotManager::load(&data[..cut]).is_err());
    }
    let mut longer = data.clone();
    longer.push(0);
    assert!(SnapshotManager::load(&longer).is_err());
}

#[test]
fn load_skips_what_expired_since_the_save() {
    let mut store = ShardedKV::new();
    store.set("perm", b"p".to_vec());
    store.set_with_ttl_at("soon", b"s".to_vec(), 10, 1_000);
    store.set_with_ttl_at("later", b"l".to_vec(), 1_000, 1_000);

    let data = manager().save_snapshot_at(&store, 1_005).expect("save");
    let entries = SnapshotManager::load(&data).expect("load");
    assert_eq!(entries.len(), 3);
    let mut loaded = ShardedKV::with_max_entries(1);
    assert_eq!(restore_at(&mut loaded, entries, 1_010), (2, 1));
    assert_eq!(loaded.len(), 2);
    assert_eq!(loaded.get_at("perm", 1_010), Some(b"p".to_vec()));
    assert_eq!(loaded.get_at("later", 1_999), Some(b"l".to_vec()));
    assert_eq!(loaded.get_at("soon", 1_005), None);
}

#[test]
fn restoring_a_key_twice_keeps_the_last_value() {
    let mut store = ShardedKV::new();
    store.set("k", b"0".to_vec());
    let entries = vec![
        ("k".to_string(), b"1".to_vec(), None),
        ("k".to_string(), b"2".to_vec(), None),
    ];
    assert_eq!(restore_at(&mut store, entries, 0), (2, 0));
    assert_eq!(store.len(), 1);
    assert_eq!(store.get("k"), Some(b"2".to_vec()));
}
