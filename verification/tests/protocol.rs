//! The wire protocol: requests served on a store, and whole exchanges of frames.
use kvr::protocol::{
    dispatch, frame_length, read_frame, write_frame, FrameError, MAX_FRAME_SIZE, OP_DEL, OP_EXISTS,
    OP_GET, OP_MGET, OP_PING, OP_SCAN, OP_SET, OP_SETX, OP_TTL, RESP_DELETED, RESP_ERROR,
    RESP_NOT_FOUND, RESP_OK, RESP_STORE_FULL,
};
use kvr::server::{farewell, ReadFailure};
use kvr::{now_ms, ShardedKV};

/// Waits until the clock has moved on by so many milliseconds.
fn wait_ms(ms: u64) {
    let start = now_ms();
    while now_ms() < start + ms {}
}

/// A client's connection to a server that has a store of its own: what the client writes is read,
/// served and answered frame by frame.
struct Connection {
    store: ShardedKV,
    to_server: Vec<u8>,
    to_client: Vec<u8>,
    closed: bool,
}

impl Connection {
    fn open() -> Self {
        Connection {
            store: ShardedKV::new(),
            to_server: Vec::new(),
            to_client: Vec::new(),
            closed: false,
        }
    }

    fn write_all(&mut self, bytes: &[u8]) {
        self.to_server.extend_from_slice(bytes);
        while !self.closed && self.to_server.len() >= 4 {
            match frame_length(&self.to_server) {
                Ok(len) if self.to_server.len() < 4 + len => return,
                _ => {}
            }
            match read_frame(&self.to_server) {
                Ok((frame, used)) => {
                    self.to_server.drain(..used);
                    let resp = dispatch(&frame, &mut self.store, None);
                    write_frame(&mut self.to_client, &resp).expect("response fits");
                }
                Err(_) => {
                    if let Some(reply) = farewell(ReadFailure::Other) {
                        write_frame(&mut self.to_client, &reply).expect("response fits");
                    }
                    self.closed = true;
                }
            }
        }
    }

    fn read_frame(&mut self) -> Result<Vec<u8>, FrameError> {
        let (frame, used) = read_frame(&self.to_client)?;
        self.to_client.drain(..used);
        Ok(frame)
    }

    fn send_recv(&mut self, frame: &[u8]) -> Result<Vec<u8>, FrameError> {
        let mut framed = Vec::new();
        write_frame(&mut framed, frame)?;
        self.write_all(&framed);
        self.read_frame()
    }
}

fn make_set(key: &str, val: &[u8]) -> Vec<u8> {
    assert!(key.len() <= u16::MAX as usize, "key too long");
    let mut frame = vec![OP_SET];
    let kl = key.len() as u16;
    frame.extend_from_slice(&kl.to_be_bytes());
    frame.extend_from_slice(key.as_bytes());
    let vl = val.len() as u32;
    frame.extend_from_slice(&vl.to_be_bytes());
    frame.extend_from_slice(val);
    frame
}

fn make_get(key: &str) -> Vec<u8> {
    assert!(key.len() <= u16::MAX as usize, "key too long");
    let mut frame = vec![OP_GET];
    let kl = key.len() as u16;
    frame.extend_from_slice(&kl.to_be_bytes());
    frame.extend_from_slice(key.as_bytes());
    frame
}

fn make_del(key: &str) -> Vec<u8> {
    assert!(key.len() <= u16::MAX as usize, "key too long");
    let mut frame = vec![OP_DEL];
    let kl = key.len() as u16;
    frame.extend_from_slice(&kl.to_be_bytes());
    frame.extend_from_slice(key.as_bytes());
    frame
}

fn make_ping() -> Vec<u8> {
    vec![OP_PING]
}

fn make_exists(key: &str) -> Vec<u8> {
    assert!(key.len() <= u16::MAX as usize, "key too long");
    let mut frame = vec![OP_EXISTS];
    let kl = key.len() as u16;
    frame.extend_from_slice(&kl.to_be_bytes());
    frame.extend_from_slice(key.as_bytes());
    frame
}

fn make_setx(key: &str, val: &[u8], ttl_ms: u64) -> Vec<u8> {
    assert!(key.len() <= u16::MAX as usize, "key too long");
    let mut frame = vec![OP_SETX];
    let kl = key.len() as u16;
    frame.extend_from_slice(&kl.to_be_bytes());
    frame.extend_from_slice(key.as_bytes());
    let vl = val.len() as u32;
    frame.extend_from_slice(&vl.to_be_bytes());
    frame.extend_from_slice(val);
    frame.extend_from_slice(&ttl_ms.to_be_bytes());
    frame
}

fn make_scan(prefix: &str, limit: u16, cursor: &str) -> Vec<u8> {
    assert!(prefix.len() <= u16::MAX as usize, "prefix too long");
    assert!(cursor.len() <= u16::MAX as usize, "cursor too long");
    let mut frame = vec![OP_SCAN];
    let pl = prefix.len() as u16;
    frame.extend_from_slice(&pl.to_be_bytes());
    frame.extend_from_slice(prefix.as_bytes());
    frame.extend_from_slice(&limit.to_be_bytes());
    let cl = cursor.len() as u16;
    frame.extend_from_slice(&cl.to_be_bytes());
    frame.extend_from_slice(cursor.as_bytes());
    frame
}

fn make_mget(keys: &[&str]) -> Vec<u8> {
    assert!(keys.len() <= u16::MAX as usize, "too many keys");
    let mut frame = vec![OP_MGET];
    let count = keys.len() as u16;
    frame.extend_from_slice(&count.to_be_bytes());
    for key in keys {
        assert!(key.len() <= u16::MAX as usize, "key too long");
        let kl = key.len() as u16;
        frame.extend_from_slice(&kl.to_be_bytes());
        frame.extend_from_slice(key.as_bytes());
    }
    frame
}

fn make_ttl(key: &str) -> Vec<u8> {
    assert!(key.len() <= u16::MAX as usize, "key too long");
    let mut frame = vec![OP_TTL];
    let kl = key.len() as u16;
    frame.extend_from_slice(&kl.to_be_bytes());
    frame.extend_from_slice(key.as_bytes());
    frame
}

#[test]
fn dispatch_empty_frame() {
    let mut store = ShardedKV::new();
    assert_eq!(dispatch(&[], &mut store, None), vec![RESP_ERROR]);
}

#[test]
fn dispatch_unknown_opcode() {
    let mut store = ShardedKV::new();
    assert_eq!(dispatch(&[0x99], &mut store, None), vec![RESP_ERROR]);
}

#[test]
fn dispatch_set_ok() {
    let mut store = ShardedKV::new();
    let frame = make_set("hello", b"world");
    assert_eq!(dispatch(&frame, &mut store, None), vec![RESP_OK]);
    assert_eq!(store.get("hello"), Some(b"world".to_vec()));
}

#[test]
fn dispatch_set_store_full() {
    let mut store = ShardedKV::with_max_entries(1);
    assert_eq!(dispatch(&make_set("a", b"1"), &mut store, None), vec![RESP_OK]);
    // Store is full — new key gets STORE_FULL response.
    assert_eq!(
        dispatch(&make_set("b", b"2"), &mut store, None),
        vec![RESP_STORE_FULL]
    );
    // Overwriting existing key still works.
    assert_eq!(
        dispatch(&make_set("a", b"updated"), &mut store, None),
        vec![RESP_OK]
    );
}

#[test]
fn dispatch_set_overwrite() {
    let mut store = ShardedKV::new();
    dispatch(&make_set("k", b"v1"), &mut store, None);
    dispatch(&make_set("k", b"v2"), &mut store, None);
    assert_eq!(store.get("k"), Some(b"v2".to_vec()));
}

#[test]
fn dispatch_set_empty_value() {
    let mut store = ShardedKV::new();
    let frame = make_set("empty", &[]);
    assert_eq!(dispatch(&frame, &mut store, None), vec![RESP_OK]);
    assert_eq!(store.get("empty"), Some(vec![]));
}

#[test]
fn dispatch_set_trailing_bytes_rejected() {
    let mut store = ShardedKV::new();
    let mut frame = make_set("k", b"v");
    frame.push(0xDE);
    assert_eq!(dispatch(&frame, &mut store, None), vec![RESP_ERROR]);
}

#[test]
fn dispatch_set_short_key_len() {
    let mut store = ShardedKV::new();
    assert_eq!(dispatch(&[OP_SET, 0x01], &mut store, None), vec![RESP_ERROR]);
}

#[test]
fn dispatch_get_found() {
    let mut store = ShardedKV::new();
    store.set("key", b"val".to_vec());
    let resp = dispatch(&make_get("key"), &mut store, None);
    assert_eq!(resp[0], RESP_OK);
    let val_len = u32::from_be_bytes([resp[1], resp[2], resp[3], resp[4]]) as usize;
    assert_eq!(val_len, 3);
    assert_eq!(&resp[5..8], b"val");
}

#[test]
fn dispatch_get_not_found() {
    let mut store = ShardedKV::new();
    let resp = dispatch(&make_get("missing"), &mut store, None);
    assert_eq!(resp, vec![RESP_NOT_FOUND]);
}

#[test]
fn dispatch_get_empty_value_distinguished_from_missing() {
    let mut store = ShardedKV::new();
    store.set("empty", vec![]);
    let resp_found = dispatch(&make_get("empty"), &mut store, None);
    let resp_missing = dispatch(&make_get("nope"), &mut store, None);
    assert_eq!(resp_found[0], RESP_OK);
    assert!(resp_found.len() >= 5);
    assert_eq!(resp_missing, vec![RESP_NOT_FOUND]);
    assert_ne!(resp_found, resp_missing);
}

#[test]
fn dispatch_get_large_value() {
    let mut store = ShardedKV::new();
    let big: Vec<u8> = (0..70_000).map(|i| (i % 256) as u8).collect();
    store.set("big", big.clone());
    let resp = dispatch(&make_get("big"), &mut store, None);
    assert_eq!(resp[0], RESP_OK);
    let val_len = u32::from_be_bytes([resp[1], resp[2], resp[3], resp[4]]) as usize;
    assert_eq!(val_len, 70_000);
    assert_eq!(&resp[5..], &big[..]);
}

#[test]
fn dispatch_del_found() {
    let mut store = ShardedKV::new();
    store.set("k", b"v".to_vec());
    assert_eq!(dispatch(&make_del("k"), &mut store, None), vec![RESP_DELETED]);
    assert_eq!(store.get("k"), None);
}

#[test]
fn dispatch_del_not_found() {
    let mut store = ShardedKV::new();
    assert_eq!(
        dispatch(&make_del("nope"), &mut store, None),
        vec![RESP_NOT_FOUND]
    );
}

#[test]
fn dispatch_get_invalid_utf8_key() {
    let mut store = ShardedKV::new();
    let mut frame = vec![OP_GET];
    frame.extend_from_slice(&[0, 3]);
    frame.extend_from_slice(&[0xFF, 0xFE, 0xFD]);
    assert_eq!(dispatch(&frame, &mut store, None), vec![RESP_ERROR]);
}

#[test]
fn dispatch_set_invalid_utf8_key() {
    let mut store = ShardedKV::new();
    let mut frame = vec![OP_SET];
    frame.extend_from_slice(&[0, 3]);
    frame.extend_from_slice(&[0xFF, 0xFE, 0xFD]);
    frame.extend_from_slice(&[0, 0, 0, 0]);
    assert_eq!(dispatch(&frame, &mut store, None), vec![RESP_ERROR]);
}

#[test]
fn dispatch_get_trailing_bytes_rejected() {
    let mut store = ShardedKV::new();
    store.set("k", b"v".to_vec());
    let mut frame = make_get("k");
    frame.push(0xDE);
    assert_eq!(dispatch(&frame, &mut store, None), vec![RESP_ERROR]);
}

#[test]
fn dispatch_del_trailing_bytes_rejected() {
    let mut store = ShardedKV::new();
    store.set("k", b"v".to_vec());
    let mut frame = make_del("k");
    frame.push(0xDE);
    assert_eq!(dispatch(&frame, &mut store, None), vec![RESP_ERROR]);
    assert_eq!(store.get("k"), Some(b"v".to_vec()));
}

#[test]
fn dispatch_roundtrip() {
    let mut store = ShardedKV::new();
    for i in 0..10 {
        let frame = make_set(&format!("k{i}"), format!("v{i}").as_bytes());
        assert_eq!(dispatch(&frame, &mut store, None), vec![RESP_OK]);
    }
    for i in 0..10 {
        let resp = dispatch(&make_get(&format!("k{i}")), &mut store, None);
        assert_eq!(resp[0], RESP_OK);
        let val_len = u32::from_be_bytes([resp[1], resp[2], resp[3], resp[4]]) as usize;
        assert_eq!(val_len, 2);
        assert_eq!(&resp[5..7], format!("v{i}").as_bytes());
    }
    for i in (0..10).step_by(2) {
        assert_eq!(
            dispatch(&make_del(&format!("k{i}")), &mut store, None),
            vec![RESP_DELETED]
        );
    }
    for i in (0..10).step_by(2) {
        assert_eq!(
            dispatch(&make_get(&format!("k{i}")), &mut store, None),
            vec![RESP_NOT_FOUND]
        );
    }
    for i in (1..10).step_by(2) {
        let resp = dispatch(&make_get(&format!("k{i}")), &mut store, None);
        assert_eq!(resp[0], RESP_OK);
    }
}

#[test]
fn dispatch_ping() {
    let mut store = ShardedKV::new();
    assert_eq!(dispatch(&[OP_PING], &mut store, None), vec![RESP_OK]);
    // PING with trailing bytes should error.
    assert_eq!(dispatch(&[OP_PING, 0x01], &mut store, None), vec![RESP_ERROR]);
}

#[test]
fn dispatch_exists() {
    let mut store = ShardedKV::new();
    store.set("key", b"val".to_vec());

    // EXISTS on present key → OK
    assert_eq!(dispatch(&make_exists("key"), &mut store, None), vec![RESP_OK]);
    // EXISTS on missing key → NOT_FOUND
    assert_eq!(
        dispatch(&make_exists("missing"), &mut store, None),
        vec![RESP_NOT_FOUND]
    );
    // EXISTS with trailing bytes → ERROR
    let mut frame = make_exists("key");
    frame.push(0xDE);
    assert_eq!(dispatch(&frame, &mut store, None), vec![RESP_ERROR]);
}

#[test]
fn dispatch_exists_edge_cases() {
    let mut store = ShardedKV::new();
    // Empty key (key_len=0) — valid, should return NOT_FOUND.
    let frame = vec![OP_EXISTS, 0x00, 0x00];
    assert_eq!(dispatch(&frame, &mut store, None), vec![RESP_NOT_FOUND]);

    // Set empty key, then EXISTS should return OK.
    store.set("", b"v".to_vec());
    assert_eq!(dispatch(&frame, &mut store, None), vec![RESP_OK]);

    // Invalid UTF-8 key → ERROR
    let mut bad_frame = vec![OP_EXISTS];
    bad_frame.extend_from_slice(&[0, 3]);
    bad_frame.extend_from_slice(&[0xFF, 0xFE, 0xFD]);
    assert_eq!(dispatch(&bad_frame, &mut store, None), vec![RESP_ERROR]);

    // Truncated key-len (claims 5 bytes, only 2 available) → ERROR
    assert_eq!(
        dispatch(&[OP_EXISTS, 0x00, 0x05, b'a', b'b'], &mut store, None),
        vec![RESP_ERROR]
    );
}

// SETX tests

#[test]
fn dispatch_setx_ok() {
    let mut store = ShardedKV::new();
    let frame = make_setx("temp", b"ephemeral", 3_600_000);
    assert_eq!(dispatch(&frame, &mut store, None), vec![RESP_OK]);
    assert_eq!(store.get("temp"), Some(b"ephemeral".to_vec()));
}

#[test]
fn dispatch_setx_ttl_zero_rejected() {
    let mut store = ShardedKV::new();
    let frame = make_setx("temp", b"v", 0);
    assert_eq!(dispatch(&frame, &mut store, None), vec![RESP_ERROR]);
    // Key should not be stored.
    assert_eq!(store.get("temp"), None);
}

#[test]
fn dispatch_setx_store_full() {
    let mut store = ShardedKV::with_max_entries(1);
    assert_eq!(
        dispatch(&make_setx("a", b"1", 3_600_000), &mut store, None),
        vec![RESP_OK]
    );
    // Store is full — new key gets STORE_FULL.
    assert_eq!(
        dispatch(&make_setx("b", b"2", 3_600_000), &mut store, None),
        vec![RESP_STORE_FULL]
    );
    // Overwriting existing key still works.
    assert_eq!(
        dispatch(&make_setx("a", b"updated", 3_600_000), &mut store, None),
        vec![RESP_OK]
    );
}

#[test]
fn dispatch_setx_trailing_bytes_rejected() {
    let mut store = ShardedKV::new();
    let mut frame = make_setx("k", b"v", 1000);
    frame.push(0xDE);
    assert_eq!(dispatch(&frame, &mut store, None), vec![RESP_ERROR]);
}

#[test]
fn dispatch_setx_truncated() {
    let mut store = ShardedKV::new();
    // Missing the 8-byte ttl-ms field.
    let mut frame = make_set("k", b"v");
    frame[0] = OP_SETX; // Change opcode to SETX but don't add TTL.
    assert_eq!(dispatch(&frame, &mut store, None), vec![RESP_ERROR]);
}

#[test]
fn dispatch_setx_invalid_utf8_key() {
    let mut store = ShardedKV::new();
    let mut frame = vec![OP_SETX];
    frame.extend_from_slice(&[0, 3]);
    frame.extend_from_slice(&[0xFF, 0xFE, 0xFD]);
    frame.extend_from_slice(&[0, 0, 0, 0]); // val_len=0
    frame.extend_from_slice(&[0, 0, 0, 0, 0, 0, 0x03, 0xE8]); // ttl=1000
    assert_eq!(dispatch(&frame, &mut store, None), vec![RESP_ERROR]);
}

#[test]
fn dispatch_setx_empty_value() {
    let mut store = ShardedKV::new();
    let frame = make_setx("empty", &[], 3_600_000);
    assert_eq!(dispatch(&frame, &mut store, None), vec![RESP_OK]);
    assert_eq!(store.get("empty"), Some(vec![]));
}

#[test]
fn dispatch_setx_expiry_via_lazy_get() {
    let mut store = ShardedKV::new();
    // 50ms TTL.
    let frame = make_setx("temp", b"v", 50);
    assert_eq!(dispatch(&frame, &mut store, None), vec![RESP_OK]);
    assert_eq!(store.len(), 1);

    wait_ms(80);

    // GET on expired → NOT_FOUND, entry removed, count decremented.
    let resp = dispatch(&make_get("temp"), &mut store, None);
    assert_eq!(resp, vec![RESP_NOT_FOUND]);
    assert_eq!(store.len(), 0);
}

#[test]
fn dispatch_set_after_setx_clears_ttl() {
    let mut store = ShardedKV::new();
    // SETX with short TTL.
    dispatch(&make_setx("k", b"v1", 50), &mut store, None);
    // Plain SET overwrites — entry becomes permanent.
    dispatch(&make_set("k", b"v2"), &mut store, None);
    assert_eq!(store.len(), 1);

    // Wait past original TTL — entry should still be present.
    wait_ms(80);
    let resp = dispatch(&make_get("k"), &mut store, None);
    assert_eq!(resp[0], RESP_OK);
}

// SCAN tests

#[test]
fn dispatch_scan_basic() {
    let mut store = ShardedKV::new();
    store.set("apple", b"1".to_vec());
    store.set("app2", b"2".to_vec());
    store.set("banana", b"3".to_vec());

    // Scan with prefix "app" — should return "app2" and "apple" sorted.
    let resp = dispatch(&make_scan("app", 100, ""), &mut store, None);
    assert_eq!(resp[0], RESP_OK);
    let count = u16::from_be_bytes([resp[1], resp[2]]) as usize;
    assert_eq!(count, 2);
    // Keys are lexicographically sorted: "app2" < "apple".
    let mut pos = 3;
    let key1_len = u16::from_be_bytes([resp[pos], resp[pos + 1]]) as usize;
    pos += 2;
    assert_eq!(&resp[pos..pos + key1_len], b"app2");
    pos += key1_len;
    let key2_len = u16::from_be_bytes([resp[pos], resp[pos + 1]]) as usize;
    pos += 2;
    assert_eq!(&resp[pos..pos + key2_len], b"apple");
    pos += key2_len;
    // more-flag = 0 (no more pages).
    assert_eq!(resp[pos], 0x00);
}

#[test]
fn dispatch_scan_empty_prefix() {
    let mut store = ShardedKV::new();
    store.set("a", b"1".to_vec());
    store.set("b", b"2".to_vec());
    store.set("c", b"3".to_vec());

    // Empty prefix = scan all.
    let resp = dispatch(&make_scan("", 100, ""), &mut store, None);
    assert_eq!(resp[0], RESP_OK);
    let count = u16::from_be_bytes([resp[1], resp[2]]) as usize;
    assert_eq!(count, 3);
}

#[test]
fn dispatch_scan_pagination() {
    let mut store = ShardedKV::new();
    // Insert keys k00..k09 in a non-sorted order.
    for i in 0..10 {
        store.set(&format!("k{i:02}"), b"v".to_vec());
    }

    // Page 1: limit=3, empty cursor.
    let resp = dispatch(&make_scan("", 3, ""), &mut store, None);
    assert_eq!(resp[0], RESP_OK);
    let count = u16::from_be_bytes([resp[1], resp[2]]) as usize;
    assert_eq!(count, 3);
    assert_eq!(resp[resp.len() - 1], 0x01); // more = true

    // Extract last key of page 1 as cursor.
    let mut pos = 3;
    let mut last_key = String::new();
    for _ in 0..3 {
        let kl = u16::from_be_bytes([resp[pos], resp[pos + 1]]) as usize;
        pos += 2;
        last_key = String::from_utf8(resp[pos..pos + kl].to_vec()).unwrap();
        pos += kl;
    }

    // Page 2: limit=3, cursor=last key of page 1.
    let resp = dispatch(&make_scan("", 3, &last_key), &mut store, None);
    assert_eq!(resp[0], RESP_OK);
    let count = u16::from_be_bytes([resp[1], resp[2]]) as usize;
    assert_eq!(count, 3);
    assert_eq!(resp[resp.len() - 1], 0x01); // more = true

    // Extract last key of page 2.
    pos = 3;
    for _ in 0..3 {
        let kl = u16::from_be_bytes([resp[pos], resp[pos + 1]]) as usize;
        pos += 2;
        last_key = String::from_utf8(resp[pos..pos + kl].to_vec()).unwrap();
        pos += kl;
    }

    // Page 3: limit=3, cursor=last key of page 2.
    let resp = dispatch(&make_scan("", 3, &last_key), &mut store, None);
    assert_eq!(resp[0], RESP_OK);
    let count = u16::from_be_bytes([resp[1], resp[2]]) as usize;
    assert_eq!(count, 3);
    assert_eq!(resp[resp.len() - 1], 0x01); // more = true (10 total, 9 returned, 1 left)

    // Extract last key of page 3.
    pos = 3;
    for _ in 0..3 {
        let kl = u16::from_be_bytes([resp[pos], resp[pos + 1]]) as usize;
        pos += 2;
        last_key = String::from_utf8(resp[pos..pos + kl].to_vec()).unwrap();
        pos += kl;
    }

    // Page 4: limit=3, cursor=last key of page 3 — only 1 key left.
    let resp = dispatch(&make_scan("", 3, &last_key), &mut store, None);
    assert_eq!(resp[0], RESP_OK);
    let count = u16::from_be_bytes([resp[1], resp[2]]) as usize;
    assert_eq!(count, 1);
    assert_eq!(resp[resp.len() - 1], 0x00); // more = false
}

#[test]
fn dispatch_scan_excludes_expired() {
    let mut store = ShardedKV::new();
    store.set("perm", b"1".to_vec());
    store.set_with_ttl("temp", b"2".to_vec(), 50);

    // Wait for expiry.
    wait_ms(80);

    let resp = dispatch(&make_scan("", 100, ""), &mut store, None);
    assert_eq!(resp[0], RESP_OK);
    let count = u16::from_be_bytes([resp[1], resp[2]]) as usize;
    assert_eq!(count, 1); // only "perm"

    // Scan should have purged the expired "temp" entry.
    assert_eq!(store.len(), 1);
}

#[test]
fn dispatch_scan_limit_capped() {
    let mut store = ShardedKV::new();
    for i in 0..10 {
        store.set(&format!("k{i:02}"), b"v".to_vec());
    }

    // Request limit=2000, should cap at 1024 and return all 10.
    let resp = dispatch(&make_scan("", 2000, ""), &mut store, None);
    assert_eq!(resp[0], RESP_OK);
    let count = u16::from_be_bytes([resp[1], resp[2]]) as usize;
    assert_eq!(count, 10);
}

#[test]
fn dispatch_scan_limit_capped_at_1024() {
    let mut store = ShardedKV::new();
    // Insert 1025 keys — more than the 1024 cap.
    for i in 0..1025 {
        store.set(&format!("k{i:04}"), b"v".to_vec());
    }

    // Request limit=2000, should cap at 1024 and return exactly 1024.
    let resp = dispatch(&make_scan("", 2000, ""), &mut store, None);
    assert_eq!(resp[0], RESP_OK);
    let count = u16::from_be_bytes([resp[1], resp[2]]) as usize;
    assert_eq!(count, 1024);
    // more = true since there are more keys.
    assert_eq!(resp[resp.len() - 1], 0x01);
}

#[test]
fn dispatch_scan_trailing_bytes_rejected() {
    let mut store = ShardedKV::new();
    let mut frame = make_scan("", 10, "");
    frame.push(0xDE);
    assert_eq!(dispatch(&frame, &mut store, None), vec![RESP_ERROR]);
}

#[test]
fn dispatch_scan_empty_store() {
    let mut store = ShardedKV::new();
    let resp = dispatch(&make_scan("", 100, ""), &mut store, None);
    assert_eq!(resp[0], RESP_OK);
    let count = u16::from_be_bytes([resp[1], resp[2]]) as usize;
    assert_eq!(count, 0);
    assert_eq!(resp[3], 0x00); // more = false
}

// MGET tests

#[test]
fn dispatch_mget_mixed_found_missing() {
    let mut store = ShardedKV::new();
    store.set("a", b"val_a".to_vec());
    store.set("c", b"val_c".to_vec());

    let resp = dispatch(&make_mget(&["a", "b", "c"]), &mut store, None);
    assert_eq!(resp[0], RESP_OK);

    // Key "a" — found.
    assert_eq!(resp[1], 0x01);
    let len_a = u32::from_be_bytes([resp[2], resp[3], resp[4], resp[5]]) as usize;
    assert_eq!(len_a, 5);
    assert_eq!(&resp[6..6 + len_a], b"val_a");
    let mut pos = 6 + len_a;

    // Key "b" — not found.
    assert_eq!(resp[pos], 0x00);
    pos += 1;

    // Key "c" — found.
    assert_eq!(resp[pos], 0x01);
    let len_c = u32::from_be_bytes([resp[pos + 1], resp[pos + 2], resp[pos + 3], resp[pos + 4]])
        as usize;
    assert_eq!(len_c, 5);
    assert_eq!(&resp[pos + 5..pos + 5 + len_c], b"val_c");
}

#[test]
fn dispatch_mget_preserves_order() {
    let mut store = ShardedKV::new();
    store.set("x", b"1".to_vec());
    store.set("y", b"2".to_vec());
    store.set("z", b"3".to_vec());

    // Request in non-sorted order.
    let resp = dispatch(&make_mget(&["z", "x", "y"]), &mut store, None);
    assert_eq!(resp[0], RESP_OK);

    let mut pos = 1;
    // "z" first.
    assert_eq!(resp[pos], 0x01);
    let len = u32::from_be_bytes([resp[pos + 1], resp[pos + 2], resp[pos + 3], resp[pos + 4]])
        as usize;
    assert_eq!(&resp[pos + 5..pos + 5 + len], b"3");
    pos += 5 + len;

    // "x" second.
    assert_eq!(resp[pos], 0x01);
    let len = u32::from_be_bytes([resp[pos + 1], resp[pos + 2], resp[pos + 3], resp[pos + 4]])
        as usize;
    assert_eq!(&resp[pos + 5..pos + 5 + len], b"1");
    pos += 5 + len;

    // "y" third.
    assert_eq!(resp[pos], 0x01);
    let len = u32::from_be_bytes([resp[pos + 1], resp[pos + 2], resp[pos + 3], resp[pos + 4]])
        as usize;
    assert_eq!(&resp[pos + 5..pos + 5 + len], b"2");
}

#[test]
fn dispatch_mget_all_missing() {
    let mut store = ShardedKV::new();
    let resp = dispatch(&make_mget(&["a", "b", "c"]), &mut store, None);
    assert_eq!(resp[0], RESP_OK);
    assert_eq!(resp[1], 0x00); // a not found
    assert_eq!(resp[2], 0x00); // b not found
    assert_eq!(resp[3], 0x00); // c not found
}

#[test]
fn dispatch_mget_empty() {
    let mut store = ShardedKV::new();
    let resp = dispatch(&make_mget(&[]), &mut store, None);
    assert_eq!(resp[0], RESP_OK);
    assert_eq!(resp.len(), 1); // just RESP_OK, no entries
}

#[test]
fn dispatch_mget_count_exceeds_cap() {
    let mut store = ShardedKV::new();
    // Build a request with 257 keys (cap is 256).
    let keys: Vec<&str> = (0..257).map(|_| "k").collect();
    let resp = dispatch(&make_mget(&keys), &mut store, None);
    assert_eq!(resp, vec![RESP_ERROR]);
}

#[test]
fn dispatch_mget_trailing_bytes_rejected() {
    let mut store = ShardedKV::new();
    let mut frame = make_mget(&["a"]);
    frame.push(0xDE);
    assert_eq!(dispatch(&frame, &mut store, None), vec![RESP_ERROR]);
}

#[test]
fn dispatch_mget_excludes_expired() {
    let mut store = ShardedKV::new();
    store.set("perm", b"1".to_vec());
    store.set_with_ttl("temp", b"2".to_vec(), 50);

    wait_ms(80);

    let resp = dispatch(&make_mget(&["perm", "temp"]), &mut store, None);
    assert_eq!(resp[0], RESP_OK);

    // "perm" — found.
    assert_eq!(resp[1], 0x01);
    let len = u32::from_be_bytes([resp[2], resp[3], resp[4], resp[5]]) as usize;
    assert_eq!(&resp[6..6 + len], b"1");
    let pos = 6 + len;

    // "temp" — not found (expired).
    assert_eq!(resp[pos], 0x00);
}

// TTL tests

#[test]
fn dispatch_ttl_permanent() {
    let mut store = ShardedKV::new();
    store.set("k", b"v".to_vec());
    let resp = dispatch(&make_ttl("k"), &mut store, None);
    assert_eq!(resp[0], RESP_OK);
    assert_eq!(resp[1], 0x00); // permanent
    assert_eq!(resp.len(), 2); // no remaining-ms payload
}

#[test]
fn dispatch_ttl_with_expiry() {
    let mut store = ShardedKV::new();
    store.set_with_ttl("temp", b"v".to_vec(), 3_600_000);
    let resp = dispatch(&make_ttl("temp"), &mut store, None);
    assert_eq!(resp[0], RESP_OK);
    assert_eq!(resp[1], 0x01); // has TTL
    assert_eq!(resp.len(), 10); // 1 + 1 + 8
    let remaining = u64::from_be_bytes([
        resp[2], resp[3], resp[4], resp[5], resp[6], resp[7], resp[8], resp[9],
    ]);
    // Should be close to 3_600_000 ms (allow small delta for execution time).
    assert!(remaining > 3_500_000 && remaining <= 3_600_000);
}

#[test]
fn dispatch_ttl_not_found() {
    let mut store = ShardedKV::new();
    let resp = dispatch(&make_ttl("missing"), &mut store, None);
    assert_eq!(resp, vec![RESP_NOT_FOUND]);
}

#[test]
fn dispatch_ttl_expired_purges() {
    let mut store = ShardedKV::new();
    store.set_with_ttl("temp", b"v".to_vec(), 50);
    assert_eq!(store.len(), 1);

    wait_ms(80);

    // TTL on expired → NOT_FOUND, entry removed, count decremented.
    let resp = dispatch(&make_ttl("temp"), &mut store, None);
    assert_eq!(resp, vec![RESP_NOT_FOUND]);
    assert_eq!(store.len(), 0);
}

#[test]
fn dispatch_ttl_trailing_bytes_rejected() {
    let mut store = ShardedKV::new();
    store.set("k", b"v".to_vec());
    let mut frame = make_ttl("k");
    frame.push(0xDE);
    assert_eq!(dispatch(&frame, &mut store, None), vec![RESP_ERROR]);
}

#[test]
fn dispatch_ttl_invalid_utf8_key() {
    let mut store = ShardedKV::new();
    let mut frame = vec![OP_TTL];
    frame.extend_from_slice(&[0, 3]);
    frame.extend_from_slice(&[0xFF, 0xFE, 0xFD]);
    assert_eq!(dispatch(&frame, &mut store, None), vec![RESP_ERROR]);
}

#[test]
fn dispatch_ttl_truncated() {
    let mut store = ShardedKV::new();
    // Only 1 byte after opcode (need at least 2 for key-len).
    assert_eq!(dispatch(&[OP_TTL, 0x01], &mut store, None), vec![RESP_ERROR]);
}

#[test]
fn dispatch_ttl_empty_key_not_found() {
    let mut store = ShardedKV::new();
    let frame = vec![OP_TTL, 0x00, 0x00];
    assert_eq!(dispatch(&frame, &mut store, None), vec![RESP_NOT_FOUND]);
}

// Sizes at the limit

#[test]
fn dispatch_get_oversized_value() {
    // A value larger than MAX_FRAME_SIZE entered via library API
    // (not the wire protocol) should return RESP_ERROR on GET, not
    // an oversized response frame.
    let mut store = ShardedKV::new();
    let big_val = vec![0u8; MAX_FRAME_SIZE + 1];
    store.set("big", big_val);

    let frame = make_get("big");
    let resp = dispatch(&frame, &mut store, None);
    assert_eq!(resp, vec![RESP_ERROR]);
}

#[test]
fn dispatch_get_normal_value_still_works() {
    let mut store = ShardedKV::new();
    store.set("key", b"value".to_vec());

    let frame = make_get("key");
    let resp = dispatch(&frame, &mut store, None);
    assert_eq!(resp[0], RESP_OK);
}

#[test]
fn dispatch_get_boundary_max_size() {
    // Value of exactly MAX_FRAME_SIZE - 5 (1 + 4 + val = MAX_FRAME_SIZE)
    // should be the largest accepted GET response.
    let mut store = ShardedKV::new();
    let val = vec![0u8; MAX_FRAME_SIZE - 5];
    store.set("boundary", val);

    let frame = make_get("boundary");
    let resp = dispatch(&frame, &mut store, None);
    assert_eq!(resp[0], RESP_OK);
    assert_eq!(resp.len(), MAX_FRAME_SIZE);
}

#[test]
fn dispatch_get_one_byte_over_boundary() {
    // Value of MAX_FRAME_SIZE - 4 (total = MAX_FRAME_SIZE + 1) should
    // be rejected.
    let mut store = ShardedKV::new();
    let val = vec![0u8; MAX_FRAME_SIZE - 4];
    store.set("over", val);

    let frame = make_get("over");
    let resp = dispatch(&frame, &mut store, None);
    assert_eq!(resp, vec![RESP_ERROR]);
}

#[test]
fn dispatch_scan_oversized_key() {
    // A key longer than u16::MAX entered via library API should
    // return RESP_ERROR from SCAN, not a truncated response.
    let mut store = ShardedKV::new();
    let big_key = "x".repeat(u16::MAX as usize + 1);
    store.set(&big_key, b"v".to_vec());

    let frame = make_scan("", 100, "");
    let resp = dispatch(&frame, &mut store, None);
    assert_eq!(resp, vec![RESP_ERROR]);
}

// Exchanges of frames

#[test]
fn wire_roundtrip() {
    let mut stream = Connection::open();

    let resp = stream.send_recv(&make_set("hello", b"world")).expect("SET");
    assert_eq!(resp, vec![RESP_OK]);

    let resp = stream.send_recv(&make_get("hello")).expect("GET");
    assert_eq!(resp[0], RESP_OK);
    let val_len = u32::from_be_bytes([resp[1], resp[2], resp[3], resp[4]]) as usize;
    assert_eq!(val_len, 5);
    assert_eq!(&resp[5..10], b"world");

    let resp = stream.send_recv(&make_get("missing")).expect("GET missing");
    assert_eq!(resp, vec![RESP_NOT_FOUND]);

    let resp = stream.send_recv(&make_del("hello")).expect("DEL");
    assert_eq!(resp, vec![RESP_DELETED]);

    let resp = stream.send_recv(&make_del("hello")).expect("DEL again");
    assert_eq!(resp, vec![RESP_NOT_FOUND]);
}

#[test]
fn wire_large_value() {
    let mut stream = Connection::open();

    let big: Vec<u8> = (0..70_000).map(|i| (i % 256) as u8).collect();
    let resp = stream.send_recv(&make_set("big", &big)).expect("SET big");
    assert_eq!(resp, vec![RESP_OK]);

    let resp = stream.send_recv(&make_get("big")).expect("GET big");
    assert_eq!(resp[0], RESP_OK);
    let val_len = u32::from_be_bytes([resp[1], resp[2], resp[3], resp[4]]) as usize;
    assert_eq!(val_len, 70_000);
    assert_eq!(&resp[5..], &big[..]);
}

#[test]
fn wire_error_responses() {
    let mut stream = Connection::open();

    let resp = stream.send_recv(&[]).expect("empty frame");
    assert_eq!(resp, vec![RESP_ERROR]);

    let resp = stream.send_recv(&[0x99]).expect("bad opcode");
    assert_eq!(resp, vec![RESP_ERROR]);

    let resp = stream.send_recv(&[OP_SET, 0x01]).expect("truncated");
    assert_eq!(resp, vec![RESP_ERROR]);
}

#[test]
fn wire_oversized_frame() {
    let mut stream = Connection::open();

    let oversized_len: u32 = (MAX_FRAME_SIZE + 1) as u32;
    stream.write_all(&oversized_len.to_be_bytes());

    let resp = stream.read_frame();
    match resp {
        Ok(data) => assert_eq!(data, vec![RESP_ERROR]),
        Err(FrameError::UnexpectedEof) => {}
        Err(e) => panic!("unexpected error: {e:?}"),
    }
    assert!(stream.closed);
}

#[test]
fn uds_roundtrip() {
    let mut stream = Connection::open();

    let resp = stream.send_recv(&make_set("hello", b"world")).expect("SET");
    assert_eq!(resp, vec![RESP_OK]);

    let resp = stream.send_recv(&make_get("hello")).expect("GET");
    assert_eq!(resp[0], RESP_OK);
    let val_len = u32::from_be_bytes([resp[1], resp[2], resp[3], resp[4]]) as usize;
    assert_eq!(val_len, 5);
    assert_eq!(&resp[5..10], b"world");

    let resp = stream.send_recv(&make_get("missing")).expect("GET missing");
    assert_eq!(resp, vec![RESP_NOT_FOUND]);

    let resp = stream.send_recv(&make_del("hello")).expect("DEL");
    assert_eq!(resp, vec![RESP_DELETED]);
}

#[test]
fn uds_large_value() {
    let mut stream = Connection::open();

    let big: Vec<u8> = (0..70_000).map(|i| (i % 256) as u8).collect();
    let resp = stream.send_recv(&make_set("big", &big)).expect("SET");
    assert_eq!(resp, vec![RESP_OK]);

    let resp = stream.send_recv(&make_get("big")).expect("GET");
    assert_eq!(resp[0], RESP_OK);
    let val_len = u32::from_be_bytes([resp[1], resp[2], resp[3], resp[4]]) as usize;
    assert_eq!(val_len, 70_000);
    assert_eq!(&resp[5..], &big[..]);
}

#[test]
fn uds_error_responses() {
    let mut stream = Connection::open();

    let resp = stream.send_recv(&[]).expect("empty frame");
    assert_eq!(resp, vec![RESP_ERROR]);

    let resp = stream.send_recv(&[0x99]).expect("bad opcode");
    assert_eq!(resp, vec![RESP_ERROR]);
}

#[test]
fn uds_oversized_frame() {
    let mut stream = Connection::open();

    let oversized_len: u32 = (MAX_FRAME_SIZE + 1) as u32;
    stream.write_all(&oversized_len.to_be_bytes());

    let resp = stream.read_frame();
    match resp {
        Ok(data) => assert_eq!(data, vec![RESP_ERROR]),
        Err(FrameError::UnexpectedEof) => {}
        Err(e) => panic!("unexpected error: {e:?}"),
    }
    assert!(stream.closed);
}

#[test]
fn uds_ping_and_exists() {
    let mut stream = Connection::open();

    // PING
    let resp = stream.send_recv(&make_ping()).expect("PING");
    assert_eq!(resp, vec![RESP_OK]);

    // SET a key
    let resp = stream.send_recv(&make_set("k", b"v")).expect("SET");
    assert_eq!(resp, vec![RESP_OK]);

    // EXISTS on present key
    let resp = stream.send_recv(&make_exists("k")).expect("EXISTS");
    assert_eq!(resp, vec![RESP_OK]);

    // EXISTS on missing key
    let resp = stream.send_recv(&make_exists("missing")).expect("EXISTS missing");
    assert_eq!(resp, vec![RESP_NOT_FOUND]);
}

#[test]
fn uds_setx_roundtrip() {
    let mut stream = Connection::open();

    // SETX with a long TTL.
    let resp =
        stream.send_recv(&make_setx("temp", b"ephemeral", 3_600_000)).expect("SETX");
    assert_eq!(resp, vec![RESP_OK]);

    // GET should return the value.
    let resp = stream.send_recv(&make_get("temp")).expect("GET");
    assert_eq!(resp[0], RESP_OK);
    let val_len = u32::from_be_bytes([resp[1], resp[2], resp[3], resp[4]]) as usize;
    assert_eq!(val_len, 9);
    assert_eq!(&resp[5..14], b"ephemeral");

    // EXISTS should return OK.
    let resp = stream.send_recv(&make_exists("temp")).expect("EXISTS");
    assert_eq!(resp, vec![RESP_OK]);
}

#[test]
fn uds_setx_ttl_zero_rejected() {
    let mut stream = Connection::open();

    let resp = stream.send_recv(&make_setx("temp", b"v", 0)).expect("SETX ttl=0");
    assert_eq!(resp, vec![RESP_ERROR]);

    // Key should not be stored.
    let resp = stream.send_recv(&make_get("temp")).expect("GET");
    assert_eq!(resp, vec![RESP_NOT_FOUND]);
}

#[test]
fn uds_setx_expiry() {
    let mut stream = Connection::open();

    // SETX with 50ms TTL.
    let resp = stream.send_recv(&make_setx("temp", b"v", 50)).expect("SETX");
    assert_eq!(resp, vec![RESP_OK]);

    // GET immediately — should find the value.
    let resp = stream.send_recv(&make_get("temp")).expect("GET");
    assert_eq!(resp[0], RESP_OK);

    // Wait for expiry.
    wait_ms(80);

    // GET on expired → NOT_FOUND.
    let resp = stream.send_recv(&make_get("temp")).expect("GET expired");
    assert_eq!(resp, vec![RESP_NOT_FOUND]);
}

#[test]
fn uds_set_after_setx_clears_ttl() {
    let mut stream = Connection::open();

    // SETX with short TTL.
    let resp = stream.send_recv(&make_setx("k", b"v1", 50)).expect("SETX");
    assert_eq!(resp, vec![RESP_OK]);

    // Plain SET overwrites — clears TTL.
    let resp = stream.send_recv(&make_set("k", b"v2")).expect("SET");
    assert_eq!(resp, vec![RESP_OK]);

    // Wait past original TTL.
    wait_ms(80);

    // GET should still find the value (TTL was cleared).
    let resp = stream.send_recv(&make_get("k")).expect("GET after TTL");
    assert_eq!(resp[0], RESP_OK);
    let val_len = u32::from_be_bytes([resp[1], resp[2], resp[3], resp[4]]) as usize;
    assert_eq!(val_len, 2);
    assert_eq!(&resp[5..7], b"v2");
}

#[test]
fn uds_scan_pagination() {
    let mut stream = Connection::open();

    // Insert 5 keys.
    for i in 0..5 {
        let resp = stream.send_recv(&make_set(&format!("k{i}"), b"v")).expect("SET");
        assert_eq!(resp, vec![RESP_OK]);
    }

    // Page 1: limit=2.
    let resp = stream.send_recv(&make_scan("", 2, "")).expect("SCAN page 1");
    assert_eq!(resp[0], RESP_OK);
    let count = u16::from_be_bytes([resp[1], resp[2]]) as usize;
    assert_eq!(count, 2);
    assert_eq!(resp[resp.len() - 1], 0x01); // more

    // Get last key as cursor.
    let mut pos = 3;
    let mut last_key = String::new();
    for _ in 0..2 {
        let kl = u16::from_be_bytes([resp[pos], resp[pos + 1]]) as usize;
        pos += 2;
        last_key = String::from_utf8(resp[pos..pos + kl].to_vec()).unwrap();
        pos += kl;
    }

    // Page 2: cursor = last key.
    let resp = stream.send_recv(&make_scan("", 2, &last_key)).expect("SCAN page 2");
    assert_eq!(resp[0], RESP_OK);
    let count = u16::from_be_bytes([resp[1], resp[2]]) as usize;
    assert_eq!(count, 2);
    assert_eq!(resp[resp.len() - 1], 0x01); // more

    // Get last key as cursor.
    pos = 3;
    for _ in 0..2 {
        let kl = u16::from_be_bytes([resp[pos], resp[pos + 1]]) as usize;
        pos += 2;
        last_key = String::from_utf8(resp[pos..pos + kl].to_vec()).unwrap();
        pos += kl;
    }

    // Page 3: cursor = last key — 1 key left.
    let resp = stream.send_recv(&make_scan("", 2, &last_key)).expect("SCAN page 3");
    assert_eq!(resp[0], RESP_OK);
    let count = u16::from_be_bytes([resp[1], resp[2]]) as usize;
    assert_eq!(count, 1);
    assert_eq!(resp[resp.len() - 1], 0x00); // no more
}

#[test]
fn uds_scan_prefix() {
    let mut stream = Connection::open();

    stream.send_recv(&make_set("apple", b"1")).expect("SET");
    stream.send_recv(&make_set("app2", b"2")).expect("SET");
    stream.send_recv(&make_set("banana", b"3")).expect("SET");

    let resp = stream.send_recv(&make_scan("app", 100, "")).expect("SCAN");
    assert_eq!(resp[0], RESP_OK);
    let count = u16::from_be_bytes([resp[1], resp[2]]) as usize;
    assert_eq!(count, 2); // "app2" and "apple"
}

#[test]
fn uds_mget_mixed() {
    let mut stream = Connection::open();

    stream.send_recv(&make_set("a", b"val_a")).expect("SET");
    stream.send_recv(&make_set("c", b"val_c")).expect("SET");

    let resp = stream.send_recv(&make_mget(&["a", "b", "c"])).expect("MGET");
    assert_eq!(resp[0], RESP_OK);
    // "a" found, "b" missing, "c" found.
    assert_eq!(resp[1], 0x01); // found
    assert_eq!(resp[6 + 5], 0x00); // not found (after "val_a")
                                   // Verify "c" found after that.
    let pos = 6 + 5 + 1;
    assert_eq!(resp[pos], 0x01); // found
}

#[test]
fn uds_mget_overflow() {
    let mut stream = Connection::open();

    // Insert 256 keys with large values to exceed 1 MiB response.
    let big_val = vec![0x41u8; 5000]; // 5 KB each
    for i in 0..256 {
        let resp =
            stream.send_recv(&make_set(&format!("k{i:03}"), &big_val)).expect("SET");
        assert_eq!(resp, vec![RESP_OK]);
    }

    // MGET all 256 keys — response would be ~256 * (1 + 4 + 5000) = ~1.28 MiB > 1 MiB.
    let keys: Vec<String> = (0..256).map(|i| format!("k{i:03}")).collect();
    let key_refs: Vec<&str> = keys.iter().map(|s| s.as_str()).collect();
    let resp = stream.send_recv(&make_mget(&key_refs)).expect("MGET");
    assert_eq!(resp, vec![RESP_ERROR]); // overflow → ERROR
}

#[test]
fn uds_ttl_roundtrip() {
    let mut stream = Connection::open();

    // SET a permanent key, then TTL → permanent.
    stream.send_recv(&make_set("perm", b"v")).expect("SET");
    let resp = stream.send_recv(&make_ttl("perm")).expect("TTL perm");
    assert_eq!(resp[0], RESP_OK);
    assert_eq!(resp[1], 0x00); // permanent
    assert_eq!(resp.len(), 2);

    // SETX with TTL, then TTL → has remaining ms.
    stream.send_recv(&make_setx("temp", b"v", 3_600_000)).expect("SETX");
    let resp = stream.send_recv(&make_ttl("temp")).expect("TTL temp");
    assert_eq!(resp[0], RESP_OK);
    assert_eq!(resp[1], 0x01); // has TTL
    assert_eq!(resp.len(), 10);
    let remaining = u64::from_be_bytes([
        resp[2], resp[3], resp[4], resp[5], resp[6], resp[7], resp[8], resp[9],
    ]);
    assert!(remaining > 3_500_000 && remaining <= 3_600_000);

    // TTL on missing key → NOT_FOUND.
    let resp = stream.send_recv(&make_ttl("missing")).expect("TTL missing");
    assert_eq!(resp, vec![RESP_NOT_FOUND]);
}
