//! What holds across operations, on concrete values.
use kvr::clock::timestamp_ms;
use kvr::protocol::{
    dispatch_at, plan, read_frame, serve_shared, write_frame, FrameError, Plan, MAX_FRAME_SIZE,
    RESP_ERROR, RESP_NOT_FOUND, RESP_OK,
};
use kvr::request::{encode_request, make_get, make_ping, make_set, parse_request, Request};
use kvr::store::{hash_key, SHARDS};
use kvr::{now_ms, Entry, ShardedKV, TtlInfo};

fn key(s: &str) -> String {
    s.to_string()
}

#[test]
fn quick_start() {
    let mut store = ShardedKV::default();
    assert!(store.set("key", b"value".to_vec()));
    assert_eq!(store.get("key"), Some(b"value".to_vec()));
    assert!(store.set_with_ttl("temp", b"ephemeral".to_vec(), 3_600_000));
    assert_eq!(store.get("temp"), Some(b"ephemeral".to_vec()));
}

#[test]
fn set_is_read_back_at_any_time() {
    let mut store = ShardedKV::new();
    store.set_with_ttl_at("k", b"old".to_vec(), 5, 100);
    store.set("other", b"o".to_vec());
    store.set("k", b"new".to_vec());
    for now in [0, 104, 105, u64::MAX] {
        assert_eq!(store.get_at("k", now), Some(b"new".to_vec()));
        assert_eq!(store.ttl_at("k", now), Some(TtlInfo::Permanent));
        assert_eq!(store.get_at("other", now), Some(b"o".to_vec()));
    }
}

#[test]
fn ttl_lasts_until_its_deadline() {
    let mut store = ShardedKV::new();
    assert!(store.set_with_ttl_at("k", b"v".to_vec(), 50, 1_000));
    assert_eq!(store.get_at("k", 1_049), Some(b"v".to_vec()));
    assert_eq!(store.ttl_at("k", 1_049), Some(TtlInfo::RemainingMs(1)));
    assert!(store.contains_at("k", 1_049));
    assert_eq!(store.len_active_at(1_049), 1);
    assert_eq!(store.len_active_at(1_050), 0);
    assert_eq!(store.ttl_at("k", 1_050), None);
    assert_eq!(store.len(), 0);
}

#[test]
fn ttl_saturates_at_the_last_timestamp() {
    let mut store = ShardedKV::new();
    assert!(store.set_with_ttl_at("k", b"v".to_vec(), u64::MAX, 1_000));
    assert_eq!(store.get_at("k", u64::MAX - 1), Some(b"v".to_vec()));
    assert_eq!(store.get_at("k", u64::MAX), None);
}

#[test]
fn entries_expire_at_their_timestamp() {
    assert!(!Entry::new(b"v".to_vec()).is_expired(u64::MAX));
    let entry = Entry::with_expiry(b"v".to_vec(), 10);
    assert_eq!((entry.is_expired(9), entry.is_expired(10)), (false, true));
}

#[test]
fn timestamps_stand_for_readings() {
    assert_eq!(timestamp_ms(None), 0);
    assert_eq!(timestamp_ms(Some(1_700_000_000_000)), 1_700_000_000_000);
    assert_eq!(timestamp_ms(Some((1 << 64) + 5)), 5);
    // The clock stands after the start of 2020.
    assert!(now_ms() > 1_577_836_800_000);
}

#[test]
fn keys_spread_over_shards() {
    let mut used = vec![false; SHARDS];
    for i in 0..1_000 {
        used[hash_key(&format!("key-{i:05}"))] = true;
    }
    assert!(used.iter().all(|u| *u));
}

#[test]
fn del_leaves_other_keys() {
    let mut store = ShardedKV::new();
    store.set("a", b"1".to_vec());
    store.set("b", b"2".to_vec());
    assert_eq!(store.del_at("a", 7), Some(b"1".to_vec()));
    assert_eq!(store.get_at("a", 7), None);
    assert_eq!(store.get_at("b", 7), Some(b"2".to_vec()));
}

#[test]
fn removing_expired_entries_frees_their_places() {
    let mut store = ShardedKV::with_max_entries(3);
    store.set_with_ttl_at("a", b"1".to_vec(), 10, 0);
    store.set_with_ttl_at("b", b"2".to_vec(), 20, 0);
    store.set("c", b"3".to_vec());
    assert!(!store.set("d", b"4".to_vec()));
    assert_eq!(store.sweep_expired_at(10), 1);
    assert_eq!(store.len(), 2);
    assert!(store.set("d", b"4".to_vec()));
    assert_eq!(store.get_at("b", 19), Some(b"2".to_vec()));
    assert_eq!(store.get_at("b", 20), None);
    assert_eq!(store.len(), 2);
}

#[test]
fn snapshots_leave_out_expired_entries() {
    let mut store = ShardedKV::new();
    store.set_with_ttl_at("gone", b"1".to_vec(), 10, 0);
    store.set_with_ttl_at("kept", b"2".to_vec(), 20, 0);
    assert_eq!(
        store.collect_for_snapshot_at(10),
        vec![(key("kept"), b"2".to_vec(), Some(20))]
    );
    assert_eq!(store.len(), 2);
}

#[test]
fn bound_is_kept_through_any_requests() {
    let mut store = ShardedKV::with_max_entries(4);
    for round in 0u64..40 {
        for i in 0..7 {
            let name = format!("k{}", (round + i) % 9);
            let request = match (round + i) % 4 {
                0 => Request::Del { key: name },
                1 => Request::PutTtl { key: name, value: vec![1], ttl_ms: 3 },
                _ => Request::Put { key: name, value: vec![2] },
            };
            dispatch_at(&encode_request(&request), &mut store, None, round);
            assert!(store.len() <= 4);
        }
    }
    assert_eq!(store.len(), 4);
}

#[test]
fn as_many_new_keys_as_fit_are_accepted() {
    for (max, n) in [(5usize, 3u64), (5, 5), (5, 9), (1, 2), (50, 800)] {
        let mut store = ShardedKV::with_max_entries(max);
        let mut accepted: u64 = 0;
        for i in 0..n {
            // Any order of the keys will do.
            if store.set(&format!("k{}", (i * 7 + 3) % 1_009), vec![]) {
                accepted += 1;
            }
            assert!(store.len() <= max as u64);
        }
        assert_eq!(accepted, n.min(max as u64));
        assert_eq!(store.len(), accepted);
    }
}

#[test]
fn pages_cover_all_keys_once() {
    let mut store = ShardedKV::new();
    let mut names: Vec<String> = (0..40).map(|i| format!("k{}", i * 37 % 101)).collect();
    names.push(key("k\u{e9}"));
    for name in &names {
        store.set(name, vec![]);
    }
    store.set("", vec![]);
    store.set("z", vec![]);
    store.set_with_ttl_at("k_gone", vec![], 5, 0);
    names.sort();
    for limit in [1usize, 2, 7, 1_000] {
        let mut seen: Vec<String> = Vec::new();
        let mut cursor = String::new();
        loop {
            let (page, more) = store.scan_at("k", limit, &cursor, 5);
            seen.extend(page);
            if !more {
                break;
            }
            cursor = seen.last().expect("page").clone();
        }
        assert_eq!(seen, names);
    }
}

#[test]
fn pages_of_different_sizes_join() {
    let mut store = ShardedKV::new();
    for i in 0..30 {
        store.set(&format!("k{i:02}"), vec![]);
    }
    store.set_with_ttl_at("k05x", vec![], 5, 0);
    let (whole, more) = store.scan_at("k", 12, "k03", 5);
    for first_limit in 1..12 {
        // An expired entry is added and time passes in between: the live keys are the same.
        let (mut joined, _) = store.scan_at("k", first_limit, "k03", 7);
        store.set_with_ttl_at("k20x", vec![], 1, 8);
        let cursor = joined.last().expect("page").clone();
        let (next, next_more) = store.scan_at("k", 12 - first_limit, &cursor, 9);
        joined.extend(next);
        assert_eq!((joined, next_more), (whole.clone(), more));
    }
}

#[test]
fn mget_answers_as_gets_do() {
    let mut store = ShardedKV::new();
    store.set("a", b"1".to_vec());
    store.set_with_ttl_at("b", b"2".to_vec(), 5, 0);
    let keys = vec![key("b"), key("a"), key("b"), key("c"), key("a")];
    let values = store.mget_at(&keys, 5);
    assert_eq!(
        values,
        vec![None, Some(b"1".to_vec()), None, None, Some(b"1".to_vec())]
    );
    assert_eq!(store.len(), 1);
}

#[test]
fn requests_are_read_back() {
    let requests = vec![
        Request::Put { key: key("k"), value: b"v".to_vec() },
        Request::Get { key: key("\u{e9}") },
        Request::Del { key: key("") },
        Request::Ping,
        Request::Exists { key: key("k") },
        Request::PutTtl { key: key("k"), value: vec![], ttl_ms: u64::MAX },
        Request::Scan { prefix: key("p"), limit: 513, cursor: key("pq") },
        Request::Mget { keys: vec![key("a"), key(""), key("a")] },
        Request::Save,
        Request::Ttl { key: key("k") },
    ];
    for request in &requests {
        let frame = encode_request(request);
        let read = parse_request(&frame).expect("valid");
        assert_eq!(format!("{read:?}"), format!("{request:?}"));
        for cut in 0..frame.len() {
            assert!(parse_request(&frame[..cut]).is_none());
        }
        let mut longer = frame.clone();
        longer.push(0);
        assert!(parse_request(&longer).is_none());
    }
}

#[test]
fn request_bytes_are_as_documented() {
    assert_eq!(make_set("k", b"ab"), [0, 0, 1, b'k', 0, 0, 0, 2, b'a', b'b']);
    assert_eq!(make_get("hi"), [1, 0, 2, b'h', b'i']);
    assert_eq!(make_ping(), [3]);
    assert_eq!(
        encode_request(&Request::PutTtl { key: key("k"), value: vec![7], ttl_ms: 258 }),
        [5, 0, 1, b'k', 0, 0, 0, 1, 7, 0, 0, 0, 0, 0, 0, 1, 2]
    );
    assert_eq!(
        encode_request(&Request::Scan { prefix: key("p"), limit: 258, cursor: key("c") }),
        [6, 0, 1, b'p', 1, 2, 0, 1, b'c']
    );
    assert_eq!(
        encode_request(&Request::Mget { keys: vec![key("a"), key("b")] }),
        [7, 0, 2, 0, 1, b'a', 0, 1, b'b']
    );
}

#[test]
fn frames_are_read_back() {
    let mut stream = Vec::new();
    write_frame(&mut stream, b"one").expect("fits");
    write_frame(&mut stream, b"").expect("fits");
    assert_eq!(stream, [0, 0, 0, 3, b'o', b'n', b'e', 0, 0, 0, 0]);
    assert_eq!(read_frame(&stream), Ok((b"one".to_vec(), 7)));
    assert_eq!(read_frame(&stream[7..]), Ok((vec![], 4)));
    assert_eq!(read_frame(&stream[..6]), Err(FrameError::UnexpectedEof));
    assert_eq!(read_frame(&[0, 0, 0]), Err(FrameError::UnexpectedEof));
}

#[test]
fn oversized_frames_are_refused() {
    let mut stream = vec![9];
    let len = MAX_FRAME_SIZE + 1;
    assert_eq!(
        write_frame(&mut stream, &vec![0; len]),
        Err(FrameError::Oversized { len })
    );
    assert_eq!(stream, [9]);
    assert_eq!(write_frame(&mut stream, &vec![0; len - 1]), Ok(()));
    assert_eq!(
        read_frame(&[0, 0x10, 0, 1, 0]),
        Err(FrameError::Oversized { len })
    );
}

#[test]
fn reads_are_served_without_a_change() {
    let mut store = ShardedKV::new();
    store.set("k", b"v".to_vec());
    store.set_with_ttl_at("t", b"w".to_vec(), 10, 0);
    let get = |name: &str| Request::Get { key: key(name) };
    assert_eq!(
        serve_shared(&get("k"), &store, 10),
        Some(vec![RESP_OK, 0, 0, 0, 1, b'v'])
    );
    assert_eq!(
        serve_shared(&get("none"), &store, 10),
        Some(vec![RESP_NOT_FOUND])
    );
    assert_eq!(serve_shared(&get("t"), &store, 10), None);
    assert_eq!(
        serve_shared(&Request::Exists { key: key("t") }, &store, 9),
        Some(vec![RESP_OK])
    );
    let mget = Request::Mget { keys: vec![key("k"), key("none"), key("t")] };
    assert_eq!(
        serve_shared(&mget, &store, 9),
        Some(vec![RESP_OK, 1, 0, 0, 0, 1, b'v', 0, 1, 0, 0, 0, 1, b'w'])
    );
    assert_eq!(serve_shared(&mget, &store, 10), None);
    let scan = |limit| Request::Scan { prefix: key(""), limit, cursor: key("") };
    assert_eq!(
        serve_shared(&scan(1), &store, 9),
        Some(vec![RESP_OK, 0, 1, 0, 1, b'k', 1])
    );
    assert_eq!(serve_shared(&scan(1), &store, 10), None);
    assert_eq!(
        serve_shared(&scan(0), &store, 10),
        Some(vec![RESP_OK, 0, 0, 0])
    );
    assert_eq!((store.has_expired(9), store.has_expired(10)), (false, true));
    assert_eq!(
        serve_shared(&Request::Ttl { key: key("t") }, &store, 9),
        Some(vec![RESP_OK, 1, 0, 0, 0, 0, 0, 0, 0, 1])
    );
    assert_eq!(serve_shared(&Request::Ping, &store, 9), Some(vec![RESP_OK]));
    assert_eq!(serve_shared(&Request::Save, &store, 9), None);
    assert_eq!(
        serve_shared(&Request::Del { key: key("k") }, &store, 9),
        None
    );
}

#[test]
fn malformed_frames_change_nothing() {
    let mut store = ShardedKV::new();
    store.set_with_ttl_at("k", b"v".to_vec(), 5, 0);
    let mut frame = make_get("k");
    frame.push(1);
    assert_eq!(dispatch_at(&frame, &mut store, None, 9), vec![RESP_ERROR]);
    assert_eq!(store.len(), 1);
    assert_eq!(
        dispatch_at(&make_get("k"), &mut store, None, 9),
        vec![RESP_NOT_FOUND]
    );
    assert_eq!(store.len(), 0);
}

#[test]
fn example_flow() {
    let mut store = ShardedKV::new();
    let mut send = |request: Request| dispatch_at(&encode_request(&request), &mut store, None, 500);
    assert_eq!(send(Request::Ping), [0x10]);
    let (hello, world) = (key("hello"), b"world".to_vec());
    assert_eq!(send(Request::Put { key: hello.clone(), value: world }), [0x10]);
    assert_eq!(
        send(Request::Get { key: hello.clone() }),
        [0x10, 0x00, 0x00, 0x00, 0x05, 0x77, 0x6F, 0x72, 0x6C, 0x64]
    );
    assert_eq!(send(Request::Exists { key: hello.clone() }), [0x10]);
    assert_eq!(send(Request::Get { key: key("missing") }), [0x12]);
    assert_eq!(send(Request::Del { key: hello.clone() }), [0x11]);
    let setx = Request::PutTtl {
        key: key("temp"),
        value: b"ephemeral".to_vec(),
        ttl_ms: 3_600_000,
    };
    assert_eq!(send(setx), [0x10]);
    assert_eq!(
        send(Request::Ttl { key: key("temp") }),
        [0x10, 0x01, 0x00, 0x00, 0x00, 0x00, 0x00, 0x36, 0xEE, 0x80]
    );
    assert_eq!(send(Request::Ttl { key: hello }), [0x12]);
    let permanent = key("permanent-key");
    send(Request::Put { key: permanent.clone(), value: vec![] });
    assert_eq!(send(Request::Ttl { key: permanent }), [0x10, 0x00]);
}

#[test]
fn count_follows_writes_and_removals() {
    let mut store = ShardedKV::with_max_entries(2);
    store.set("a", b"1".to_vec());
    assert_eq!(store.len(), 1);
    store.set("a", b"2".to_vec());
    assert_eq!(store.len(), 1);
    store.set_with_ttl_at("b", b"3".to_vec(), 5, 0);
    assert_eq!(store.len(), 2);
    assert!(!store.set("c", b"4".to_vec()));
    assert_eq!(store.len(), 2);
    // An expired entry counts until it is removed, and so does its overwriting.
    assert!(store.set("b", b"5".to_vec()));
    assert_eq!(store.len(), 2);
    store.del_at("b", 9);
    store.del_at("b", 9);
    assert_eq!(store.len(), 1);
    assert!(!store.is_empty());
}

#[test]
fn a_second_sweep_finds_nothing() {
    let mut store = ShardedKV::new();
    for i in 0..20u64 {
        store.set_with_ttl_at(&format!("k{i}"), vec![], i + 1, 0);
    }
    assert_eq!(store.sweep_expired_at(10), 10);
    assert_eq!(store.sweep_expired_at(10), 0);
    assert_eq!(store.len(), 10);
    assert_eq!(store.len_active_at(10), 10);
}

#[test]
fn frames_are_answered_as_planned() {
    let planned = |frame: &[u8], can_save: bool| match plan(frame, can_save) {
        Plan::Reply(bytes) => format!("reply {bytes:?}"),
        Plan::Save => key("save"),
        Plan::Serve(request) => format!("serve {request:?}"),
    };
    assert_eq!(planned(&[], true), "reply [255]");
    assert_eq!(planned(&[3], false), "serve Ping");
    assert_eq!(planned(&[8], true), "save");
    assert_eq!(planned(&[8], false), "reply [255]");
    assert_eq!(planned(&[8, 0], true), "reply [255]");
}
