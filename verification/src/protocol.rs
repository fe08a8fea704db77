//! The wire protocol: frames, responses, and how a request is served.
use crate::bytes::{
    be16, be32, be64, copy_bytes, from_be32, lemma_be16, lemma_be32, lemma_be64, push_u16, push_u64,
    read_u32,
};
use crate::clock::now_ms;
use crate::entry::{EntryView, TtlInfo};
use crate::fields::{
    blob_field, lemma_blob_len, lemma_blob_unique, lemma_stands_concat, lemma_stands_whole,
    lemma_text_len, push_blob, push_text, stands_at, text_fits,
};
use crate::model::StoreView;
use crate::request::{
    law_encoding_unambiguous, lemma_texts_unique, malformed, parse_request, text_fields, texts_fit,
    Request, RequestView,
};
use crate::sort::key_views;
use crate::store::{value_view, value_views, Lookup, ShardedKV};
use vstd::prelude::*;
use vstd::slice::slice_subrange;

pub use crate::request::{
    MGET_LIMIT_CAP, OP_DEL, OP_EXISTS, OP_GET, OP_MGET, OP_PING, OP_SAVE, OP_SCAN, OP_SET, OP_SETX,
    OP_TTL,
};

verus! {

/// The largest payload of a frame in bytes (1 MiB).
pub const MAX_FRAME_SIZE: usize = 1_048_576;

/// Status byte: done, found.
pub const RESP_OK: u8 = 0x10;

/// Status byte: a key was removed.
pub const RESP_DELETED: u8 = 0x11;

/// Status byte: a key has no value.
pub const RESP_NOT_FOUND: u8 = 0x12;

/// Status byte: a write was refused because the store is full.
pub const RESP_STORE_FULL: u8 = 0x13;

/// Status byte: the request was malformed, or it could not be served.
pub const RESP_ERROR: u8 = 0xFF;

/// The largest number of keys that one SCAN request returns.
pub const SCAN_LIMIT_CAP: usize = 1024;

/// Why a frame could not be written or read.
#[derive(Debug, Clone, Copy, PartialEq, Eq, Structural)]
pub enum FrameError {
    /// The payload is longer than a frame may be.
    Oversized { len: usize },
    /// The input ends before the frame does.
    UnexpectedEof,
}

/// The length that the first bytes of a frame announce.
pub open spec fn announced_len(input: Seq<u8>) -> nat {
    from_be32(input.subrange(0, 4))
}

/// What reading one frame from the start of `input` gives: its payload and the number of bytes
/// that it takes up.
pub open spec fn first_frame(input: Seq<u8>) -> Result<(Seq<u8>, nat), FrameError> {
    if input.len() < 4 {
        Err(FrameError::UnexpectedEof)
    } else if announced_len(input) > MAX_FRAME_SIZE {
        Err(FrameError::Oversized { len: announced_len(input) as usize })
    } else if input.len() < 4 + announced_len(input) {
        Err(FrameError::UnexpectedEof)
    } else {
        Ok((input.subrange(4, 4int + announced_len(input)), 4 + announced_len(input)))
    }
}

/// Appends a frame to `writer`: the length of the payload in four bytes, then the payload. A
/// payload that is too long is refused, and nothing is written.
pub fn write_frame(writer: &mut Vec<u8>, payload: &[u8]) -> (written: Result<(), FrameError>)
    ensures
        match written {
            Ok(()) => payload@.len() <= MAX_FRAME_SIZE && final(writer)@ == old(writer)@
                + blob_field(payload@),
            Err(e) => payload@.len() > MAX_FRAME_SIZE && e == (FrameError::Oversized {
                len: payload@.len() as usize,
            }) && final(writer)@ == old(writer)@,
        },
{
    if payload.len() > MAX_FRAME_SIZE {
        return Err(FrameError::Oversized { len: payload.len() });
    }
    push_blob(writer, payload);
    Ok(())
}

/// Reads the length of a frame's payload from its first four bytes.
pub fn frame_length(header: &[u8]) -> (len: Result<usize, FrameError>)
    requires
        header@.len() >= 4,
    ensures
        match len {
            Ok(len) => len == announced_len(header@) && len <= MAX_FRAME_SIZE,
            Err(e) => announced_len(header@) > MAX_FRAME_SIZE && e == (FrameError::Oversized {
                len: announced_len(header@) as usize,
            }),
        },
{
    let len: u32 = read_u32(header, 0);
    if len > MAX_FRAME_SIZE as u32 {
        return Err(FrameError::Oversized { len: len as usize });
    }
    Ok(len as usize)
}

/// Reads one frame from the start of `input`. Returns its payload and the number of bytes that it
/// takes up.
pub fn read_frame(input: &[u8]) -> (frame: Result<(Vec<u8>, usize), FrameError>)
    ensures
        match frame {
            Ok((payload, used)) => first_frame(input@) == Ok::<(Seq<u8>, nat), FrameError>(
                (payload@, used as nat),
            ),
            Err(e) => first_frame(input@) == Err::<(Seq<u8>, nat), FrameError>(e),
        },
{
    if input.len() < 4 {
        return Err(FrameError::UnexpectedEof);
    }
    match frame_length(input) {
        Ok(len) => {
            if input.len() - 4 < len {
                return Err(FrameError::UnexpectedEof);
            }
            let payload = copy_bytes(slice_subrange(input, 4, 4 + len));
            Ok((payload, 4 + len))
        },
        Err(e) => Err(e),
    }
}

/// What was written as a frame is read back, whatever follows it.
pub proof fn law_frame_roundtrip(payload: Seq<u8>, rest: Seq<u8>)
    requires
        payload.len() <= MAX_FRAME_SIZE,
    ensures
        first_frame(blob_field(payload) + rest) == Ok::<(Seq<u8>, nat), FrameError>(
            (payload, blob_field(payload).len()),
        ),
{
    let input = blob_field(payload) + rest;
    lemma_be32(payload.len(), be32(payload.len()));
    assert(input.subrange(0, 4) =~= be32(payload.len()));
    assert(input.subrange(4, 4int + payload.len()) =~= payload);
}

/// The response that is one status byte.
pub open spec fn status(byte: u8) -> Seq<u8> {
    seq![byte]
}

/// A response, or the error status where the response is too long for a frame.
pub open spec fn fitted(response: Seq<u8>) -> Seq<u8> {
    if response.len() <= MAX_FRAME_SIZE {
        response
    } else {
        status(RESP_ERROR)
    }
}

/// The response to a read of one key: the status, then the value as a blob field.
pub open spec fn get_response(value: Option<Seq<u8>>) -> Seq<u8> {
    match value {
        Some(value) => fitted(seq![RESP_OK] + blob_field(value)),
        None => status(RESP_NOT_FOUND),
    }
}

/// The part of an MGET response for one key: 1 and the value as a blob field, or 0.
pub open spec fn mget_item(value: Option<Seq<u8>>) -> Seq<u8> {
    match value {
        Some(value) => seq![1u8] + blob_field(value),
        None => seq![0u8],
    }
}

/// The parts of an MGET response, one after the other.
pub open spec fn mget_items(values: Seq<Option<Seq<u8>>>) -> Seq<u8>
    decreases values.len(),
{
    if values.len() == 0 {
        seq![]
    } else {
        mget_items(values.drop_last()) + mget_item(values.last())
    }
}

/// The response to a read of several keys.
pub open spec fn mget_response(values: Seq<Option<Seq<u8>>>) -> Seq<u8> {
    fitted(seq![RESP_OK] + mget_items(values))
}

/// The response to a scan: the status, the number of keys, the keys as text fields, and 1 if
/// there are more keys, else 0. A key that is too long for a text field makes it an error.
pub open spec fn scan_response(keys: Seq<Seq<char>>, more: bool) -> Seq<u8> {
    if texts_fit(keys) {
        fitted(
            seq![RESP_OK] + be16(keys.len()) + text_fields(keys) + seq![
                if more {
                    1u8
                } else {
                    0u8
                },
            ],
        )
    } else {
        status(RESP_ERROR)
    }
}

/// The response to a TTL query: the status, then 0 for a key that does not expire, or 1 and the
/// milliseconds that are left in eight bytes.
pub open spec fn ttl_response(info: Option<TtlInfo>) -> Seq<u8> {
    match info {
        Some(TtlInfo::Permanent) => seq![RESP_OK, 0u8],
        Some(TtlInfo::RemainingMs(ms)) => seq![RESP_OK, 1u8] + be64(ms as nat),
        None => status(RESP_NOT_FOUND),
    }
}

/// The response to a SAVE request: whether the snapshot was saved.
pub open spec fn save_response(saved: bool) -> Seq<u8> {
    if saved {
        status(RESP_OK)
    } else {
        status(RESP_ERROR)
    }
}

/// The number of keys that a SCAN request can get.
pub open spec fn scan_limit(limit: u16) -> nat {
    if limit <= SCAN_LIMIT_CAP {
        limit as nat
    } else {
        SCAN_LIMIT_CAP as nat
    }
}

/// The response to a request other than SAVE.
pub open spec fn response(store: StoreView, request: RequestView, now: u64) -> Seq<u8> {
    match request {
        RequestView::Put { key, value } => status(
            if store.admits(key) {
                RESP_OK
            } else {
                RESP_STORE_FULL
            },
        ),
        RequestView::PutTtl { key, value, ttl_ms } => status(
            if store.admits(key) {
                RESP_OK
            } else {
                RESP_STORE_FULL
            },
        ),
        RequestView::Get { key } => get_response(store.value_at(key, now)),
        RequestView::Del { key } => status(
            if store.is_live(key, now) {
                RESP_DELETED
            } else {
                RESP_NOT_FOUND
            },
        ),
        RequestView::Ping => status(RESP_OK),
        RequestView::Exists { key } => status(
            if store.is_live(key, now) {
                RESP_OK
            } else {
                RESP_NOT_FOUND
            },
        ),
        RequestView::Scan { prefix, limit, cursor } => scan_response(
            store.page(prefix, scan_limit(limit), cursor, now),
            store.more(prefix, scan_limit(limit), cursor, now),
        ),
        RequestView::Mget { keys } => mget_response(
            keys.map_values(|k: Seq<char>| store.value_at(k, now)),
        ),
        RequestView::Save => status(RESP_ERROR),
        RequestView::Ttl { key } => ttl_response(store.ttl_at(key, now)),
    }
}

/// The store after a request.
pub open spec fn after(store: StoreView, request: RequestView, now: u64) -> StoreView {
    match request {
        RequestView::Put { key, value } => store.written(
            key,
            EntryView { value, expires_at: None },
        ),
        RequestView::PutTtl { key, value, ttl_ms } => store.written(
            key,
            StoreView::expiring(value, ttl_ms, now),
        ),
        RequestView::Get { key } => store.touched(key, now),
        RequestView::Del { key } => store.without(key),
        RequestView::Ping => store,
        RequestView::Exists { key } => store.touched(key, now),
        RequestView::Scan { prefix, limit, cursor } => if limit > 0 {
            store.purged(now)
        } else {
            store
        },
        RequestView::Mget { keys } => store.touched_all(keys, now),
        RequestView::Save => store,
        RequestView::Ttl { key } => store.touched(key, now),
    }
}

/// One status byte as a response.
pub fn status_response(byte: u8) -> (response: Vec<u8>)
    ensures
        response@ == status(byte),
{
    let mut out: Vec<u8> = Vec::new();
    out.push(byte);
    assert(out@ =~= status(byte));
    out
}

/// Writes the response to a read of one key.
fn respond_get(value: Option<Vec<u8>>) -> (out: Vec<u8>)
    ensures
        out@ == get_response(value_view(value)),
{
    match value {
        Some(value) => {
            proof {
                lemma_blob_len(value@);
            }
            if value.len() > MAX_FRAME_SIZE - 5 {
                return status_response(RESP_ERROR);
            }
            let mut out: Vec<u8> = Vec::with_capacity(value.len() + 5);
            out.push(RESP_OK);
            push_blob(&mut out, value.as_slice());
            assert(out@ =~= seq![RESP_OK] + blob_field(value@));
            out
        },
        None => status_response(RESP_NOT_FOUND),
    }
}

/// The first parts of an MGET response are no longer than all of them.
proof fn lemma_items_prefix(values: Seq<Option<Seq<u8>>>, n: int)
    requires
        0 <= n <= values.len(),
    ensures
        mget_items(values.take(n)).len() <= mget_items(values).len(),
    decreases values.len(),
{
    if n == values.len() {
        assert(values.take(n) =~= values);
    } else {
        lemma_items_prefix(values.drop_last(), n);
        assert(values.drop_last().take(n) =~= values.take(n));
    }
}

/// Writes the response to a read of several keys.
fn respond_mget(values: Vec<Option<Vec<u8>>>) -> (out: Vec<u8>)
    ensures
        out@ == mget_response(value_views(values@)),
{
    let ghost all = value_views(values@);
    let mut out: Vec<u8> = Vec::new();
    out.push(RESP_OK);
    assert(all.take(0) =~= Seq::<Option<Seq<u8>>>::empty());
    assert(out@ =~= seq![RESP_OK] + mget_items(all.take(0)));
    let mut i: usize = 0;
    while i < values.len()
        invariant
            i <= values@.len(),
            all == value_views(values@),
            out@ == seq![RESP_OK] + mget_items(all.take(i as int)),
            out@.len() <= MAX_FRAME_SIZE,
        decreases values@.len() - i,
    {
        let ghost before = out@;
        let ghost next = all.take(i + 1);
        proof {
            assert(next.drop_last() =~= all.take(i as int));
            assert(next.last() == value_view(values@[i as int]));
            lemma_items_prefix(all, i + 1);
        }
        match &values[i] {
            Some(value) => {
                proof {
                    lemma_blob_len(value@);
                }
                let room: usize = MAX_FRAME_SIZE - out.len();
                if room < 5 || room - 5 < value.len() {
                    return status_response(RESP_ERROR);
                }
                out.push(1);
                push_blob(&mut out, value.as_slice());
            },
            None => {
                if out.len() == MAX_FRAME_SIZE {
                    return status_response(RESP_ERROR);
                }
                out.push(0);
            },
        }
        assert(out@ =~= before + mget_item(next.last()));
        assert(out@ =~= seq![RESP_OK] + mget_items(next));
        i += 1;
    }
    assert(all.take(i as int) =~= all);
    out
}

/// The first text fields are no longer than all of them.
proof fn lemma_text_fields_prefix(texts: Seq<Seq<char>>, n: int)
    requires
        0 <= n <= texts.len(),
    ensures
        text_fields(texts.take(n)).len() <= text_fields(texts).len(),
    decreases texts.len(),
{
    if n == texts.len() {
        assert(texts.take(n) =~= texts);
    } else {
        lemma_text_fields_prefix(texts.drop_last(), n);
        assert(texts.drop_last().take(n) =~= texts.take(n));
    }
}

/// Writes the response to a scan.
fn respond_scan(keys: Vec<String>, more: bool) -> (out: Vec<u8>)
    requires
        keys@.len() <= SCAN_LIMIT_CAP,
    ensures
        out@ == scan_response(key_views(keys@), more),
{
    let ghost all = key_views(keys@);
    let ghost head = seq![RESP_OK] + be16(all.len());
    let mut out: Vec<u8> = Vec::new();
    out.push(RESP_OK);
    push_u16(&mut out, keys.len() as u16);
    proof {
        lemma_be16(all.len(), be16(0));
        assert(all.take(0) =~= Seq::<Seq<char>>::empty());
        assert(out@ =~= head + text_fields(all.take(0)));
    }
    let mut i: usize = 0;
    while i < keys.len()
        invariant
            i <= keys@.len(),
            all == key_views(keys@),
            head == seq![RESP_OK] + be16(all.len()),
            out@ == head + text_fields(all.take(i as int)),
            forall|j: int| 0 <= j < i ==> text_fits(#[trigger] all[j]),
            out@.len() < MAX_FRAME_SIZE,
        decreases keys@.len() - i,
    {
        let ghost next = all.take(i + 1);
        proof {
            assert(next.drop_last() =~= all.take(i as int));
            assert(next.last() == all[i as int]);
            lemma_text_fields_prefix(all, i + 1);
            lemma_text_len(all[i as int]);
        }
        let key = keys[i].as_str();
        let len: usize = key.as_bytes().len();
        if len > u16::MAX as usize {
            return status_response(RESP_ERROR);
        }
        if MAX_FRAME_SIZE - out.len() <= len + 2 {
            return status_response(RESP_ERROR);
        }
        push_text(&mut out, key);
        assert(out@ =~= head + text_fields(next));
        i += 1;
    }
    assert(all.take(i as int) =~= all);
    out.push(
        if more {
            1
        } else {
            0
        },
    );
    out
}

/// Writes the response to a TTL query.
fn respond_ttl(info: Option<TtlInfo>) -> (out: Vec<u8>)
    ensures
        out@ == ttl_response(info),
{
    match info {
        Some(TtlInfo::Permanent) => {
            let mut out = status_response(RESP_OK);
            out.push(0);
            assert(out@ =~= ttl_response(info));
            out
        },
        Some(TtlInfo::RemainingMs(ms)) => {
            let mut out = status_response(RESP_OK);
            out.push(1);
            push_u64(&mut out, ms);
            assert(out@ =~= ttl_response(info));
            out
        },
        None => status_response(RESP_NOT_FOUND),
    }
}

/// Writes the response to a SAVE request.
pub fn respond_save(saved: bool) -> (out: Vec<u8>)
    ensures
        out@ == save_response(saved),
{
    status_response(
        if saved {
            RESP_OK
        } else {
            RESP_ERROR
        },
    )
}

/// Serves a request other than SAVE at the time `now`.
pub fn serve(request: Request, store: &mut ShardedKV, now: u64) -> (out: Vec<u8>)
    requires
        old(store).wf(),
        request@.valid(),
        !(request@ is Save),
    ensures
        final(store).wf(),
        out@ == response(old(store)@, request@, now),
        final(store)@ == after(old(store)@, request@, now),
{
    match request {
        Request::Put { key, value } => {
            let done = store.set(key.as_str(), value);
            status_response(
                if done {
                    RESP_OK
                } else {
                    RESP_STORE_FULL
                },
            )
        },
        Request::PutTtl { key, value, ttl_ms } => {
            let done = store.set_with_ttl_at(key.as_str(), value, ttl_ms, now);
            status_response(
                if done {
                    RESP_OK
                } else {
                    RESP_STORE_FULL
                },
            )
        },
        Request::Get { key } => respond_get(store.get_at(key.as_str(), now)),
        Request::Del { key } => {
            let value = store.del_at(key.as_str(), now);
            status_response(
                if value.is_some() {
                    RESP_DELETED
                } else {
                    RESP_NOT_FOUND
                },
            )
        },
        Request::Ping => status_response(RESP_OK),
        Request::Exists { key } => {
            let yes = store.contains_at(key.as_str(), now);
            status_response(
                if yes {
                    RESP_OK
                } else {
                    RESP_NOT_FOUND
                },
            )
        },
        Request::Scan { prefix, limit, cursor } => {
            let capped: usize = capped_limit(limit);
            let (keys, more) = store.scan_at(prefix.as_str(), capped, cursor.as_str(), now);
            assert(key_views(keys@).len() == keys@.len());
            respond_scan(keys, more)
        },
        Request::Mget { keys } => respond_mget(store.mget_at(keys.as_slice(), now)),
        Request::Save => status_response(RESP_ERROR),
        Request::Ttl { key } => respond_ttl(store.ttl_at(key.as_str(), now)),
    }
}

/// Whether a request can be answered by reading alone: PING, a read of keys none of which has an
/// expired entry, and a scan that finds no expired entry or is asked for no keys.
pub open spec fn read_only(store: StoreView, request: RequestView, now: u64) -> bool {
    match request {
        RequestView::Ping => true,
        RequestView::Get { key } => !store.is_stale(key, now),
        RequestView::Exists { key } => !store.is_stale(key, now),
        RequestView::Ttl { key } => !store.is_stale(key, now),
        RequestView::Mget { keys } => forall|i: int|
            0 <= i < keys.len() ==> !store.is_stale(#[trigger] keys[i], now),
        RequestView::Scan { prefix, limit, cursor } => limit == 0 || store.stale_keys(now) == Set::<
            Seq<char>,
        >::empty(),
        _ => false,
    }
}

/// A request that can be answered by reading alone leaves the store as it is.
proof fn lemma_read_only(store: StoreView, request: RequestView, now: u64)
    requires
        read_only(store, request, now),
    ensures
        after(store, request, now) == store,
{
    match request {
        RequestView::Mget { keys } => {
            assert(store.touched_all(keys, now).entries =~= store.entries);
        },
        RequestView::Scan { prefix, limit, cursor } => {
            if limit > 0 {
                assert(store.purged(now).entries =~= store.entries);
            }
        },
        _ => {},
    }
}

/// The number of keys that a SCAN request can get.
fn capped_limit(limit: u16) -> (capped: usize)
    ensures
        capped == scan_limit(limit),
{
    if limit as usize <= SCAN_LIMIT_CAP {
        limit as usize
    } else {
        SCAN_LIMIT_CAP
    }
}

/// Serves a request at the time `now` without a change to the store, or returns `None` where it
/// has to be served by [`serve`].
pub fn serve_shared(request: &Request, store: &ShardedKV, now: u64) -> (out: Option<Vec<u8>>)
    requires
        store.wf(),
    ensures
        out is Some <==> read_only(store@, request@, now),
        out matches Some(bytes) ==> bytes@ == response(store@, request@, now) && after(
            store@,
            request@,
            now,
        ) == store@,
{
    proof {
        if read_only(store@, request@, now) {
            lemma_read_only(store@, request@, now);
        }
    }
    match request {
        Request::Ping => Some(status_response(RESP_OK)),
        Request::Get { key } => match store.lookup(key.as_str(), now) {
            Lookup::Live(value) => Some(respond_get(Some(value))),
            Lookup::Expired => None,
            Lookup::Absent => Some(respond_get(None)),
        },
        Request::Exists { key } => match store.lookup(key.as_str(), now) {
            Lookup::Live(_) => Some(status_response(RESP_OK)),
            Lookup::Expired => None,
            Lookup::Absent => Some(status_response(RESP_NOT_FOUND)),
        },
        Request::Ttl { key } => match store.lookup(key.as_str(), now) {
            Lookup::Expired => None,
            _ => Some(respond_ttl(store.peek_ttl(key.as_str(), now))),
        },
        Request::Mget { keys } => match store.peek_mget(keys.as_slice(), now) {
            Some(values) => Some(respond_mget(values)),
            None => None,
        },
        Request::Scan { prefix, limit, cursor } => match store.peek_scan(
            prefix.as_str(),
            capped_limit(*limit),
            cursor.as_str(),
            now,
        ) {
            Some((keys, more)) => {
                assert(key_views(keys@).len() == keys@.len());
                Some(respond_scan(keys, more))
            },
            None => None,
        },
        _ => None,
    }
}

/// `std::io::Error`, carried through and never looked into.
#[verifier::external_type_specification]
#[verifier::external_body]
pub struct ExIoError(std::io::Error);

/// Saves snapshots of a store. A server that keeps snapshots implements it, and hands it to
/// [`dispatch`] to serve SAVE requests.
///
/// The saves that are made through it can be spoken of for a saver that says it is recorded. What
/// is proved of [`dispatch`] holds for every saver, so it makes the same saves through one that is
/// not.
pub trait SnapshotSaver {
    /// Whether a save of a store may succeed (`saved`) or fail. Either may happen, unless an
    /// implementation says more.
    open spec fn may_save(&self, store: StoreView, saved: bool) -> bool {
        true
    }

    /// Whether `saves` is a record of the saves that were made.
    open spec fn recorded(&self) -> bool {
        false
    }

    /// The saves that were made, in order: the store that was saved, and whether that succeeded.
    open spec fn saves(&self) -> Seq<(StoreView, bool)> {
        Seq::empty()
    }

    /// Saves a snapshot of the store.
    fn save(&mut self, store: &ShardedKV) -> (result: std::io::Result<()>)
        requires
            store.wf(),
        ensures
            old(self).may_save(store@, result is Ok),
            final(self).recorded() == old(self).recorded(),
            old(self).recorded() ==> final(self).saves() == old(self).saves().push(
                (store@, result is Ok),
            ),
    ;
}

/// How a frame is to be answered.
pub enum Plan {
    /// With this, and no change to the store.
    Reply(Vec<u8>),
    /// With what a save of the store comes to: see [`respond_save`].
    Save,
    /// With what serving the request gives: see [`serve`].
    Serve(Request),
}

/// Decides how a frame is to be answered: a malformed one with the error status, SAVE with the
/// error status too where there is nothing to save with, and a request by serving it.
pub fn plan(frame: &[u8], can_save: bool) -> (plan: Plan)
    ensures
        malformed(frame@) ==> plan is Reply,
        RequestView::Save.encodes(frame@) ==> if can_save {
            plan is Save
        } else {
            plan is Reply
        },
        forall|q: RequestView| #[trigger]
            q.encodes(frame@) && !(q is Save) ==> plan is Serve && plan->Serve_0@ == q,
        plan matches Plan::Reply(bytes) ==> bytes@ == status(RESP_ERROR),
        plan is Save ==> RequestView::Save.encodes(frame@),
        plan matches Plan::Serve(request) ==> request@.encodes(frame@) && !(request@ is Save),
{
    match parse_request(frame) {
        None => Plan::Reply(status_response(RESP_ERROR)),
        Some(request) => {
            proof {
                assert forall|q: RequestView| #[trigger] q.encodes(frame@) implies q
                    == request@ by {
                    law_encoding_unambiguous(q, request@);
                }
            }
            match request {
                Request::Save => if can_save {
                    Plan::Save
                } else {
                    Plan::Reply(respond_save(false))
                },
                _ => Plan::Serve(request),
            }
        },
    }
}

/// Serves the request in a frame at the time `now`. A malformed frame is answered with the error
/// status and changes nothing. SAVE is answered with what `snapshot` makes of the store, which is
/// saved once, and with the error status where there is none. Nothing is saved on any other frame.
pub fn dispatch_at(
    frame: &[u8],
    store: &mut ShardedKV,
    snapshot: Option<&mut dyn SnapshotSaver>,
    now: u64,
) -> (out: Vec<u8>)
    requires
        old(store).wf(),
    ensures
        final(store).wf(),
        malformed(frame@) ==> out@ == status(RESP_ERROR) && final(store)@ == old(store)@,
        forall|q: RequestView| #[trigger]
            q.encodes(frame@) && !(q is Save) ==> out@ == response(old(store)@, q, now)
                && final(store)@ == after(old(store)@, q, now),
        RequestView::Save.encodes(frame@) ==> final(store)@ == old(store)@ && match snapshot {
            Some(saver) => exists|saved: bool| #[trigger]
                saver.may_save(old(store)@, saved) && out@ == save_response(saved) && (
                saver.recorded() ==> final(saver).saves() == saver.saves().push(
                    (old(store)@, saved),
                )),
            None => out@ == save_response(false),
        },
        !RequestView::Save.encodes(frame@) ==> match snapshot {
            Some(saver) => final(saver).saves() == saver.saves(),
            None => true,
        },
        snapshot matches Some(saver) ==> final(saver).recorded() == saver.recorded(),
{
    match plan(frame, snapshot.is_some()) {
        Plan::Reply(bytes) => bytes,
        Plan::Save => match snapshot {
            Some(saver) => {
                let saved = saver.save(store).is_ok();
                proof {
                    assert(!malformed(frame@));
                    assert forall|q: RequestView| #[trigger] q.encodes(frame@) implies q is Save by {
                        law_encoding_unambiguous(q, RequestView::Save);
                    }
                }
                respond_save(saved)
            },
            None => respond_save(false),
        },
        Plan::Serve(request) => {
            proof {
                assert(!malformed(frame@));
                if RequestView::Save.encodes(frame@) {
                    law_encoding_unambiguous(request@, RequestView::Save);
                }
            }
            serve(request, store, now)
        },
    }
}

/// Serves the request in a frame now. See [`dispatch_at`].
pub fn dispatch(
    frame: &[u8],
    store: &mut ShardedKV,
    snapshot: Option<&mut dyn SnapshotSaver>,
) -> (out: Vec<u8>)
    requires
        old(store).wf(),
    ensures
        final(store).wf(),
        malformed(frame@) ==> out@ == status(RESP_ERROR) && final(store)@ == old(store)@,
        forall|q: RequestView| #[trigger]
            q.encodes(frame@) && !(q is Save) ==> exists|now: u64|
                call_ensures(now_ms, (), now)
                    && final(store)@ == #[trigger] after(old(store)@, q, now) && out@ == response(
                    old(store)@,
                    q,
                    now,
                ),
        RequestView::Save.encodes(frame@) ==> final(store)@ == old(store)@ && match snapshot {
            Some(saver) => exists|saved: bool| #[trigger]
                saver.may_save(old(store)@, saved) && out@ == save_response(saved) && (
                saver.recorded() ==> final(saver).saves() == saver.saves().push(
                    (old(store)@, saved),
                )),
            None => out@ == save_response(false),
        },
        !RequestView::Save.encodes(frame@) ==> match snapshot {
            Some(saver) => final(saver).saves() == saver.saves(),
            None => true,
        },
        snapshot matches Some(saver) ==> final(saver).recorded() == saver.recorded(),
{
    let now = now_ms();
    dispatch_at(frame, store, snapshot, now)
}

/// Every response fits a frame, so a server can always send it.
pub proof fn law_response_fits(store: StoreView, request: RequestView, now: u64)
    ensures
        response(store, request, now).len() <= MAX_FRAME_SIZE,
{
    lemma_be64(0, be64(0));
    if let RequestView::Ttl { key } = request {
        if let Some(TtlInfo::RemainingMs(ms)) = store.ttl_at(key, now) {
            lemma_be64(ms as nat, be64(0));
        }
    }
}

/// A client can tell from the response to a GET whether the key has a value, an empty one too,
/// and which.
pub proof fn law_get_response_unambiguous(a: Option<Seq<u8>>, b: Option<Seq<u8>>)
    requires
        get_response(a) == get_response(b),
        get_response(a) != status(RESP_ERROR),
    ensures
        a == b,
{
    let data = get_response(a);
    if let Some(x) = a {
        lemma_blob_len(x);
        assert(data[0] == RESP_OK);
        if let Some(y) = b {
            lemma_blob_len(y);
            lemma_stands_whole(data, data);
            lemma_stands_concat(data, 0, seq![RESP_OK], blob_field(x));
            lemma_stands_concat(data, 0, seq![RESP_OK], blob_field(y));
            lemma_blob_unique(data, 1, x, y);
        }
    } else {
        assert(data[0] == RESP_NOT_FOUND);
        if let Some(y) = b {
            lemma_blob_len(y);
            assert(get_response(b)[0] == RESP_OK);
        }
    }
}

/// A place in a byte string holds no two sequences of equally many parts of an MGET response.
proof fn lemma_items_unique(
    data: Seq<u8>,
    pos: int,
    a: Seq<Option<Seq<u8>>>,
    b: Seq<Option<Seq<u8>>>,
)
    requires
        a.len() == b.len(),
        data.len() <= u32::MAX,
        stands_at(data, pos, mget_items(a)),
        stands_at(data, pos, mget_items(b)),
    ensures
        a == b,
    decreases a.len(),
{
    if a.len() == 0 {
        assert(a =~= b);
    } else {
        let (x, y) = (a.drop_last(), b.drop_last());
        let (p, q) = (a.last(), b.last());
        lemma_stands_concat(data, pos, mget_items(x), mget_item(p));
        lemma_stands_concat(data, pos, mget_items(y), mget_item(q));
        lemma_items_unique(data, pos, x, y);
        let at = pos + mget_items(x).len();
        assert(mget_item(p)[0] == data[at]) by {
            assert(data.subrange(at, at + mget_item(p).len())[0] == data[at]);
        }
        assert(mget_item(q)[0] == data[at]) by {
            assert(data.subrange(at, at + mget_item(q).len())[0] == data[at]);
        }
        if let (Some(v), Some(w)) = (p, q) {
            lemma_blob_len(v);
            lemma_blob_len(w);
            lemma_stands_concat(data, at, seq![1u8], blob_field(v));
            lemma_stands_concat(data, at, seq![1u8], blob_field(w));
            lemma_blob_unique(data, at + 1, v, w);
        }
        assert(a =~= x.push(p));
        assert(b =~= y.push(q));
    }
}

/// A client can tell from the response to an MGET the value of each key it asked for, in the order
/// asked for.
pub proof fn law_mget_response_unambiguous(a: Seq<Option<Seq<u8>>>, b: Seq<Option<Seq<u8>>>)
    requires
        a.len() == b.len(),
        mget_response(a) == mget_response(b),
        mget_response(a) != status(RESP_ERROR),
    ensures
        a == b,
{
    let data = mget_response(a);
    lemma_stands_whole(data, data);
    lemma_stands_concat(data, 0, seq![RESP_OK], mget_items(a));
    lemma_stands_concat(data, 0, seq![RESP_OK], mget_items(b));
    lemma_items_unique(data, 1, a, b);
}

/// A client can tell from the response to a SCAN the keys of the page, in order, and whether there
/// are more.
#[verifier::spinoff_prover]
pub proof fn law_scan_response_unambiguous(
    a: Seq<Seq<char>>,
    more_a: bool,
    b: Seq<Seq<char>>,
    more_b: bool,
)
    requires
        a.len() <= SCAN_LIMIT_CAP,
        b.len() <= SCAN_LIMIT_CAP,
        scan_response(a, more_a) == scan_response(b, more_b),
        scan_response(a, more_a) != status(RESP_ERROR),
    ensures
        a == b,
        more_a == more_b,
{
    let data = scan_response(a, more_a);
    lemma_scan_parts(a, more_a);
    lemma_scan_parts(b, more_b);
    lemma_same_keys(data, a, b);
}

/// A SCAN response begins with no two different counts and keys.
#[verifier::spinoff_prover]
proof fn lemma_same_keys(data: Seq<u8>, a: Seq<Seq<char>>, b: Seq<Seq<char>>)
    requires
        a.len() <= SCAN_LIMIT_CAP,
        b.len() <= SCAN_LIMIT_CAP,
        texts_fit(a),
        texts_fit(b),
        stands_at(data, 1, be16(a.len())),
        stands_at(data, 1, be16(b.len())),
        stands_at(data, 3, text_fields(a)),
        stands_at(data, 3, text_fields(b)),
    ensures
        a == b,
{
    assert(a.len() == b.len()) by {
        lemma_be16(a.len(), be16(a.len()));
        lemma_be16(b.len(), be16(b.len()));
    }
    lemma_texts_unique(data, 3, a, b);
}

/// Where the parts of a SCAN response stand.
#[verifier::spinoff_prover]
proof fn lemma_scan_parts(keys: Seq<Seq<char>>, more: bool)
    ensures
        scan_response(keys, more) != status(RESP_ERROR) ==> ({
            let data = scan_response(keys, more);
            &&& texts_fit(keys)
            &&& stands_at(data, 1, be16(keys.len()))
            &&& stands_at(data, 3, text_fields(keys))
            &&& data.last() == if more {
                1u8
            } else {
                0u8
            }
        }),
{
    let data = scan_response(keys, more);
    if data != status(RESP_ERROR) {
        let flag = seq![
            if more {
                1u8
            } else {
                0u8
            },
        ];
        let head = seq![RESP_OK] + be16(keys.len());
        lemma_be16(keys.len(), be16(0));
        lemma_stands_whole(data, data);
        lemma_stands_concat(data, 0, head + text_fields(keys), flag);
        lemma_stands_concat(data, 0, head, text_fields(keys));
        lemma_stands_concat(data, 0, seq![RESP_OK], be16(keys.len()));
    }
}

} // verus!
