//! What exchanges with a client come to: how two requests that are served relate, and what is read of
//! what was written. A call is spoken of by what it was given and what it returned.
use crate::fields::{blob_field, lemma_blob_len};
use crate::laws::{law_bound_kept, run, stepped, Step};
use crate::laws_serve::{
    law_scan_response, law_served_del, law_served_mget, law_served_reads, law_served_scan,
    law_served_writes,
};
use crate::laws_store::{law_scan_page, law_views};
use crate::model::StoreView;
use crate::protocol::{
    dispatch_at, law_frame_roundtrip, read_frame, response, serve, serve_shared, status, write_frame,
    FrameError, SnapshotSaver, RESP_ERROR,
};
use crate::request::{
    encode_request, law_encoding_unambiguous, malformed, parse_request, Request,
};
use crate::sort::key_views;
use crate::store::ShardedKV;
use vstd::prelude::*;
use vstd::utf8::encode_utf8;

verus! {

/// DEL is answered 0x11 exactly where the key has an entry whose timestamp, if it has one, has not
/// been reached, which is where GET at that time does not answer 0x12; else it is answered 0x12. The
/// key has no entry after, and nothing else changes.
pub proof fn law_exchange_del(
    key: String,
    deleting: &mut ShardedKV,
    reading: &mut ShardedKV,
    now: u64,
    deleted: Vec<u8>,
    got: Vec<u8>,
)
    requires
        call_ensures(serve, (Request::Del { key }, deleting, now), deleted),
        call_ensures(serve, (Request::Get { key }, reading, now), got),
    ensures
        ({
            let was = old(deleting)@;
            let found = was.entries.contains_key(key@) && match was.entries[key@].expires_at {
                Some(at) => now < at,
                None => true,
            };
            &&& found ==> deleted@ == seq![0x11u8]
            &&& !found ==> deleted@ == seq![0x12u8]
            &&& *old(deleting) == *old(reading) ==> found == (got@ != seq![0x12u8])
            &&& final(deleting)@.entries == was.entries.remove(key@)
            &&& final(deleting)@.max_entries == was.max_entries
        }),
{
    law_served_del(old(deleting)@, key@, now, key@, now);
}

/// After DEL, with nothing between them, GET, EXISTS and TTL of the key are answered 0x12 at every
/// time.
pub proof fn law_exchange_read_after_del(
    key: String,
    deleting: &mut ShardedKV,
    now: u64,
    deleted: Vec<u8>,
    read: Request,
    reading: &mut ShardedKV,
    later: u64,
    answer: Vec<u8>,
)
    requires
        call_ensures(serve, (Request::Del { key }, deleting, now), deleted),
        call_ensures(serve, (read, reading, later), answer),
        match read {
            Request::Get { key: k } => k@ == key@,
            Request::Exists { key: k } => k@ == key@,
            Request::Ttl { key: k } => k@ == key@,
            _ => false,
        },
    ensures
        *final(deleting) == *old(reading) ==> answer@ == seq![0x12u8],
{
    law_served_del(old(deleting)@, key@, now, key@, later);
}

/// After DEL, GET, EXISTS and TTL of any other key are answered as they would have been without it.
pub proof fn law_exchange_others_after_del(
    key: String,
    deleting: &mut ShardedKV,
    now: u64,
    deleted: Vec<u8>,
    read: Request,
    before: &mut ShardedKV,
    left: &mut ShardedKV,
    later: u64,
    answer_before: Vec<u8>,
    answer_left: Vec<u8>,
)
    requires
        call_ensures(serve, (Request::Del { key }, deleting, now), deleted),
        call_ensures(serve, (read, before, later), answer_before),
        call_ensures(serve, (read, left, later), answer_left),
        match read {
            Request::Get { key: k } => k@ != key@,
            Request::Exists { key: k } => k@ != key@,
            Request::Ttl { key: k } => k@ != key@,
            _ => false,
        },
    ensures
        *old(deleting) == *old(before) && *final(deleting) == *old(left) ==> answer_before@
            == answer_left@,
{
    match read {
        Request::Get { key: k } => law_served_del(old(deleting)@, key@, now, k@, later),
        Request::Exists { key: k } => law_served_del(old(deleting)@, key@, now, k@, later),
        Request::Ttl { key: k } => law_served_del(old(deleting)@, key@, now, k@, later),
        _ => {},
    }
}

/// SET is answered 0x10 where the key has an entry or there are fewer entries than the bound, and GET
/// then answers 0x10 and the value behind its length in four bytes at every time, or 0xFF if that is
/// more than 1,048,576 bytes. Else SET is answered 0x13, and changes nothing.
pub proof fn law_exchange_get_after_set(
    key: String,
    value: Vec<u8>,
    setting: &mut ShardedKV,
    now: u64,
    set: Vec<u8>,
    reading: &mut ShardedKV,
    later: u64,
    got: Vec<u8>,
)
    requires
        call_ensures(serve, (Request::Put { key, value }, setting, now), set),
        call_ensures(serve, (Request::Get { key }, reading, later), got),
    ensures
        ({
            let was = old(setting)@;
            let bound = if was.max_entries == 0 {
                0xFFFF_FFFF_FFFF_FFFFint
            } else {
                was.max_entries as int
            };
            let room = was.entries.contains_key(key@) || was.entries.dom().len() < bound;
            let n = value@.len();
            &&& room ==> set@ == seq![0x10u8]
            &&& !room ==> set@ == seq![0x13u8] && final(setting)@ == was
            &&& room && *final(setting) == *old(reading) ==> {
                &&& 5 + n > 1_048_576 ==> got@ == seq![0xFFu8]
                &&& 5 + n <= 1_048_576 ==> {
                    &&& got@.len() == 5 + n
                    &&& got@[0] == 0x10
                    &&& got@[1] * 0x100_0000 + got@[2] * 0x1_0000 + got@[3] * 0x100 + got@[4] == n
                    &&& got@.subrange(5, 5int + n) == value@
                }
            }
        }),
{
    let was = old(setting)@;
    law_served_writes(was, key@, value@, 0, now);
    law_served_reads(old(reading)@, key@, later);
    assert(final(setting)@.entries == was.entries ==> final(setting)@ =~= was);
}

/// SETX is answered as SET is. GET then answers the value at each time before the sum of the time and
/// the TTL, and 0x12 from then on.
pub proof fn law_exchange_get_after_setx(
    key: String,
    value: Vec<u8>,
    ttl_ms: u64,
    setting: &mut ShardedKV,
    now: u64,
    set: Vec<u8>,
    reading: &mut ShardedKV,
    later: u64,
    got: Vec<u8>,
)
    requires
        now + ttl_ms <= 0xFFFF_FFFF_FFFF_FFFF,
        call_ensures(serve, (Request::PutTtl { key, value, ttl_ms }, setting, now), set),
        call_ensures(serve, (Request::Get { key }, reading, later), got),
    ensures
        ({
            let was = old(setting)@;
            let bound = if was.max_entries == 0 {
                0xFFFF_FFFF_FFFF_FFFFint
            } else {
                was.max_entries as int
            };
            let room = was.entries.contains_key(key@) || was.entries.dom().len() < bound;
            let n = value@.len();
            &&& room ==> set@ == seq![0x10u8]
            &&& !room ==> set@ == seq![0x13u8] && final(setting)@ == was
            &&& room && *final(setting) == *old(reading) ==> {
                &&& later >= now + ttl_ms ==> got@ == seq![0x12u8]
                &&& later < now + ttl_ms && 5 + n <= 1_048_576 ==> got@.len() == 5 + n && got@[0]
                    == 0x10 && got@.subrange(5, 5int + n) == value@
            }
        }),
{
    let was = old(setting)@;
    law_served_writes(was, key@, value@, ttl_ms, now);
    law_served_reads(old(reading)@, key@, later);
    assert(final(setting)@.entries == was.entries ==> final(setting)@ =~= was);
    assert(final(setting)@.entries.dom() == was.entries.dom().insert(key@)
        ==> final(setting)@.entries.contains_key(key@));
}

/// MGET is answered with 0x10 and one item for each key in the order asked for, without a gap, up to
/// the end: for a key that GET of that key alone answers 0x12, 0; and for any other key 1 and what
/// GET answers after 0x10, the value behind its length in four bytes. It is answered with 0xFF instead
/// if that is more than 1,048,576 bytes. Gives the place of each item, and of the end.
#[verifier::spinoff_prover]
pub proof fn law_exchange_mget(
    keys: Vec<String>,
    store: &mut ShardedKV,
    now: u64,
    answer: Vec<u8>,
    i: int,
    reading: &mut ShardedKV,
    got: Vec<u8>,
) -> (at: Seq<int>)
    requires
        call_ensures(serve, (Request::Mget { keys }, store, now), answer),
        0 <= i < keys@.len(),
        call_ensures(serve, (Request::Get { key: keys@[i] }, reading, now), got),
    ensures
        ({
            let n = keys@.len() as int;
            let (p, q) = (at[i], at[i + 1]);
            &&& at.len() == n + 1
            &&& at[0] == 1
            &&& at[n] > 1_048_576 ==> answer@ == seq![0xFFu8]
            &&& at[n] <= 1_048_576 ==> answer@.len() == at[n] && answer@[0] == 0x10
            &&& *old(store) == *old(reading) && at[n] <= 1_048_576 ==> {
                &&& got@ == seq![0x12u8] ==> q == p + 1 && answer@[p] == 0
                &&& got@ != seq![0x12u8] ==> q == p + got@.len() && answer@[p] == 1
                    && answer@.subrange(p + 1, q) == got@.subrange(1, got@.len() as int)
            }
        }),
{
    let texts = key_views(keys@);
    law_views(keys@, seq![], seq![], i);
    assert(texts[i] == keys@[i]@);
    let at = law_served_mget(old(store)@, texts, now);
    if *old(store) == *old(reading) && at[keys@.len() as int] <= 1_048_576 && got@ != seq![0x12u8] {
        let part = answer@.subrange(at[i] + 1, at[i + 1]);
        assert(got@ == seq![0x10u8] + part);
        assert(got@.subrange(1, got@.len() as int) =~= part);
        lemma_within(old(store)@, texts, now, at, i);
        assert(part.len() == at[i + 1] - at[i] - 1);
    }
    at
}

/// The items of an MGET answer are not shorter than any of them.
proof fn lemma_within(
    store: StoreView,
    texts: Seq<Seq<char>>,
    now: u64,
    at: Seq<int>,
    i: int,
)
    requires
        0 <= i < texts.len(),
        at.len() == texts.len() + 1,
        at[0] == 1,
        forall|j: int|
            0 <= j < texts.len() ==> {
                let entry = store.entries[#[trigger] texts[j]];
                at[j + 1] == at[j] + 1 || at[j + 1] == at[j] + 5 + entry.value.len()
            },
    ensures
        1 <= at[i] < at[i + 1] <= at[texts.len() as int],
    decreases texts.len(),
{
    lemma_growing(store, texts, at, 0, i);
    lemma_growing(store, texts, at, i + 1, texts.len() as int);
    assert(store.entries[texts[i]].value.len() >= 0);
}

/// The places of the items of an MGET answer are in order.
proof fn lemma_growing(
    store: StoreView,
    texts: Seq<Seq<char>>,
    at: Seq<int>,
    i: int,
    j: int,
)
    requires
        0 <= i <= j <= texts.len(),
        forall|m: int|
            0 <= m < texts.len() ==> {
                let entry = store.entries[#[trigger] texts[m]];
                at[m + 1] == at[m] + 1 || at[m + 1] == at[m] + 5 + entry.value.len()
            },
    ensures
        at[i] <= at[j],
    decreases j - i,
{
    if i < j {
        lemma_growing(store, texts, at, i, j - 1);
        assert(store.entries[texts[j - 1]].value.len() >= 0);
    }
}

/// SCAN is answered with 0x10, the number of keys in two bytes, the keys without a gap, each behind
/// its length in two bytes, and 1 or 0: the keys, and whether there are more, that a scan of the store
/// gives for the same prefix, cursor and time, and for the same limit, but at most 1024. It is
/// answered with 0xFF instead if a key has more than 65,535 bytes or if that is more than 1,048,576
/// bytes. Gives the place of each key, and of the last byte.
#[verifier::spinoff_prover]
pub proof fn law_exchange_scan(
    prefix: String,
    limit: u16,
    cursor: String,
    store: &mut ShardedKV,
    now: u64,
    answer: Vec<u8>,
    scanning: &mut ShardedKV,
    asked: usize,
    p: &str,
    c: &str,
    page: (Vec<String>, bool),
) -> (at: Seq<int>)
    requires
        call_ensures(serve, (Request::Scan { prefix, limit, cursor }, store, now), answer),
        call_ensures(ShardedKV::scan_at, (scanning, p, asked, c, now), page),
        p@ == prefix@,
        c@ == cursor@,
        limit <= 1024 ==> asked == limit,
        limit > 1024 ==> asked == 1024,
        old(scanning).wf(),
    ensures
        ({
            let keys = page.0@;
            let n = keys.len() as int;
            let long = exists|i: int|
                0 <= i < n && encode_utf8((#[trigger] keys[i])@).len() > 65_535;
            &&& at.len() == n + 1
            &&& at[0] == 3
            &&& forall|i: int|
                0 <= i < n ==> at[i + 1] == at[i] + 2 + encode_utf8((#[trigger] keys[i])@).len()
            &&& *old(store) == *old(scanning) ==> {
                &&& long || at[n] + 1 > 1_048_576 ==> answer@ == seq![0xFFu8]
                &&& !long && at[n] + 1 <= 1_048_576 ==> {
                    &&& answer@.len() == at[n] + 1
                    &&& answer@[0] == 0x10
                    &&& answer@[1] * 0x100 + answer@[2] == n
                    &&& page.1 ==> answer@[at[n]] == 1
                    &&& !page.1 ==> answer@[at[n]] == 0
                    &&& forall|i: int|
                        0 <= i < n ==> {
                            let k = encode_utf8((#[trigger] keys[i])@);
                            &&& answer@[at[i]] * 0x100 + answer@[at[i] + 1] == k.len()
                            &&& answer@.subrange(at[i] + 2, at[i + 1]) == k
                        }
                }
            }
        }),
{
    let keys = page.0@;
    let texts = key_views(keys);
    old(scanning).lemma_finite();
    law_scan_page(old(scanning)@, p@, asked as nat, c@, now);
    law_served_scan(old(store)@, prefix@, limit, cursor@, now);
    assert(texts.len() == keys.len());
    assert forall|i: int| 0 <= i < keys.len() implies #[trigger] texts[i] == keys[i]@ by {
        law_views(keys, seq![], seq![], i);
    }
    let at = law_scan_response(texts, page.1);
    assert forall|i: int| 0 <= i < keys.len() implies at[i + 1] == at[i] + 2 + encode_utf8(
        (#[trigger] keys[i])@,
    ).len() by {
        assert(texts[i] == keys[i]@);
    }
    if exists|i: int| 0 <= i < texts.len() && encode_utf8(#[trigger] texts[i]).len() > 65_535 {
        let i = choose|i: int|
            0 <= i < texts.len() && encode_utf8(#[trigger] texts[i]).len() > 65_535;
        assert(encode_utf8(keys[i]@).len() > 65_535);
    }
    if exists|i: int| 0 <= i < keys.len() && encode_utf8((#[trigger] keys[i])@).len() > 65_535 {
        let i = choose|i: int|
            0 <= i < keys.len() && encode_utf8((#[trigger] keys[i])@).len() > 65_535;
        assert(encode_utf8(texts[i]).len() > 65_535);
    } else if *old(store) == *old(scanning) && at[keys.len() as int] + 1 <= 1_048_576 {
        assert forall|i: int| 0 <= i < keys.len() implies {
            let k = encode_utf8((#[trigger] keys[i])@);
            &&& answer@[at[i]] * 0x100 + answer@[at[i] + 1] == k.len()
            &&& answer@.subrange(at[i] + 2, at[i + 1]) == k
        } by {
            assert(texts[i] == keys[i]@);
        }
    }
    at
}

/// No request takes a store beyond its bound, and one that is beyond it does not grow.
pub proof fn law_exchange_within_bound(
    request: Request,
    store: &mut ShardedKV,
    now: u64,
    answer: Vec<u8>,
)
    requires
        old(store).wf(),
        call_ensures(serve, (request, store, now), answer),
    ensures
        ({
            let (was, is) = (old(store)@, final(store)@);
            let (n, m) = (was.entries.dom().len(), is.entries.dom().len());
            &&& is.max_entries == was.max_entries
            &&& was.max_entries > 0 && n <= was.max_entries ==> m <= was.max_entries
            &&& was.max_entries > 0 && n > was.max_entries ==> m <= n
        }),
{
    let step = Step::Serve { request: request@, now };
    let steps = seq![step];
    old(store).lemma_finite();
    law_bound_kept(old(store)@, steps);
    assert(steps.drop_last() =~= seq![]);
    assert(run(old(store)@, steps.drop_last()) == old(store)@);
    assert(run(old(store)@, steps) == stepped(old(store)@, step));
}

/// What can be answered without a change to the store is answered as it would be otherwise.
pub proof fn law_exchange_shared(
    request: Request,
    store: &mut ShardedKV,
    now: u64,
    answer: Vec<u8>,
    shared: Option<Vec<u8>>,
)
    requires
        call_ensures(serve, (request, store, now), answer),
        call_ensures(serve_shared, (&request, &*old(store), now), shared),
    ensures
        shared is Some ==> shared->0@ == answer@ && final(store)@ == old(store)@,
{
}

/// A frame that is no request is answered 0xFF, and so is SAVE where there is nothing to save with;
/// neither changes the store. Any other request in a frame is served.
pub proof fn law_exchange_dispatch(
    frame: &[u8],
    store: &mut ShardedKV,
    now: u64,
    answer: Vec<u8>,
    parsed: Option<Request>,
    serving: &mut ShardedKV,
    served: Vec<u8>,
)
    requires
        call_ensures(dispatch_at, (frame, store, None::<&mut dyn SnapshotSaver>, now), answer),
        call_ensures(parse_request, (frame,), parsed),
        parsed matches Some(request) ==> call_ensures(serve, (request, serving, now), served),
    ensures
        match parsed {
            None => answer@ == seq![0xFFu8] && final(store)@ == old(store)@,
            Some(Request::Save) => answer@ == seq![0xFFu8] && final(store)@ == old(store)@,
            Some(_) => *old(store) == *old(serving) ==> answer@ == served@ && final(store)@
                == final(serving)@,
        },
{
    match parsed {
        Some(request) => {
            assert(request@.encodes(frame@));
            assert(request !is Save ==> answer@ == response(old(store)@, request@, now));
            assert(served@ == response(old(serving)@, request@, now));
        },
        None => {
            assert(malformed(frame@));
            assert(answer@ == status(RESP_ERROR));
        },
    }
}

/// A request that is written is read back, and what is read as a request is what it is written as.
pub proof fn law_exchange_codec(
    request: Request,
    written: Vec<u8>,
    frame: &[u8],
    parsed: Option<Request>,
)
    requires
        request@.valid(),
        call_ensures(encode_request, (&request,), written),
        call_ensures(parse_request, (frame,), parsed),
    ensures
        written@ == frame@ ==> parsed is Some && parsed->0@ == request@,
        parsed is Some && parsed->0@ == request@ ==> written@ == frame@,
{
    assert(request@.encodes(written@));
    if let Some(p) = parsed {
        if written@ == frame@ {
            law_encoding_unambiguous(p@, request@);
        }
    }
}

/// A payload of at most 1,048,576 bytes that is written as a frame is read back, whatever follows; a
/// longer one is refused, and nothing is written.
pub proof fn law_exchange_frame(
    writer: &mut Vec<u8>,
    payload: &[u8],
    written: Result<(), FrameError>,
    input: &[u8],
    rest: Seq<u8>,
    frame: Result<(Vec<u8>, usize), FrameError>,
)
    requires
        call_ensures(write_frame, (writer, payload), written),
        call_ensures(read_frame, (input,), frame),
    ensures
        written is Ok <==> payload@.len() <= 1_048_576,
        written matches Err(e) ==> e == (FrameError::Oversized { len: payload@.len() as usize })
            && final(writer)@ == old(writer)@,
        written is Ok ==> final(writer)@.len() == old(writer)@.len() + 4 + payload@.len()
            && old(writer)@.is_prefix_of(final(writer)@),
        written is Ok && old(writer)@.len() == 0 && input@ == final(writer)@ + rest
            ==> frame is Ok && frame->Ok_0.0@ == payload@ && frame->Ok_0.1 == 4 + payload@.len(),
{
    lemma_blob_len(payload@);
    if written is Ok {
        assert(old(writer)@.is_prefix_of(old(writer)@ + blob_field(payload@)));
        law_frame_roundtrip(payload@, rest);
        if old(writer)@.len() == 0 {
            assert(final(writer)@ =~= blob_field(payload@));
        }
    }
}

} // verus!
