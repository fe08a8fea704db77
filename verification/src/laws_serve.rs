//! What each request is answered and does to the store, said of the bytes of the answer and of the
//! entries of the store alone.
use crate::bytes::{be16, be64};
use crate::entry::EntryView;
use crate::fields::{
    blob_field, lemma_blob_len, lemma_stands_concat, lemma_stands_whole, lemma_text_len, stands_at,
    text_fits,
};
use crate::laws_wire::{law_text_field, law_written_numbers, lemma_blob_at, lemma_texts_at};
use crate::model::StoreView;
use crate::protocol::{
    after, get_response, mget_item, mget_items, mget_response, read_only, response, save_response,
    scan_response, status, RESP_DELETED, RESP_ERROR, RESP_NOT_FOUND, RESP_OK, RESP_STORE_FULL,
};
use crate::request::{text_fields, texts_fit, RequestView};
use vstd::prelude::*;
use vstd::utf8::encode_utf8;

verus! {

/// The status bytes, and the response that is one of them.
pub proof fn law_statuses(byte: u8, store: StoreView, now: u64)
    ensures
        status(byte) == seq![byte],
        RESP_OK == 0x10,
        RESP_DELETED == 0x11,
        RESP_NOT_FOUND == 0x12,
        RESP_STORE_FULL == 0x13,
        RESP_ERROR == 0xFF,
        save_response(true) == seq![0x10u8],
        save_response(false) == seq![0xFFu8],
        response(store, RequestView::Ping, now) == seq![0x10u8],
        response(store, RequestView::Save, now) == seq![0xFFu8],
        after(store, RequestView::Ping, now) == store,
        after(store, RequestView::Save, now) == store,
{
}

/// What GET, EXISTS and TTL answer. They find a key that has an entry whose timestamp, if it has
/// one, has not been reached, and answer 0x12 for any other. GET answers 0x10 and the value behind
/// its length in four bytes, or 0xFF if that is more than 1,048,576 bytes in all. EXISTS answers
/// 0x10. TTL answers 0x10 and 0 for an entry with no timestamp, else 0x10, 1, and in eight bytes the
/// milliseconds from now to the timestamp. The entry of a key that they do not find is gone after,
/// and nothing else changes.
pub proof fn law_served_reads(store: StoreView, key: Seq<char>, now: u64)
    ensures
        ({
            let entry = store.entries[key];
            let found = store.entries.contains_key(key) && match entry.expires_at {
                Some(at) => now < at,
                None => true,
            };
            let get = response(store, RequestView::Get { key }, now);
            let ttl = response(store, RequestView::Ttl { key }, now);
            &&& !found ==> get == seq![0x12u8] && ttl == seq![0x12u8]
            &&& found && 5 + entry.value.len() > 1_048_576 ==> get == seq![0xFFu8]
            &&& found && 5 + entry.value.len() <= 1_048_576 ==> {
                &&& get.len() == 5 + entry.value.len()
                &&& get[0] == 0x10
                &&& get[1] * 0x100_0000 + get[2] * 0x1_0000 + get[3] * 0x100 + get[4]
                    == entry.value.len()
                &&& get.subrange(5, get.len() as int) == entry.value
            }
            &&& response(store, RequestView::Exists { key }, now) == if found {
                seq![0x10u8]
            } else {
                seq![0x12u8]
            }
            &&& found && entry.expires_at is None ==> ttl == seq![0x10u8, 0u8]
            &&& found && entry.expires_at is Some ==> {
                &&& ttl.len() == 10
                &&& ttl[0] == 0x10
                &&& ttl[1] == 1
                &&& now + ttl[2] * 0x100_0000_0000_0000 + ttl[3] * 0x1_0000_0000_0000 + ttl[4]
                    * 0x100_0000_0000 + ttl[5] * 0x1_0000_0000 + ttl[6] * 0x100_0000 + ttl[7]
                    * 0x1_0000 + ttl[8] * 0x100 + ttl[9] == entry.expires_at->0
            }
        }),
{
    let entry = store.entries[key];
    let found = store.entries.contains_key(key) && match entry.expires_at {
        Some(at) => now < at,
        None => true,
    };
    if found {
        let get = response(store, RequestView::Get { key }, now);
        lemma_blob_len(entry.value);
        if 5 + entry.value.len() <= 1_048_576 {
            lemma_stands_whole(get, get);
            lemma_stands_concat(get, 0, seq![0x10u8], blob_field(entry.value));
            lemma_blob_at(get, 1, entry.value);
        }
        if let Some(at) = entry.expires_at {
            let left = (at - now) as nat;
            let ttl = response(store, RequestView::Ttl { key }, now);
            let b = be64(left);
            law_written_numbers(left);
            assert(ttl == seq![0x10u8, 1u8] + b);
            assert(ttl[2] == b[0] && ttl[3] == b[1] && ttl[4] == b[2] && ttl[5] == b[3] && ttl[6]
                == b[4] && ttl[7] == b[5] && ttl[8] == b[6] && ttl[9] == b[7]);
        }
    }
}

/// What GET, EXISTS and TTL do to the store: the entry of a key whose timestamp has been reached is
/// gone, and nothing else changes.
pub proof fn law_reads_change(store: StoreView, key: Seq<char>, now: u64)
    ensures
        ({
            let over = store.entries.contains_key(key) && match store.entries[key].expires_at {
                Some(at) => at <= now,
                None => false,
            };
            let left = if over {
                store.entries.remove(key)
            } else {
                store.entries
            };
            let get = after(store, RequestView::Get { key }, now);
            let yes = after(store, RequestView::Exists { key }, now);
            let ttl = after(store, RequestView::Ttl { key }, now);
            &&& get.entries == left && get.max_entries == store.max_entries
            &&& yes.entries == left && yes.max_entries == store.max_entries
            &&& ttl.entries == left && ttl.max_entries == store.max_entries
        }),
{
}

/// What SET and SETX answer and do. Where the key has an entry, or there are fewer entries than the
/// bound (than 2^64 - 1 where it is 0), they answer 0x10, and the key then has exactly that value,
/// with no timestamp or with the sum of the time and the TTL for one, cut to 2^64 - 1. Else they
/// answer 0x13 and change nothing.
pub proof fn law_served_writes(
    store: StoreView,
    key: Seq<char>,
    value: Seq<u8>,
    ttl_ms: u64,
    now: u64,
)
    ensures
        ({
            let room = store.entries.contains_key(key) || store.entries.dom().len() < (if store.max_entries
                == 0 {
                0xFFFF_FFFF_FFFF_FFFFint
            } else {
                store.max_entries as int
            });
            let set = RequestView::Put { key, value };
            let setx = RequestView::PutTtl { key, value, ttl_ms };
            let put = after(store, set, now);
            let timed = after(store, setx, now);
            let answer = if room {
                seq![0x10u8]
            } else {
                seq![0x13u8]
            };
            &&& response(store, set, now) == answer
            &&& response(store, setx, now) == answer
            &&& put.max_entries == store.max_entries
            &&& timed.max_entries == store.max_entries
            &&& !room ==> put.entries == store.entries && timed.entries == store.entries
            &&& room ==> {
                &&& put.entries == store.entries.insert(key, EntryView { value, expires_at: None })
                &&& timed.entries.dom() == store.entries.dom().insert(key)
                &&& timed.entries.remove(key) == store.entries.remove(key)
                &&& timed.entries[key].value == value
                &&& now + ttl_ms <= 0xFFFF_FFFF_FFFF_FFFF ==> (
                timed.entries[key].expires_at matches Some(at) && at == now + ttl_ms)
                &&& now + ttl_ms > 0xFFFF_FFFF_FFFF_FFFF ==> timed.entries[key].expires_at == Some(
                    0xFFFF_FFFF_FFFF_FFFFu64,
                )
            }
        }),
{
}

/// A value that is set with a TTL is answered to GET, EXISTS and TTL at each time before the sum of
/// the time it was set at and the TTL, and at no time from then on.
pub proof fn law_served_ttl_lasts(
    store: StoreView,
    key: Seq<char>,
    value: Seq<u8>,
    ttl_ms: u64,
    set_at: u64,
    now: u64,
)
    requires
        set_at + ttl_ms <= 0xFFFF_FFFF_FFFF_FFFF,
        response(store, RequestView::PutTtl { key, value, ttl_ms }, set_at) == seq![0x10u8],
    ensures
        ({
            let set = after(store, RequestView::PutTtl { key, value, ttl_ms }, set_at);
            let found = now < set_at + ttl_ms;
            &&& (response(set, RequestView::Exists { key }, now) == seq![0x10u8]) == found
            &&& (response(set, RequestView::Get { key }, now) == seq![0x12u8]) == !found
            &&& (response(set, RequestView::Ttl { key }, now) == seq![0x12u8]) == !found
            &&& found && 5 + value.len() <= 1_048_576 ==> response(
                set,
                RequestView::Get { key },
                now,
            ).subrange(5, 5int + value.len()) == value
        }),
{
    let set = after(store, RequestView::PutTtl { key, value, ttl_ms }, set_at);
    law_served_writes(store, key, value, ttl_ms, set_at);
    assert(seq![0x10u8][0] != seq![0x13u8][0]);
    law_served_reads(set, key, now);
    let get = response(set, RequestView::Get { key }, now);
    let ttl = response(set, RequestView::Ttl { key }, now);
    assert(seq![0x12u8][0] == 0x12 && seq![0xFFu8][0] == 0xFF && seq![0x10u8][0] == 0x10);
    assert(set.entries.contains_key(key));
}

/// What DEL answers and does. It answers 0x11 exactly for a key that GET finds at that time, and
/// 0x12 for any other. After it the key is found by neither GET nor EXISTS nor TTL, at any time, and
/// of any other key they answer as before.
pub proof fn law_served_del(
    store: StoreView,
    key: Seq<char>,
    now: u64,
    other: Seq<char>,
    later: u64,
)
    ensures
        ({
            let found = store.entries.contains_key(key) && match store.entries[key].expires_at {
                Some(at) => now < at,
                None => true,
            };
            let del = response(store, RequestView::Del { key }, now);
            let left = after(store, RequestView::Del { key }, now);
            &&& found ==> del == seq![0x11u8]
            &&& !found ==> del == seq![0x12u8]
            &&& found == (response(store, RequestView::Get { key }, now) != seq![0x12u8])
            &&& response(left, RequestView::Get { key }, later) == seq![0x12u8]
            &&& response(left, RequestView::Exists { key }, later) == seq![0x12u8]
            &&& response(left, RequestView::Ttl { key }, later) == seq![0x12u8]
            &&& other != key ==> {
                &&& response(left, RequestView::Get { key: other }, later) == response(
                    store,
                    RequestView::Get { key: other },
                    later,
                )
                &&& response(left, RequestView::Exists { key: other }, later) == response(
                    store,
                    RequestView::Exists { key: other },
                    later,
                )
                &&& response(left, RequestView::Ttl { key: other }, later) == response(
                    store,
                    RequestView::Ttl { key: other },
                    later,
                )
            }
            &&& left.entries == store.entries.remove(key)
            &&& left.max_entries == store.max_entries
        }),
{
    law_served_reads(store, key, now);
    assert(seq![0x12u8][0] == 0x12 && seq![0xFFu8][0] == 0xFF);
}

/// Where the parts of an MGET response stand: the place of each of them, and of their end.
proof fn lemma_items_at(data: Seq<u8>, pos: int, values: Seq<Option<Seq<u8>>>) -> (at: Seq<int>)
    requires
        0 <= pos,
    ensures
        at.len() == values.len() + 1,
        at[0] == pos,
        at[values.len() as int] == pos + mget_items(values).len(),
        forall|i: int|
            0 <= i < values.len() ==> at[i + 1] == at[i] + (match #[trigger] values[i] {
                Some(value) => 5 + value.len(),
                None => 1,
            }),
        data.len() <= 4_294_967_295 && stands_at(data, pos, mget_items(values)) ==> forall|i: int|
            0 <= i < values.len() ==> match #[trigger] values[i] {
                Some(value) => {
                    let p = at[i];
                    &&& data[p] == 1
                    &&& stands_at(data, p + 1, blob_field(value))
                    &&& data[p + 1] * 0x100_0000 + data[p + 2] * 0x1_0000 + data[p + 3] * 0x100
                        + data[p + 4] == value.len()
                    &&& data.subrange(p + 5, at[i + 1]) == value
                },
                None => data[at[i]] == 0,
            },
    decreases values.len(),
{
    if values.len() == 0 {
        seq![pos]
    } else {
        let rest = values.drop_last();
        let last = values.last();
        let before = lemma_items_at(data, pos, rest);
        let p = pos + mget_items(rest).len();
        let at = before.push(pos + mget_items(values).len());
        let stands = data.len() <= 4_294_967_295 && stands_at(data, pos, mget_items(values));
        lemma_stands_concat(data, pos, mget_items(rest), mget_item(last));
        if let Some(value) = last {
            lemma_blob_len(value);
        }
        if stands {
            assert(data.subrange(p, p + mget_item(last).len())[0] == data[p]);
            if let Some(value) = last {
                lemma_stands_concat(data, p, seq![1u8], blob_field(value));
                lemma_blob_at(data, p + 1, value);
            }
        }
        assert forall|i: int| 0 <= i < values.len() implies at[i + 1] == at[i] + (
        match #[trigger] values[i] {
            Some(value) => 5 + value.len(),
            None => 1,
        }) by {
            if i < rest.len() {
                assert(rest[i] == values[i]);
            }
        }
        if stands {
            assert forall|i: int| 0 <= i < values.len() implies match #[trigger] values[i] {
                Some(value) => {
                    let p = at[i];
                    &&& data[p] == 1
                    &&& stands_at(data, p + 1, blob_field(value))
                    &&& data[p + 1] * 0x100_0000 + data[p + 2] * 0x1_0000 + data[p + 3] * 0x100
                        + data[p + 4] == value.len()
                    &&& data.subrange(p + 5, at[i + 1]) == value
                },
                None => data[at[i]] == 0,
            } by {
                if i < rest.len() {
                    assert(rest[i] == values[i]);
                }
            }
        }
        at
    }
}

/// The bytes of the answer to a read of several keys: 0x10, then one item for each value in order,
/// without a gap, up to the end. The item of a value is 1 and the value behind its length in four
/// bytes, as in the answer to a read of that key alone; where there is none, it is 0. The answer is
/// 0xFF instead if that is more than 1,048,576 bytes in all. Gives the place of each item, and of
/// the end.
#[verifier::spinoff_prover]
pub proof fn law_mget_response(values: Seq<Option<Seq<u8>>>) -> (at: Seq<int>)
    ensures
        ({
            let mget = mget_response(values);
            let n = values.len() as int;
            &&& at.len() == n + 1
            &&& at[0] == 1
            &&& forall|i: int|
                0 <= i < n ==> at[i + 1] == at[i] + (match #[trigger] values[i] {
                    Some(value) => 5 + value.len(),
                    None => 1,
                })
            &&& at[n] > 1_048_576 ==> mget == seq![0xFFu8]
            &&& at[n] <= 1_048_576 ==> {
                &&& mget.len() == at[n]
                &&& mget[0] == 0x10
                &&& forall|i: int|
                    0 <= i < n ==> match #[trigger] values[i] {
                        Some(value) => {
                            let p = at[i];
                            &&& mget[p] == 1
                            &&& mget[p + 1] * 0x100_0000 + mget[p + 2] * 0x1_0000 + mget[p + 3]
                                * 0x100 + mget[p + 4] == value.len()
                            &&& mget.subrange(p + 5, at[i + 1]) == value
                            &&& seq![0x10u8] + mget.subrange(p + 1, at[i + 1]) == get_response(
                                values[i],
                            )
                        },
                        None => mget[at[i]] == 0,
                    }
            }
        }),
{
    let mget = mget_response(values);
    let whole = seq![0x10u8] + mget_items(values);
    let at = lemma_items_at(whole, 1, values);
    let n = values.len() as int;
    assert(whole.len() == at[n]);
    if at[n] <= 1_048_576 {
        lemma_stands_whole(whole, whole);
        lemma_stands_concat(whole, 0, seq![0x10u8], mget_items(values));
        assert forall|i: int| 0 <= i < n && (#[trigger] values[i]) is Some implies seq![0x10u8]
            + whole.subrange(at[i] + 1, at[i + 1]) == get_response(values[i]) by {
            let value = values[i]->0;
            let p = at[i];
            lemma_blob_len(value);
            assert(at[i + 1] == p + 1 + blob_field(value).len());
        }
    }
    at
}

/// What MGET answers: 0x10, then one item for each key in the order asked for, without a gap, up to
/// the end. The item of a key that GET finds is 1 and the value behind its length in four bytes, as
/// GET of that key alone answers it; the item of any other key is 0. The answer is 0xFF instead if
/// that is more than 1,048,576 bytes in all. Gives the place of each item, and of the end.
#[verifier::spinoff_prover]
pub proof fn law_served_mget(store: StoreView, keys: Seq<Seq<char>>, now: u64) -> (at: Seq<int>)
    ensures
        ({
            let mget = response(store, RequestView::Mget { keys }, now);
            let n = keys.len() as int;
            &&& at.len() == n + 1
            &&& at[0] == 1
            &&& at[n] > 1_048_576 ==> mget == seq![0xFFu8]
            &&& at[n] <= 1_048_576 ==> mget.len() == at[n] && mget[0] == 0x10
            &&& forall|i: int|
                0 <= i < n ==> {
                    let entry = store.entries[#[trigger] keys[i]];
                    let found = store.entries.contains_key(keys[i]) && match entry.expires_at {
                        Some(at) => now < at,
                        None => true,
                    };
                    let get = response(store, RequestView::Get { key: keys[i] }, now);
                    let (p, q) = (at[i], at[i + 1]);
                    &&& found == (get != seq![0x12u8])
                    &&& found ==> q == p + 5 + entry.value.len()
                    &&& !found ==> q == p + 1
                    &&& at[n] <= 1_048_576 && !found ==> mget[p] == 0
                    &&& at[n] <= 1_048_576 && found ==> {
                        &&& mget[p] == 1
                        &&& mget[p + 1] * 0x100_0000 + mget[p + 2] * 0x1_0000 + mget[p + 3] * 0x100
                            + mget[p + 4] == entry.value.len()
                        &&& mget.subrange(p + 5, q) == entry.value
                        &&& seq![0x10u8] + mget.subrange(p + 1, q) == get
                    }
                }
        }),
{
    let values = keys.map_values(|k: Seq<char>| store.value_at(k, now));
    let mget = mget_response(values);
    assert(response(store, RequestView::Mget { keys }, now) == mget);
    let at = law_mget_response(values);
    let n = keys.len() as int;
    assert forall|i: int| 0 <= i < n implies {
        let entry = store.entries[#[trigger] keys[i]];
        let found = store.entries.contains_key(keys[i]) && match entry.expires_at {
            Some(at) => now < at,
            None => true,
        };
        let get = response(store, RequestView::Get { key: keys[i] }, now);
        let (p, q) = (at[i], at[i + 1]);
        &&& found == (get != seq![0x12u8])
        &&& found ==> q == p + 5 + entry.value.len()
        &&& !found ==> q == p + 1
        &&& at[n] <= 1_048_576 && !found ==> mget[p] == 0
        &&& at[n] <= 1_048_576 && found ==> {
            &&& mget[p] == 1
            &&& mget[p + 1] * 0x100_0000 + mget[p + 2] * 0x1_0000 + mget[p + 3] * 0x100 + mget[p
                + 4] == entry.value.len()
            &&& mget.subrange(p + 5, q) == entry.value
            &&& seq![0x10u8] + mget.subrange(p + 1, q) == get
        }
    } by {
        let value = store.value_at(keys[i], now);
        assert(values[i] == value);
        assert(response(store, RequestView::Get { key: keys[i] }, now) == get_response(value));
        lemma_found_or_not(value);
    }
    at
}

/// The answer to a read of one key says whether it was found.
proof fn lemma_found_or_not(value: Option<Seq<u8>>)
    ensures
        value is Some <==> get_response(value) != seq![0x12u8],
{
    assert(seq![0x12u8][0] == 0x12);
    if let Some(value) = value {
        assert(get_response(Some(value))[0] != 0x12);
    }
}

/// What MGET and SCAN do to the store: MGET removes the entries of the keys asked for whose
/// timestamps have been reached, SCAN with a limit above 0 all such entries, and nothing else
/// changes.
pub proof fn law_listings_change(
    store: StoreView,
    keys: Seq<Seq<char>>,
    prefix: Seq<char>,
    limit: u16,
    cursor: Seq<char>,
    now: u64,
    key: Seq<char>,
)
    ensures
        ({
            let mget = after(store, RequestView::Mget { keys }, now);
            let scan = after(store, RequestView::Scan { prefix, limit, cursor }, now);
            let present = store.entries.contains_key(key);
            let over = match store.entries[key].expires_at {
                Some(at) => at <= now,
                None => false,
            };
            let asked = exists|i: int| 0 <= i < keys.len() && keys[i] == key;
            &&& mget.max_entries == store.max_entries
            &&& scan.max_entries == store.max_entries
            &&& mget.entries.contains_key(key) == (present && !(over && asked))
            &&& mget.entries.contains_key(key) ==> mget.entries[key] == store.entries[key]
            &&& scan.entries.contains_key(key) == (present && !(over && limit > 0))
            &&& scan.entries.contains_key(key) ==> scan.entries[key] == store.entries[key]
        }),
{
}

/// What SCAN answers, of at most 1024 keys: the page of the store for that prefix, limit and cursor,
/// and whether there is more.
pub proof fn law_served_scan(
    store: StoreView,
    prefix: Seq<char>,
    limit: u16,
    cursor: Seq<char>,
    now: u64,
)
    ensures
        limit <= 1024 ==> response(store, RequestView::Scan { prefix, limit, cursor }, now)
            == scan_response(
            store.page(prefix, limit as nat, cursor, now),
            store.more(prefix, limit as nat, cursor, now),
        ),
        limit > 1024 ==> response(store, RequestView::Scan { prefix, limit, cursor }, now)
            == scan_response(
            store.page(prefix, 1024, cursor, now),
            store.more(prefix, 1024, cursor, now),
        ),
{
}

/// The bytes of the answer to a scan: 0x10, the number of keys in two bytes, the keys in order
/// without a gap, each behind its length in two bytes, and 1 if there are more, else 0. The answer
/// is 0xFF instead if a key has more than 65,535 bytes or if that is more than 1,048,576 bytes in
/// all. Gives the place of each key, and of the last byte.
#[verifier::spinoff_prover]
pub proof fn law_scan_response(keys: Seq<Seq<char>>, more: bool) -> (at: Seq<int>)
    requires
        keys.len() <= 1024,
    ensures
        ({
            let scan = scan_response(keys, more);
            let n = keys.len() as int;
            let long = exists|i: int|
                0 <= i < n && encode_utf8(#[trigger] keys[i]).len() > 65_535;
            &&& at.len() == n + 1
            &&& at[0] == 3
            &&& forall|i: int|
                0 <= i < n ==> at[i + 1] == at[i] + 2 + encode_utf8(#[trigger] keys[i]).len()
            &&& long || at[n] + 1 > 1_048_576 ==> scan == seq![0xFFu8]
            &&& !long && at[n] + 1 <= 1_048_576 ==> {
                &&& scan.len() == at[n] + 1
                &&& scan[0] == 0x10
                &&& scan[1] * 0x100 + scan[2] == n
                &&& more ==> scan[at[n]] == 1
                &&& !more ==> scan[at[n]] == 0
                &&& forall|i: int|
                    0 <= i < n ==> {
                        let k = encode_utf8(#[trigger] keys[i]);
                        &&& scan[at[i]] * 0x100 + scan[at[i] + 1] == k.len()
                        &&& scan.subrange(at[i] + 2, at[i + 1]) == k
                    }
            }
        }),
{
    let scan = scan_response(keys, more);
    let n = keys.len() as int;
    let at = lemma_lengths_at(3, keys);
    let count = be16(keys.len());
    let flag = seq![
        if more {
            1u8
        } else {
            0u8
        },
    ];
    let head = seq![0x10u8] + count;
    let whole = head + text_fields(keys) + flag;
    law_written_numbers(keys.len());
    assert(whole.len() == at[n] + 1);
    if texts_fit(keys) {
        assert forall|i: int| 0 <= i < n implies encode_utf8(#[trigger] keys[i]).len()
            <= 65_535 by {
            law_text_field(keys[i]);
        }
        if at[n] + 1 <= 1_048_576 {
            assert(scan == whole);
            lemma_stands_whole(scan, whole);
            lemma_stands_concat(scan, 0, head + text_fields(keys), flag);
            lemma_stands_concat(scan, 0, head, text_fields(keys));
            assert(scan[1] == count[0] && scan[2] == count[1]);
            let places = lemma_texts_at(scan, 3, keys);
            lemma_same_places(keys, at, places);
        }
    } else {
        let i = choose|i: int| 0 <= i < keys.len() && !text_fits(#[trigger] keys[i]);
        assert(encode_utf8(keys[i]).len() > 65_535);
    }
    at
}

/// The places of text fields that stand one after the other from `pos` on.
proof fn lemma_lengths_at(pos: int, texts: Seq<Seq<char>>) -> (at: Seq<int>)
    ensures
        at.len() == texts.len() + 1,
        at[0] == pos,
        at[texts.len() as int] == pos + text_fields(texts).len(),
        forall|i: int|
            0 <= i < texts.len() ==> at[i + 1] == at[i] + 2 + encode_utf8(
                #[trigger] texts[i],
            ).len(),
    decreases texts.len(),
{
    if texts.len() == 0 {
        seq![pos]
    } else {
        let rest = texts.drop_last();
        let before = lemma_lengths_at(pos, rest);
        lemma_text_len(texts.last());
        let at = before.push(pos + text_fields(texts).len());
        assert forall|i: int| 0 <= i < texts.len() implies at[i + 1] == at[i] + 2 + encode_utf8(
            #[trigger] texts[i],
        ).len() by {
            if i < rest.len() {
                assert(rest[i] == texts[i]);
            }
        }
        at
    }
}

/// The lengths of text fields say where they stand.
proof fn lemma_same_places(texts: Seq<Seq<char>>, a: Seq<int>, b: Seq<int>)
    requires
        a.len() == texts.len() + 1,
        b.len() == texts.len() + 1,
        a[0] == b[0],
        forall|i: int|
            0 <= i < texts.len() ==> a[i + 1] == a[i] + 2 + encode_utf8(#[trigger] texts[i]).len()
                && b[i + 1] == b[i] + 2 + encode_utf8(texts[i]).len(),
    ensures
        a == b,
{
    lemma_same_place(texts, a, b, texts.len() as int);
    assert forall|i: int| 0 <= i < a.len() implies a[i] == b[i] by {
        lemma_same_place(texts, a, b, i);
    }
    assert(a =~= b);
}

/// The lengths of the text fields before one say where it stands.
proof fn lemma_same_place(texts: Seq<Seq<char>>, a: Seq<int>, b: Seq<int>, n: int)
    requires
        0 <= n <= texts.len(),
        a[0] == b[0],
        forall|i: int|
            0 <= i < texts.len() ==> a[i + 1] == a[i] + 2 + encode_utf8(#[trigger] texts[i]).len()
                && b[i + 1] == b[i] + 2 + encode_utf8(texts[i]).len(),
    ensures
        a[n] == b[n],
    decreases n,
{
    if n > 0 {
        lemma_same_place(texts, a, b, n - 1);
        assert(encode_utf8(texts[n - 1]).len() >= 0);
    }
}

/// Which requests can be answered by reading alone: PING, and GET, EXISTS, TTL, MGET and SCAN where
/// they would not remove an entry whose timestamp has been reached.
pub proof fn law_read_only(store: StoreView, request: RequestView, now: u64)
    ensures
        read_only(store, request, now) ==> after(store, request, now) == store,
        !(request is Put || request is PutTtl || request is Del || request is Save) && after(
            store,
            request,
            now,
        ) == store ==> read_only(store, request, now),
        request is Put || request is PutTtl || request is Del || request is Save ==> !read_only(
            store,
            request,
            now,
        ),
{
    match request {
        RequestView::Get { key } => lemma_touched(store, key, now),
        RequestView::Exists { key } => lemma_touched(store, key, now),
        RequestView::Ttl { key } => lemma_touched(store, key, now),
        RequestView::Mget { keys } => {
            let left = store.touched_all(keys, now);
            if left == store {
                assert forall|i: int| 0 <= i < keys.len() implies !store.is_stale(
                    #[trigger] keys[i],
                    now,
                ) by {
                    assert(keys.contains(keys[i]));
                    assert(left.entries.contains_key(keys[i]) == store.entries.contains_key(
                        keys[i],
                    ));
                }
            }
            if read_only(store, request, now) {
                assert(left.entries =~= store.entries);
            }
        },
        RequestView::Scan { prefix, limit, cursor } => {
            let left = store.purged(now);
            if left == store {
                assert forall|k: Seq<char>| !store.stale_keys(now).contains(k) by {
                    assert(left.entries.contains_key(k) == store.entries.contains_key(k));
                }
                assert(store.stale_keys(now) =~= Set::<Seq<char>>::empty());
            }
            if read_only(store, request, now) && limit > 0 {
                assert(left.entries =~= store.entries);
            }
        },
        _ => {},
    }
}

/// A read of a key leaves the store as it is exactly where it finds no expired entry.
proof fn lemma_touched(store: StoreView, key: Seq<char>, now: u64)
    ensures
        store.touched(key, now) == store <==> !store.is_stale(key, now),
{
    if store.is_stale(key, now) {
        assert(!store.without(key).entries.contains_key(key));
    }
}

} // verus!
