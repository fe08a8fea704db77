//! What a snapshot holds, said byte by byte, what can be saved, what is wrong with a file that cannot
//! be read, and what restoring does, said of the entries alone.
use crate::bytes::{be32, be64, from_be64};
use crate::crc::crc32_of;
use crate::entry::EntryView;
use crate::fields::{
    blob_field, lemma_blob_len, lemma_stands_concat, lemma_stands_whole, lemma_text_len, stands_at,
    text_field,
};
use crate::laws_store::{law_lists, law_views};
use crate::laws_wire::{
    law_blob_field, law_read_numbers, law_text_field, law_written_numbers, lemma_blob_at,
    lemma_text_at,
};
use crate::model::{lists, StoreView};
use crate::snapshot::{
    decoded, encode_snapshot, entries_bytes, entries_fit, entries_from, entries_kept, entry_at, entry_bytes,
    entry_fits, entry_kept, expired_among, expiry_number, first_misfit, law_snapshot_roundtrip,
    lemma_entries_prefix, lemma_entry_is_read, magic, misfit, restore_at, restored, save_outcome,
    snapshot_body, snapshot_bytes, SnapshotError, SnapshotManager,
};
use crate::store::{snapshot_views, ShardedKV, SnapshotEntry};
use vstd::prelude::*;
use vstd::utf8::{encode_utf8, valid_utf8};

verus! {

/// What the format has room for: keys of at most 65,535 bytes and values of at most 4,294,967,295
/// bytes. The first entry beyond that is named by the error, with the length that is too large.
pub proof fn law_snapshot_limits(entries: Seq<(Seq<char>, EntryView)>, i: int)
    ensures
        entries_fit(entries) <==> forall|j: int|
            0 <= j < entries.len() ==> encode_utf8((#[trigger] entries[j]).0).len() <= 65_535
                && entries[j].1.value.len() <= 4_294_967_295,
        first_misfit(entries, i) ==> {
            let (key, value) = (encode_utf8(entries[i].0), entries[i].1.value);
            &&& 0 <= i < entries.len()
            &&& forall|j: int|
                0 <= j < i ==> encode_utf8((#[trigger] entries[j]).0).len() <= 65_535
                    && entries[j].1.value.len() <= 4_294_967_295
            &&& key.len() > 65_535 || value.len() > 4_294_967_295
            &&& key.len() > 65_535 ==> misfit(entries[i]) == (SnapshotError::KeyTooLong {
                len: key.len() as usize,
            })
            &&& key.len() <= 65_535 ==> misfit(entries[i]) == (SnapshotError::ValueTooLong {
                len: value.len() as usize,
            })
        },
{
    assert forall|j: int| 0 <= j < entries.len() implies (entry_fits(#[trigger] entries[j]) <==> (
    encode_utf8(entries[j].0).len() <= 65_535 && entries[j].1.value.len() <= 4_294_967_295)) by {
        law_text_field(entries[j].0);
        law_blob_field(entries[j].1.value);
    }
    if first_misfit(entries, i) {
        assert forall|j: int| 0 <= j < i implies entry_fits(#[trigger] entries[j]) by {
            assert(entries.take(i)[j] == entries[j]);
        }
        law_text_field(entries[i].0);
    }
}

/// Whatever the format has room for is read back as it was: all entries whose keys have at most
/// 65,535 bytes and whose values have at most 4,294,967,295, in their order. A timestamp of 0 is the
/// one thing that is not told from its bytes.
pub proof fn law_snapshot_read_back(entries: Seq<(Seq<char>, EntryView)>)
    requires
        entries.len() <= 0xFFFF_FFFF_FFFF_FFFF,
        forall|j: int|
            0 <= j < entries.len() ==> encode_utf8((#[trigger] entries[j]).0).len() <= 65_535
                && entries[j].1.value.len() <= 4_294_967_295 && entries[j].1.expires_at != Some(
                0u64,
            ),
    ensures
        entries_fit(entries),
        decoded(snapshot_bytes(entries)) == Ok::<Seq<(Seq<char>, EntryView)>, SnapshotError>(
            entries,
        ),
{
    law_snapshot_limits(entries, 0);
    assert(entries_kept(entries)) by {
        assert forall|j: int| 0 <= j < entries.len() implies entry_kept(#[trigger] entries[j]) by {
            assert(entry_fits(entries[j]));
        }
    }
    law_snapshot_roundtrip(snapshot_bytes(entries), entries);
}

/// When a save succeeds: exactly where every key that has not expired has at most 65,535 bytes and
/// its value at most 4,294,967,295. Reading back what was saved then gives the entries that had not
/// expired, each once and no other, with their values and timestamps. Else the error names an entry
/// that has not expired, with the length of its key or its value that is too large.
pub proof fn law_save_succeeds(
    outcome: Result<Vec<u8>, SnapshotError>,
    store: StoreView,
    now: u64,
) -> (entries: Seq<(Seq<char>, EntryView)>)
    requires
        save_outcome(outcome, store, now),
    ensures
        outcome is Ok <==> forall|k: Seq<char>| #[trigger]
            store.entries.contains_key(k) && (match store.entries[k].expires_at {
                Some(at) => now < at,
                None => true,
            }) ==> encode_utf8(k).len() <= 65_535 && store.entries[k].value.len() <= 4_294_967_295,
        outcome matches Ok(data) ==> {
            &&& decoded(data@) == Ok::<Seq<(Seq<char>, EntryView)>, SnapshotError>(entries)
            &&& forall|i: int|
                0 <= i < entries.len() ==> {
                    let (k, entry) = #[trigger] entries[i];
                    &&& store.entries.contains_key(k)
                    &&& store.entries[k] == entry
                    &&& match entry.expires_at {
                        Some(at) => now < at,
                        None => true,
                    }
                }
            &&& forall|i: int, j: int|
                0 <= i < j < entries.len() ==> (#[trigger] entries[i]).0 != (
                #[trigger] entries[j]).0
            &&& forall|k: Seq<char>| #[trigger]
                store.entries.contains_key(k) && (match store.entries[k].expires_at {
                    Some(at) => now < at,
                    None => true,
                }) ==> exists|i: int| 0 <= i < entries.len() && (#[trigger] entries[i]).0 == k
        },
        outcome matches Err(e) ==> exists|k: Seq<char>|
            {
                let n = encode_utf8(k).len();
                let m = store.entries[k].value.len();
                &&& #[trigger] store.entries.contains_key(k)
                &&& match store.entries[k].expires_at {
                    Some(at) => now < at,
                    None => true,
                }
                &&& n > 65_535 || m > 4_294_967_295
                &&& e == if n > 65_535 {
                    SnapshotError::KeyTooLong { len: n as usize }
                } else {
                    SnapshotError::ValueTooLong { len: m as usize }
                }
            },
{
    assert forall|k: Seq<char>| entry_fits((k, #[trigger] store.entries[k])) <==> (encode_utf8(
        k,
    ).len() <= 65_535 && store.entries[k].value.len() <= 4_294_967_295) by {
        law_text_field(k);
        law_blob_field(store.entries[k].value);
    }
    match outcome {
        Ok(data) => {
            let live = store.purged(now).entries;
            let entries = choose|entries: Seq<(Seq<char>, EntryView)>|
                lists(entries, live) && data@ == #[trigger] snapshot_bytes(entries) && decoded(data@)
                    == Ok::<Seq<(Seq<char>, EntryView)>, SnapshotError>(entries);
            assert forall|k: Seq<char>| #[trigger]
                store.entries.contains_key(k) && (match store.entries[k].expires_at {
                    Some(at) => now < at,
                    None => true,
                }) implies {
                &&& encode_utf8(k).len() <= 65_535
                &&& store.entries[k].value.len() <= 4_294_967_295
                &&& exists|i: int| 0 <= i < entries.len() && (#[trigger] entries[i]).0 == k
            } by {
                assert(store.is_live(k, now));
                assert(live.contains_key(k));
                law_lists(entries, live, k);
            }
            law_lists(entries, live, seq![]);
            assert forall|i: int| 0 <= i < entries.len() implies {
                let (k, entry) = #[trigger] entries[i];
                &&& store.entries.contains_key(k)
                &&& store.entries[k] == entry
                &&& match entry.expires_at {
                    Some(at) => now < at,
                    None => true,
                }
            } by {
                assert(live.contains_key(entries[i].0));
            }
            entries
        },
        Err(e) => {
            let k = choose|k: Seq<char>| #[trigger]
                store.is_live(k, now) && !entry_fits((k, store.entries[k])) && e == misfit(
                    (k, store.entries[k]),
                );
            law_text_field(k);
            assert(store.entries.contains_key(k));
            seq![]
        },
    }
}

/// The bytes of an entry, where they stand.
proof fn lemma_entry_at(data: Seq<u8>, pos: int, entry: (Seq<char>, EntryView))
    requires
        stands_at(data, pos, entry_bytes(entry)),
        encode_utf8(entry.0).len() <= 65_535,
        entry.1.value.len() <= 4_294_967_295,
    ensures
        ({
            let key = encode_utf8(entry.0);
            let value = entry.1.value;
            let v = pos + 2 + key.len();
            let t = v + 4 + value.len();
            let expiry = match entry.1.expires_at {
                Some(at) => at,
                None => 0,
            };
            &&& t + 8 <= data.len()
            &&& t + 8 == pos + entry_bytes(entry).len()
            &&& data[pos] * 0x100 + data[pos + 1] == key.len()
            &&& data.subrange(pos + 2, v) == key
            &&& data[v] * 0x100_0000 + data[v + 1] * 0x1_0000 + data[v + 2] * 0x100 + data[v + 3]
                == value.len()
            &&& data.subrange(v + 4, t) == value
            &&& data[t] * 0x100_0000_0000_0000 + data[t + 1] * 0x1_0000_0000_0000 + data[t + 2]
                * 0x100_0000_0000 + data[t + 3] * 0x1_0000_0000 + data[t + 4] * 0x100_0000 + data[t
                + 5] * 0x1_0000 + data[t + 6] * 0x100 + data[t + 7] == expiry
        }),
{
    let value = entry.1.value;
    let number = expiry_number(entry.1.expires_at) as nat;
    let (a, b, c) = (text_field(entry.0), blob_field(value), be64(number));
    lemma_text_len(entry.0);
    lemma_blob_len(value);
    lemma_stands_concat(data, pos, a + b, c);
    lemma_stands_concat(data, pos, a, b);
    lemma_text_at(data, pos, entry.0);
    lemma_blob_at(data, pos + a.len(), value);
    law_written_numbers(number);
    let t = pos + a.len() + b.len();
    let found = data.subrange(t, t + 8);
    assert(found == c);
    assert(found[0] == data[t] && found[1] == data[t + 1] && found[2] == data[t + 2] && found[3]
        == data[t + 3] && found[4] == data[t + 4] && found[5] == data[t + 5] && found[6] == data[t
        + 6] && found[7] == data[t + 7]);
}

/// Where entries stand one after the other: the place of each of them, and of their end.
proof fn lemma_entries_at(data: Seq<u8>, pos: int, entries: Seq<(Seq<char>, EntryView)>) -> (at: Seq<
    int,
>)
    requires
        stands_at(data, pos, entries_bytes(entries)),
        forall|i: int|
            0 <= i < entries.len() ==> encode_utf8((#[trigger] entries[i]).0).len() <= 65_535
                && entries[i].1.value.len() <= 4_294_967_295,
    ensures
        at.len() == entries.len() + 1,
        at[0] == pos,
        at[entries.len() as int] == pos + entries_bytes(entries).len(),
        forall|i: int|
            0 <= i < entries.len() ==> {
                let key = encode_utf8((#[trigger] entries[i]).0);
                let value = entries[i].1.value;
                let v = at[i] + 2 + key.len();
                let t = v + 4 + value.len();
                let expiry = match entries[i].1.expires_at {
                    Some(at) => at,
                    None => 0,
                };
                &&& at[i + 1] == t + 8
                &&& data[at[i]] * 0x100 + data[at[i] + 1] == key.len()
                &&& data.subrange(at[i] + 2, v) == key
                &&& data[v] * 0x100_0000 + data[v + 1] * 0x1_0000 + data[v + 2] * 0x100 + data[v
                    + 3] == value.len()
                &&& data.subrange(v + 4, t) == value
                &&& data[t] * 0x100_0000_0000_0000 + data[t + 1] * 0x1_0000_0000_0000 + data[t + 2]
                    * 0x100_0000_0000 + data[t + 3] * 0x1_0000_0000 + data[t + 4] * 0x100_0000
                    + data[t + 5] * 0x1_0000 + data[t + 6] * 0x100 + data[t + 7] == expiry
            },
    decreases entries.len(),
{
    if entries.len() == 0 {
        seq![pos]
    } else {
        let rest = entries.drop_last();
        lemma_stands_concat(data, pos, entries_bytes(rest), entry_bytes(entries.last()));
        let before = lemma_entries_at(data, pos, rest);
        let at = before.push(pos + entries_bytes(entries).len());
        lemma_entry_at(data, pos + entries_bytes(rest).len(), entries.last());
        assert forall|i: int| 0 <= i < entries.len() implies {
            let key = encode_utf8((#[trigger] entries[i]).0);
            let value = entries[i].1.value;
            let v = at[i] + 2 + key.len();
            let t = v + 4 + value.len();
            let expiry = match entries[i].1.expires_at {
                Some(at) => at,
                None => 0,
            };
            &&& at[i + 1] == t + 8
            &&& data[at[i]] * 0x100 + data[at[i] + 1] == key.len()
            &&& data.subrange(at[i] + 2, v) == key
            &&& data[v] * 0x100_0000 + data[v + 1] * 0x1_0000 + data[v + 2] * 0x100 + data[v
                + 3] == value.len()
            &&& data.subrange(v + 4, t) == value
            &&& data[t] * 0x100_0000_0000_0000 + data[t + 1] * 0x1_0000_0000_0000 + data[t + 2]
                * 0x100_0000_0000 + data[t + 3] * 0x1_0000_0000 + data[t + 4] * 0x100_0000
                + data[t + 5] * 0x1_0000 + data[t + 6] * 0x100 + data[t + 7] == expiry
        } by {
            if i < rest.len() {
                assert(rest[i] == entries[i]);
            }
        }
        at
    }
}

/// The bytes of a snapshot: `KVR1`, the number of entries in eight bytes, and the entries in order
/// without a gap, each of them its key behind its length in two bytes, its value behind its length in
/// four bytes, and its timestamp in eight bytes, 0 where it has none. The last four bytes are the
/// CRC-32 of all between the first four and them. Gives the place of each entry, and of the CRC.
#[verifier::spinoff_prover]
pub proof fn law_snapshot_bytes(entries: Seq<(Seq<char>, EntryView)>) -> (at: Seq<int>)
    requires
        entries.len() <= 0xFFFF_FFFF_FFFF_FFFF,
        forall|j: int|
            0 <= j < entries.len() ==> encode_utf8((#[trigger] entries[j]).0).len() <= 65_535
                && entries[j].1.value.len() <= 4_294_967_295,
    ensures
        ({
            let data = snapshot_bytes(entries);
            let end = at[entries.len() as int];
            &&& data.len() == end + 4
            &&& data[0] == 0x4B && data[1] == 0x56 && data[2] == 0x52 && data[3] == 0x31
            &&& data[4] * 0x100_0000_0000_0000 + data[5] * 0x1_0000_0000_0000 + data[6]
                * 0x100_0000_0000 + data[7] * 0x1_0000_0000 + data[8] * 0x100_0000 + data[9]
                * 0x1_0000 + data[10] * 0x100 + data[11] == entries.len()
            &&& data[end] * 0x100_0000 + data[end + 1] * 0x1_0000 + data[end + 2] * 0x100
                + data[end + 3] == crc32_of(data.subrange(4, end))
            &&& at.len() == entries.len() + 1
            &&& at[0] == 12
            &&& forall|i: int|
                0 <= i < entries.len() ==> {
                    let key = encode_utf8((#[trigger] entries[i]).0);
                    let value = entries[i].1.value;
                    let v = at[i] + 2 + key.len();
                    let t = v + 4 + value.len();
                    let expiry = match entries[i].1.expires_at {
                        Some(at) => at,
                        None => 0,
                    };
                    &&& at[i + 1] == t + 8
                    &&& data[at[i]] * 0x100 + data[at[i] + 1] == key.len()
                    &&& data.subrange(at[i] + 2, v) == key
                    &&& data[v] * 0x100_0000 + data[v + 1] * 0x1_0000 + data[v + 2] * 0x100
                        + data[v + 3] == value.len()
                    &&& data.subrange(v + 4, t) == value
                    &&& data[t] * 0x100_0000_0000_0000 + data[t + 1] * 0x1_0000_0000_0000
                        + data[t + 2] * 0x100_0000_0000 + data[t + 3] * 0x1_0000_0000 + data[t + 4]
                        * 0x100_0000 + data[t + 5] * 0x1_0000 + data[t + 6] * 0x100 + data[t + 7]
                        == expiry
                }
        }),
{
    lemma_snapshot_parts(entries);
    lemma_entries_at(snapshot_bytes(entries), 12, entries)
}

/// Where the parts of a snapshot stand.
#[verifier::spinoff_prover]
proof fn lemma_snapshot_parts(entries: Seq<(Seq<char>, EntryView)>)
    requires
        entries.len() <= 0xFFFF_FFFF_FFFF_FFFF,
    ensures
        ({
            let data = snapshot_bytes(entries);
            let end = 12 + entries_bytes(entries).len() as int;
            &&& data.len() == end + 4
            &&& stands_at(data, 12, entries_bytes(entries))
            &&& data[0] == 0x4B && data[1] == 0x56 && data[2] == 0x52 && data[3] == 0x31
            &&& data[4] * 0x100_0000_0000_0000 + data[5] * 0x1_0000_0000_0000 + data[6]
                * 0x100_0000_0000 + data[7] * 0x1_0000_0000 + data[8] * 0x100_0000 + data[9]
                * 0x1_0000 + data[10] * 0x100 + data[11] == entries.len()
            &&& data[end] * 0x100_0000 + data[end + 1] * 0x1_0000 + data[end + 2] * 0x100
                + data[end + 3] == crc32_of(data.subrange(4, end))
        }),
{
    let data = snapshot_bytes(entries);
    let body = snapshot_body(entries);
    let count = be64(entries.len());
    let crc = be32(crc32_of(body) as nat);
    law_written_numbers(entries.len());
    law_written_numbers(crc32_of(body) as nat);
    lemma_stands_whole(data, data);
    lemma_stands_concat(data, 0, magic() + body, crc);
    lemma_stands_concat(data, 0, magic(), body);
    lemma_stands_concat(data, 4, count, entries_bytes(entries));
    assert(data.subrange(4, data.len() - 4) =~= body);
    lemma_ends(data, magic(), body, crc);
    lemma_count(data, count);
}

/// The first and the last four bytes around a body.
proof fn lemma_ends(data: Seq<u8>, first: Seq<u8>, body: Seq<u8>, last: Seq<u8>)
    requires
        first.len() == 4,
        last.len() == 4,
        data == first + body + last,
    ensures
        ({
            let end = 4int + body.len();
            &&& data[0] == first[0] && data[1] == first[1] && data[2] == first[2] && data[3]
                == first[3]
            &&& data[end] == last[0] && data[end + 1] == last[1] && data[end + 2] == last[2]
                && data[end + 3] == last[3]
        }),
{
}

/// The eight bytes from the fifth on.
proof fn lemma_count(data: Seq<u8>, count: Seq<u8>)
    requires
        count.len() == 8,
        stands_at(data, 4, count),
    ensures
        data[4] == count[0] && data[5] == count[1] && data[6] == count[2] && data[7] == count[3]
            && data[8] == count[4] && data[9] == count[5] && data[10] == count[6] && data[11]
            == count[7],
{
    let found = data.subrange(4, 12);
    assert(found[0] == data[4] && found[1] == data[5] && found[2] == data[6] && found[3] == data[7]
        && found[4] == data[8] && found[5] == data[9] && found[6] == data[10] && found[7]
        == data[11]);
}

/// What is wrong with a file before its entries are looked at: it has fewer than 16 bytes, it does
/// not begin with `KVR1`, or its last four bytes are not the CRC-32 of what stands between. A file
/// with none of this wrong is refused for none of it.
pub proof fn law_file_refused(data: Seq<u8>)
    ensures
        ({
            let end = data.len() - 4;
            let begins = data[0] == 0x4B && data[1] == 0x56 && data[2] == 0x52 && data[3] == 0x31;
            let agrees = data[end] * 0x100_0000 + data[end + 1] * 0x1_0000 + data[end + 2] * 0x100
                + data[end + 3] == crc32_of(data.subrange(4, end));
            let got = decoded(data);
            &&& data.len() < 16 ==> got == Err::<Seq<(Seq<char>, EntryView)>, SnapshotError>(
                SnapshotError::TooShort,
            )
            &&& data.len() >= 16 && !begins ==> got == Err::<
                Seq<(Seq<char>, EntryView)>,
                SnapshotError,
            >(SnapshotError::BadMagic)
            &&& data.len() >= 16 && begins && !agrees ==> got == Err::<
                Seq<(Seq<char>, EntryView)>,
                SnapshotError,
            >(SnapshotError::CrcMismatch)
            &&& data.len() >= 16 && begins && agrees ==> (got matches Err(e) ==> e
                != SnapshotError::TooShort && e != SnapshotError::BadMagic && e
                != SnapshotError::CrcMismatch)
        }),
{
    if data.len() >= 16 {
        let end = data.len() - 4;
        let body = data.subrange(4, end);
        let (head, tail) = (data.subrange(0, 4), data.subrange(end, data.len() as int));
        law_read_numbers(tail);
        assert(tail[0] == data[end] && tail[1] == data[end + 1] && tail[2] == data[end + 2]
            && tail[3] == data[end + 3]);
        assert(head[0] == data[0] && head[1] == data[1] && head[2] == data[2] && head[3]
            == data[3]);
        if head == magic() {
            assert(data[0] == 0x4B && data[1] == 0x56 && data[2] == 0x52 && data[3] == 0x31);
        } else if data[0] == 0x4B && data[1] == 0x56 && data[2] == 0x52 && data[3] == 0x31 {
            assert(head =~= magic());
        }
        lemma_entry_errors(body, 8, from_be64(body.subrange(0, 8)), seq![]);
    }
}

/// What can be wrong with the entries.
proof fn lemma_entry_errors(
    body: Seq<u8>,
    pos: int,
    n: nat,
    before: Seq<(Seq<char>, EntryView)>,
)
    ensures
        entries_from(body, pos, n, before) matches Err(e) ==> e != SnapshotError::TooShort && e
            != SnapshotError::BadMagic && e != SnapshotError::CrcMismatch,
    decreases n,
{
    if n > 0 {
        if let Ok((entry, next)) = entry_at(body, pos) {
            lemma_entry_errors(body, next, (n - 1) as nat, before.push(entry));
        }
    }
}

/// Reading goes on after the entries that stand at the start of a body.
proof fn lemma_reads_on(body: Seq<u8>, entries: Seq<(Seq<char>, EntryView)>, i: int, more: nat)
    requires
        0 <= i <= entries.len(),
        entries_kept(entries),
        stands_at(body, 8, entries_bytes(entries)),
    ensures
        entries_from(
            body,
            8int + entries_bytes(entries.take(i)).len(),
            (entries.len() - i + more) as nat,
            entries.take(i),
        ) == entries_from(body, 8int + entries_bytes(entries).len(), more, entries),
    decreases entries.len() - i,
{
    if i == entries.len() {
        assert(entries.take(i) =~= entries);
    } else {
        let here = entries.take(i);
        let next = entries.take(i + 1);
        assert(next.drop_last() =~= here);
        assert(here.push(entries[i]) =~= next);
        lemma_entries_prefix(body, entries, i + 1);
        lemma_stands_concat(body, 8, entries_bytes(here), entry_bytes(entries[i]));
        lemma_entry_is_read(body, 8int + entries_bytes(here).len(), entries[i]);
        lemma_reads_on(body, entries, i + 1, more);
    }
}

/// What is wrong with an entry that ends too early or has no proper key.
proof fn lemma_entry_broken(body: Seq<u8>, pos: int, tail: Seq<u8>)
    requires
        0 <= pos <= body.len(),
        tail == body.subrange(pos, body.len() as int),
    ensures
        ({
            let k = tail[0] * 0x100 + tail[1];
            let v = tail[2 + k] * 0x100_0000 + tail[3 + k] * 0x1_0000 + tail[4 + k] * 0x100
                + tail[5 + k];
            match entry_at(body, pos) {
                Err(SnapshotError::TruncatedKeyLength) => tail.len() < 2,
                Err(SnapshotError::TruncatedKey) => 2 <= tail.len() < 2 + k,
                Err(SnapshotError::InvalidUtf8Key) => 2 + k <= tail.len() && !valid_utf8(
                    tail.subrange(2, 2 + k),
                ),
                Err(SnapshotError::TruncatedValueLength) => 2 + k <= tail.len() < 6 + k
                    && valid_utf8(tail.subrange(2, 2 + k)),
                Err(SnapshotError::TruncatedValue) => 6 + k <= tail.len() < 6 + k + v && valid_utf8(
                    tail.subrange(2, 2 + k),
                ),
                Err(SnapshotError::TruncatedExpiry) => 6 + k + v <= tail.len() < 14 + k + v
                    && valid_utf8(tail.subrange(2, 2 + k)),
                Err(_) => false,
                Ok(_) => 14 + k + v <= tail.len() && valid_utf8(tail.subrange(2, 2 + k)),
            }
        }),
{
    if tail.len() >= 2 {
        let b = body.subrange(pos, pos + 2);
        law_read_numbers(b);
        assert(b[0] == tail[0] && b[1] == tail[1]);
        let k = tail[0] * 0x100 + tail[1];
        if 2 + k <= tail.len() {
            assert(body.subrange(pos + 2, pos + 2 + k) =~= tail.subrange(2, 2 + k));
        }
        if 6 + k <= tail.len() {
            let c = body.subrange(pos + 2 + k, pos + 6 + k);
            law_read_numbers(c);
            assert(c[0] == tail[2 + k] && c[1] == tail[3 + k] && c[2] == tail[4 + k] && c[3]
                == tail[5 + k]);
        }
    }
}

/// What is wrong with the entries of a file that is otherwise in order, and that begins with some
/// entries. Where it says that there are more than these, what follows has to hold one: the length
/// of its key, the key, which has to be valid UTF-8, the length of its value, the value, and its
/// timestamp, and the first of them that is not there is named. Where it says that there are no
/// more, nothing may follow; then these are the entries that are read.
#[verifier::spinoff_prover]
pub proof fn law_entries_refused(
    data: Seq<u8>,
    count: nat,
    entries: Seq<(Seq<char>, EntryView)>,
    tail: Seq<u8>,
)
    requires
        data.len() >= 16,
        data[0] == 0x4B && data[1] == 0x56 && data[2] == 0x52 && data[3] == 0x31,
        data[data.len() - 4] * 0x100_0000 + data[data.len() - 3] * 0x1_0000 + data[data.len() - 2]
            * 0x100 + data[data.len() - 1] == crc32_of(data.subrange(4, data.len() - 4)),
        data[4] * 0x100_0000_0000_0000 + data[5] * 0x1_0000_0000_0000 + data[6] * 0x100_0000_0000
            + data[7] * 0x1_0000_0000 + data[8] * 0x100_0000 + data[9] * 0x1_0000 + data[10] * 0x100
            + data[11] == count,
        data.subrange(12, data.len() - 4) == entries_bytes(entries) + tail,
        entries.len() <= count,
        forall|j: int|
            0 <= j < entries.len() ==> encode_utf8((#[trigger] entries[j]).0).len() <= 65_535
                && entries[j].1.value.len() <= 4_294_967_295 && entries[j].1.expires_at != Some(
                0u64,
            ),
    ensures
        ({
            let k = tail[0] * 0x100 + tail[1];
            let v = tail[2 + k] * 0x100_0000 + tail[3 + k] * 0x1_0000 + tail[4 + k] * 0x100
                + tail[5 + k];
            let text = valid_utf8(tail.subrange(2, 2 + k));
            let got = decoded(data);
            &&& count == entries.len() && tail.len() == 0 ==> got == Ok::<
                Seq<(Seq<char>, EntryView)>,
                SnapshotError,
            >(entries)
            &&& count == entries.len() && tail.len() > 0 ==> got is Err && got->Err_0
                == SnapshotError::TrailingBytes
            &&& count > entries.len() ==> {
                &&& tail.len() < 2 ==> got is Err && got->Err_0 == SnapshotError::TruncatedKeyLength
                &&& 2 <= tail.len() < 2 + k ==> got is Err && got->Err_0
                    == SnapshotError::TruncatedKey
                &&& 2 + k <= tail.len() && !text ==> got is Err && got->Err_0
                    == SnapshotError::InvalidUtf8Key
                &&& 2 + k <= tail.len() < 6 + k && text ==> got is Err && got->Err_0
                    == SnapshotError::TruncatedValueLength
                &&& 6 + k <= tail.len() < 6 + k + v && text ==> got is Err && got->Err_0
                    == SnapshotError::TruncatedValue
                &&& 6 + k + v <= tail.len() < 14 + k + v && text ==> got is Err && got->Err_0
                    == SnapshotError::TruncatedExpiry
            }
        }),
{
    let body = data.subrange(4, data.len() - 4);
    let pos = 8int + entries_bytes(entries).len();
    lemma_body_of(data, count);
    lemma_tail_stands(data, entries, tail);
    law_snapshot_limits(entries, 0);
    assert(entries_kept(entries)) by {
        assert forall|j: int| 0 <= j < entries.len() implies entry_kept(#[trigger] entries[j]) by {
            assert(entry_fits(entries[j]));
        }
    }
    assert(entries.take(0) =~= Seq::<(Seq<char>, EntryView)>::empty());
    lemma_reads_on(body, entries, 0, (count - entries.len()) as nat);
    lemma_rest_refused(body, pos, (count - entries.len()) as nat, entries, tail);
}

/// Where the entries that a file begins with stand, and what follows them.
proof fn lemma_tail_stands(data: Seq<u8>, entries: Seq<(Seq<char>, EntryView)>, tail: Seq<u8>)
    requires
        data.len() >= 16,
        data.subrange(12, data.len() - 4) == entries_bytes(entries) + tail,
    ensures
        ({
            let body = data.subrange(4, data.len() - 4);
            let pos = 8int + entries_bytes(entries).len();
            &&& stands_at(body, 8, entries_bytes(entries))
            &&& pos <= body.len()
            &&& tail == body.subrange(pos, body.len() as int)
        }),
{
    let body = data.subrange(4, data.len() - 4);
    let rest = data.subrange(12, data.len() - 4);
    let n = entries_bytes(entries).len() as int;
    assert(rest.len() == n + tail.len());
    assert(body.subrange(8, 8 + n) =~= rest.subrange(0, n));
    assert(rest.subrange(0, n) =~= entries_bytes(entries));
    assert(body.subrange(8 + n, body.len() as int) =~= rest.subrange(n, rest.len() as int));
    assert(rest.subrange(n, rest.len() as int) =~= tail);
}

/// What is wrong with what follows the entries that were read, where more of them should follow.
proof fn lemma_rest_refused(
    body: Seq<u8>,
    pos: int,
    more: nat,
    before: Seq<(Seq<char>, EntryView)>,
    tail: Seq<u8>,
)
    requires
        0 <= pos <= body.len(),
        tail == body.subrange(pos, body.len() as int),
    ensures
        ({
            let k = tail[0] * 0x100 + tail[1];
            let v = tail[2 + k] * 0x100_0000 + tail[3 + k] * 0x1_0000 + tail[4 + k] * 0x100
                + tail[5 + k];
            let text = valid_utf8(tail.subrange(2, 2 + k));
            let got = entries_from(body, pos, more, before);
            &&& more == 0 && tail.len() == 0 ==> got == Ok::<
                Seq<(Seq<char>, EntryView)>,
                SnapshotError,
            >(before)
            &&& more == 0 && tail.len() > 0 ==> got is Err && got->Err_0
                == SnapshotError::TrailingBytes
            &&& more > 0 ==> {
                &&& tail.len() < 2 ==> got is Err && got->Err_0 == SnapshotError::TruncatedKeyLength
                &&& 2 <= tail.len() < 2 + k ==> got is Err && got->Err_0
                    == SnapshotError::TruncatedKey
                &&& 2 + k <= tail.len() && !text ==> got is Err && got->Err_0
                    == SnapshotError::InvalidUtf8Key
                &&& 2 + k <= tail.len() < 6 + k && text ==> got is Err && got->Err_0
                    == SnapshotError::TruncatedValueLength
                &&& 6 + k <= tail.len() < 6 + k + v && text ==> got is Err && got->Err_0
                    == SnapshotError::TruncatedValue
                &&& 6 + k + v <= tail.len() < 14 + k + v && text ==> got is Err && got->Err_0
                    == SnapshotError::TruncatedExpiry
            }
        }),
{
    lemma_entry_broken(body, pos, tail);
}

/// What stands between the magic and the CRC of a file, and the number that it begins with.
proof fn lemma_body_of(data: Seq<u8>, count: nat)
    requires
        data.len() >= 16,
        data[0] == 0x4B && data[1] == 0x56 && data[2] == 0x52 && data[3] == 0x31,
        data[data.len() - 4] * 0x100_0000 + data[data.len() - 3] * 0x1_0000 + data[data.len() - 2]
            * 0x100 + data[data.len() - 1] == crc32_of(data.subrange(4, data.len() - 4)),
        data[4] * 0x100_0000_0000_0000 + data[5] * 0x1_0000_0000_0000 + data[6] * 0x100_0000_0000
            + data[7] * 0x1_0000_0000 + data[8] * 0x100_0000 + data[9] * 0x1_0000 + data[10] * 0x100
            + data[11] == count,
    ensures
        decoded(data) == entries_from(data.subrange(4, data.len() - 4), 8, count, seq![]),
{
    let end = data.len() - 4;
    let body = data.subrange(4, end);
    let (head, tail) = (data.subrange(0, 4), data.subrange(end, data.len() as int));
    let eight = body.subrange(0, 8);
    law_read_numbers(tail);
    law_read_numbers(eight);
    assert(tail[0] == data[end] && tail[1] == data[end + 1] && tail[2] == data[end + 2] && tail[3]
        == data[end + 3]);
    assert(head =~= magic());
    assert(eight[0] == data[4] && eight[1] == data[5] && eight[2] == data[6] && eight[3] == data[7]
        && eight[4] == data[8] && eight[5] == data[9] && eight[6] == data[10] && eight[7]
        == data[11]);
}

/// What restoring leaves: of the entries of a key that have not expired, the last; a key that has
/// none of these is as it was. The bound is not looked at and not changed.
pub proof fn law_restored(
    store: StoreView,
    entries: Seq<(Seq<char>, EntryView)>,
    now: u64,
    i: int,
    key: Seq<char>,
)
    ensures
        ({
            let left = restored(store, entries, now);
            &&& left.max_entries == store.max_entries
            &&& 0 <= i < entries.len() && (match entries[i].1.expires_at {
                Some(at) => now < at,
                None => true,
            }) && (forall|j: int|
                i < j < entries.len() && (#[trigger] entries[j]).0 == entries[i].0 ==> (
                entries[j].1.expires_at matches Some(at) && at <= now))
                ==> left.entries.contains_key(entries[i].0) && left.entries[entries[i].0]
                == entries[i].1
            &&& (forall|j: int|
                0 <= j < entries.len() && (#[trigger] entries[j]).0 == key ==> (
                entries[j].1.expires_at matches Some(at) && at <= now))
                ==> left.entries.contains_key(key) == store.entries.contains_key(key) && (
            store.entries.contains_key(key) ==> left.entries[key] == store.entries[key])
        }),
    decreases entries.len(),
{
    if entries.len() > 0 {
        let rest = entries.drop_last();
        let last = entries.last();
        law_restored(store, rest, now, i, key);
        assert(entries[entries.len() - 1] == last);
        assert(forall|j: int| 0 <= j < rest.len() ==> #[trigger] rest[j] == entries[j]);
    }
}

/// How many entries restoring skips: one for each entry whose timestamp has been reached.
pub proof fn law_skipped(
    entries: Seq<(Seq<char>, EntryView)>,
    entry: (Seq<char>, EntryView),
    now: u64,
)
    ensures
        expired_among(Seq::empty(), now).len() == 0,
        (entry.1.expires_at matches Some(at) && at <= now) ==> expired_among(
            entries.push(entry),
            now,
        ).len() == expired_among(entries, now).len() + 1,
        !(entry.1.expires_at matches Some(at) && at <= now) ==> expired_among(
            entries.push(entry),
            now,
        ).len() == expired_among(entries, now).len(),
{
    reveal(Seq::filter);
    assert(entries.push(entry).drop_last() =~= entries);
}

/// A call of [`SnapshotManager::save_snapshot_at`], and one of [`SnapshotManager::load`] on what it
/// gave: the save succeeds exactly where every key whose timestamp, if it has one, has not been
/// reached has at most 65,535 bytes and its value at most 4,294,967,295; and what is loaded is then
/// exactly those keys, each once, with their values and timestamps.
pub proof fn law_call_save_and_load(
    manager: &SnapshotManager,
    store: &ShardedKV,
    now: u64,
    saved: Result<Vec<u8>, SnapshotError>,
    data: &[u8],
    loaded: Result<Vec<SnapshotEntry>, SnapshotError>,
)
    requires
        call_ensures(SnapshotManager::save_snapshot_at, (manager, store, now), saved),
        call_ensures(SnapshotManager::load, (data,), loaded),
    ensures
        saved is Ok <==> forall|k: Seq<char>| #[trigger]
            store@.entries.contains_key(k) && (match store@.entries[k].expires_at {
                Some(at) => now < at,
                None => true,
            }) ==> encode_utf8(k).len() <= 65_535 && store@.entries[k].value.len()
                <= 4_294_967_295,
        saved is Ok && saved->Ok_0@ == data@ ==> {
            let entries = loaded->Ok_0@;
            &&& loaded is Ok
            &&& forall|i: int|
                0 <= i < entries.len() ==> {
                    let (key, value, expires_at) = #[trigger] entries[i];
                    &&& store@.entries.contains_key(key@)
                    &&& store@.entries[key@].value == value@
                    &&& store@.entries[key@].expires_at == expires_at
                    &&& match expires_at {
                        Some(at) => now < at,
                        None => true,
                    }
                }
            &&& forall|i: int, j: int|
                0 <= i < j < entries.len() ==> (#[trigger] entries[i]).0@ != (
                #[trigger] entries[j]).0@
            &&& forall|k: Seq<char>| #[trigger]
                store@.entries.contains_key(k) && (match store@.entries[k].expires_at {
                    Some(at) => now < at,
                    None => true,
                }) ==> exists|i: int| 0 <= i < entries.len() && (#[trigger] entries[i]).0@ == k
        },
{
    let views = law_save_succeeds(saved, store@, now);
    if saved is Ok && saved->Ok_0@ == data@ {
        let entries = loaded->Ok_0@;
        assert(views == snapshot_views(entries));
        assert(views.len() == entries.len());
        assert forall|i: int| 0 <= i < entries.len() implies views[i].0 == (
        #[trigger] entries[i]).0@ && views[i].1.value == entries[i].1@ && views[i].1.expires_at
            == entries[i].2 by {
            law_views(seq![], seq![], entries, i);
        }
        assert forall|k: Seq<char>| #[trigger]
            store@.entries.contains_key(k) && (match store@.entries[k].expires_at {
                Some(at) => now < at,
                None => true,
            }) implies exists|i: int|
            0 <= i < entries.len() && (#[trigger] entries[i]).0@ == k by {
            let i = choose|i: int| 0 <= i < views.len() && (#[trigger] views[i]).0 == k;
            assert(entries[i].0@ == k);
        }
        assert forall|i: int, j: int| 0 <= i < j < entries.len() implies (
        #[trigger] entries[i]).0@ != (#[trigger] entries[j]).0@ by {
            assert(views[i].0 != views[j].0);
        }
    }
}

/// A call of [`encode_snapshot`], and one of [`SnapshotManager::load`] on what it gave: encoding
/// succeeds exactly where every key has at most 65,535 bytes and every value at most 4,294,967,295,
/// and what is loaded is then the same entries in the same order, unless one has the timestamp 0.
pub proof fn law_call_encode_and_load(
    entries: &Vec<SnapshotEntry>,
    encoded: Result<Vec<u8>, SnapshotError>,
    data: &[u8],
    loaded: Result<Vec<SnapshotEntry>, SnapshotError>,
)
    requires
        entries@.len() <= 0xFFFF_FFFF_FFFF_FFFF,
        call_ensures(encode_snapshot, (entries,), encoded),
        call_ensures(SnapshotManager::load, (data,), loaded),
    ensures
        encoded is Ok <==> forall|i: int|
            0 <= i < entries@.len() ==> encode_utf8((#[trigger] entries@[i]).0@).len() <= 65_535
                && entries@[i].1@.len() <= 4_294_967_295,
        encoded is Ok && encoded->Ok_0@ == data@ && (forall|i: int|
            0 <= i < entries@.len() ==> (#[trigger] entries@[i]).2 != Some(0u64)) ==> {
            &&& loaded is Ok
            &&& loaded->Ok_0@.len() == entries@.len()
            &&& forall|i: int|
                0 <= i < entries@.len() ==> {
                    let (key, value, expires_at) = #[trigger] loaded->Ok_0@[i];
                    &&& key@ == entries@[i].0@
                    &&& value@ == entries@[i].1@
                    &&& expires_at == entries@[i].2
                }
        },
{
    let views = snapshot_views(entries@);
    assert(views.len() == entries@.len());
    assert forall|i: int| 0 <= i < entries@.len() implies (#[trigger] views[i]).0 == entries@[i].0@
        && views[i].1.value == entries@[i].1@ && views[i].1.expires_at == entries@[i].2 by {
        law_views(seq![], seq![], entries@, i);
    }
    assert(forall|i: int| 0 <= i < entries@.len() ==> views[i].0 == (#[trigger] entries@[i]).0@);
    law_snapshot_limits(views, 0);
    match encoded {
        Err(e) => {
            let i = choose|i: int| #[trigger] first_misfit(views, i) && e == misfit(views[i]);
            law_snapshot_limits(views, i);
            assert(views[i].0 == entries@[i].0@);
        },
        Ok(bytes) => {
            assert forall|i: int| 0 <= i < entries@.len() implies encode_utf8(
                (#[trigger] entries@[i]).0@,
            ).len() <= 65_535 && entries@[i].1@.len() <= 4_294_967_295 by {
                assert(views[i].0 == entries@[i].0@);
            }
            if bytes@ == data@ && (forall|i: int|
                0 <= i < entries@.len() ==> (#[trigger] entries@[i]).2 != Some(0u64)) {
                assert forall|i: int| 0 <= i < views.len() implies (
                #[trigger] views[i]).1.expires_at != Some(0u64) by {
                    assert(entries@[i].2 != Some(0u64));
                }
                law_snapshot_read_back(views);
                let got = loaded->Ok_0@;
                assert(snapshot_views(got) == views);
                assert(got.len() == views.len());
                assert forall|i: int| 0 <= i < entries@.len() implies ({
                    let (key, value, expires_at) = #[trigger] got[i];
                    &&& key@ == entries@[i].0@
                    &&& value@ == entries@[i].1@
                    &&& expires_at == entries@[i].2
                }) by {
                    law_views(seq![], seq![], got, i);
                    assert(views[i].0 == entries@[i].0@);
                }
            }
        },
    }
}

/// A call of [`restore_at`]: of the entries of a key whose timestamps, if they have one, have not
/// been reached, the last is put back; a key that has none of these is as it was. The entries that
/// are put back and those that are skipped are all of them.
pub proof fn law_call_restore(
    store: &mut ShardedKV,
    entries: Vec<SnapshotEntry>,
    now: u64,
    counts: (usize, usize),
    i: int,
    key: Seq<char>,
)
    requires
        call_ensures(restore_at, (store, entries, now), counts),
    ensures
        ({
            let (was, is) = (old(store)@, final(store)@);
            let k = entries@[i].0@;
            &&& counts.0 + counts.1 == entries@.len()
            &&& is.max_entries == was.max_entries
            &&& 0 <= i < entries@.len() && (match entries@[i].2 {
                Some(at) => now < at,
                None => true,
            }) && (forall|j: int|
                i < j < entries@.len() && (#[trigger] entries@[j]).0@ == k ==> (
                entries@[j].2 matches Some(at) && at <= now)) ==> is.entries.contains_key(k)
                && is.entries[k] == (EntryView {
                value: entries@[i].1@,
                expires_at: entries@[i].2,
            })
            &&& (forall|j: int|
                0 <= j < entries@.len() && (#[trigger] entries@[j]).0@ == key ==> (
                entries@[j].2 matches Some(at) && at <= now)) ==> is.entries.contains_key(key)
                == was.entries.contains_key(key) && (was.entries.contains_key(key)
                ==> is.entries[key] == was.entries[key])
        }),
{
    let views = snapshot_views(entries@);
    assert(views.len() == entries@.len());
    assert forall|j: int| 0 <= j < views.len() implies (#[trigger] views[j]).0 == entries@[j].0@
        && views[j].1.value == entries@[j].1@ && views[j].1.expires_at == entries@[j].2 by {
        law_views(seq![], seq![], entries@, j);
    }
    law_restored(old(store)@, views, now, i, key);
}

} // verus!
