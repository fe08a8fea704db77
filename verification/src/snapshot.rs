//! Snapshots: the file format, and restoring a store from one.
//!
//! A snapshot is the magic bytes `KVR1`, the number of entries in eight bytes, the entries, and
//! in four bytes the CRC-32 of all that stands between the magic and the CRC. An entry is its key
//! as a text field, its value as a blob field, and its expiry timestamp in eight bytes, 0 for an
//! entry that does not expire.
use crate::bytes::{
    be16, be32, be64, bytes_equal, copy_bytes, from_be16, from_be32, from_be64, lemma_be16, lemma_be32,
    lemma_be64, push_bytes, push_u32, push_u64, read_u16, read_u32, read_u64,
};
use crate::clock::now_ms;
use crate::crc::{crc32, crc32_of, law_crc_detects_one_changed_byte};
use crate::entry::EntryView;
use crate::fields::{
    blob_field, blob_fits, lemma_blob_len, lemma_stands_concat, lemma_stands_whole, lemma_text_len,
    push_blob, push_text, stands_at, text_field, text_fits,
};
use crate::model::{keys_of, lists, StoreView};
use crate::store::{snapshot_view, snapshot_views, ShardedKV, SnapshotEntry};
use crate::text::text_from_bytes;
use vstd::prelude::*;
use vstd::slice::slice_subrange;
use vstd::string::StringExecFns;
use vstd::utf8::{
    decode_utf8, decode_utf8_encode_utf8, encode_utf8, encode_utf8_decode_utf8,
    encode_utf8_valid_utf8, valid_utf8,
};

verus! {

/// The first four bytes of a snapshot: `KVR1`.
pub open spec fn magic() -> Seq<u8> {
    seq![0x4Bu8, 0x56u8, 0x52u8, 0x31u8]
}

/// Why a snapshot could not be written or read.
#[derive(Debug, Clone, Copy, PartialEq, Eq, Structural)]
pub enum SnapshotError {
    /// A key is too long for the format.
    KeyTooLong { len: usize },
    /// A value is too long for the format.
    ValueTooLong { len: usize },
    /// The file is shorter than that of an empty store.
    TooShort,
    /// The file does not begin with the magic bytes.
    BadMagic,
    /// The CRC does not match.
    CrcMismatch,
    /// The entries end within the length of a key.
    TruncatedKeyLength,
    /// The entries end within a key.
    TruncatedKey,
    /// A key is not valid UTF-8.
    InvalidUtf8Key,
    /// The entries end within the length of a value.
    TruncatedValueLength,
    /// The entries end within a value.
    TruncatedValue,
    /// The entries end within an expiry timestamp.
    TruncatedExpiry,
    /// More bytes follow the last entry.
    TrailingBytes,
}

/// The number that stands for an expiry timestamp.
pub open spec fn expiry_number(expires_at: Option<u64>) -> u64 {
    match expires_at {
        Some(at) => at,
        None => 0,
    }
}

/// The expiry timestamp that a number stands for.
pub open spec fn expiry_of(number: u64) -> Option<u64> {
    if number == 0 {
        None
    } else {
        Some(number)
    }
}

/// The bytes of an entry.
pub open spec fn entry_bytes(entry: (Seq<char>, EntryView)) -> Seq<u8> {
    text_field(entry.0) + blob_field(entry.1.value) + be64(expiry_number(entry.1.expires_at) as nat)
}

/// The bytes of some entries, one after the other.
pub open spec fn entries_bytes(entries: Seq<(Seq<char>, EntryView)>) -> Seq<u8>
    decreases entries.len(),
{
    if entries.len() == 0 {
        seq![]
    } else {
        entries_bytes(entries.drop_last()) + entry_bytes(entries.last())
    }
}

/// What stands between the magic and the CRC.
pub open spec fn snapshot_body(entries: Seq<(Seq<char>, EntryView)>) -> Seq<u8> {
    be64(entries.len()) + entries_bytes(entries)
}

/// The magic, what stands between the magic and the CRC, and the CRC.
pub open spec fn sealed(body: Seq<u8>) -> Seq<u8> {
    magic() + body + be32(crc32_of(body) as nat)
}

/// The snapshot of some entries.
pub open spec fn snapshot_bytes(entries: Seq<(Seq<char>, EntryView)>) -> Seq<u8> {
    sealed(snapshot_body(entries))
}

/// Whether an entry is short enough for the format.
pub open spec fn entry_fits(entry: (Seq<char>, EntryView)) -> bool {
    text_fits(entry.0) && blob_fits(entry.1.value)
}

/// The error for an entry that is not short enough for the format.
pub open spec fn misfit(entry: (Seq<char>, EntryView)) -> SnapshotError {
    if !text_fits(entry.0) {
        SnapshotError::KeyTooLong { len: encode_utf8(entry.0).len() as usize }
    } else {
        SnapshotError::ValueTooLong { len: entry.1.value.len() as usize }
    }
}

/// Whether all of some entries are short enough for the format.
pub open spec fn entries_fit(entries: Seq<(Seq<char>, EntryView)>) -> bool {
    forall|i: int| 0 <= i < entries.len() ==> entry_fits(#[trigger] entries[i])
}

/// Whether entry `i` is the first that is not short enough for the format.
pub open spec fn first_misfit(entries: Seq<(Seq<char>, EntryView)>, i: int) -> bool {
    0 <= i < entries.len() && !entry_fits(entries[i]) && entries_fit(entries.take(i))
}

/// The number in two bytes at `pos`.
pub open spec fn number16(body: Seq<u8>, pos: int) -> int {
    from_be16(body.subrange(pos, pos + 2)) as int
}

/// The number in four bytes at `pos`.
pub open spec fn number32(body: Seq<u8>, pos: int) -> int {
    from_be32(body.subrange(pos, pos + 4)) as int
}

/// The number in eight bytes at `pos`.
pub open spec fn number64(body: Seq<u8>, pos: int) -> u64 {
    from_be64(body.subrange(pos, pos + 8)) as u64
}

/// Reads the entry at `pos`, part after part: the entry and the position after it, or the first
/// thing that is wrong with it.
pub open spec fn entry_at(body: Seq<u8>, pos: int) -> Result<
    ((Seq<char>, EntryView), int),
    SnapshotError,
> {
    let key_start = pos + 2;
    let key_end = key_start + number16(body, pos);
    let value_start = key_end + 4;
    let value_end = value_start + number32(body, key_end);
    if key_start > body.len() {
        Err(SnapshotError::TruncatedKeyLength)
    } else if key_end > body.len() {
        Err(SnapshotError::TruncatedKey)
    } else if !valid_utf8(body.subrange(key_start, key_end)) {
        Err(SnapshotError::InvalidUtf8Key)
    } else if value_start > body.len() {
        Err(SnapshotError::TruncatedValueLength)
    } else if value_end > body.len() {
        Err(SnapshotError::TruncatedValue)
    } else if value_end + 8 > body.len() {
        Err(SnapshotError::TruncatedExpiry)
    } else {
        let key = decode_utf8(body.subrange(key_start, key_end));
        let value = body.subrange(value_start, value_end);
        let expires_at = expiry_of(number64(body, value_end));
        Ok(((key, EntryView { value, expires_at }), value_end + 8))
    }
}

/// Reads `n` entries from `pos` on, after those that were read before, up to the end.
pub open spec fn entries_from(
    body: Seq<u8>,
    pos: int,
    n: nat,
    before: Seq<(Seq<char>, EntryView)>,
) -> Result<Seq<(Seq<char>, EntryView)>, SnapshotError>
    decreases n,
{
    if n == 0 {
        if pos == body.len() {
            Ok(before)
        } else {
            Err(SnapshotError::TrailingBytes)
        }
    } else {
        match entry_at(body, pos) {
            Ok((entry, next)) => entries_from(body, next, (n - 1) as nat, before.push(entry)),
            Err(e) => Err(e),
        }
    }
}

/// What stands between the magic and the CRC of a snapshot, or the first thing that is wrong with
/// its length, its magic or its CRC.
pub open spec fn unsealed(data: Seq<u8>) -> Result<Seq<u8>, SnapshotError> {
    let body = data.subrange(4, data.len() - 4);
    if data.len() < 16 {
        Err(SnapshotError::TooShort)
    } else if data.subrange(0, 4) != magic() {
        Err(SnapshotError::BadMagic)
    } else if from_be32(data.subrange(data.len() - 4, data.len() as int)) != crc32_of(body) {
        Err(SnapshotError::CrcMismatch)
    } else {
        Ok(body)
    }
}

/// What reading a snapshot gives: its entries, or the first thing that is wrong with it.
pub open spec fn decoded(data: Seq<u8>) -> Result<Seq<(Seq<char>, EntryView)>, SnapshotError> {
    match unsealed(data) {
        Ok(body) => entries_from(body, 8, from_be64(body.subrange(0, 8)), seq![]),
        Err(e) => Err(e),
    }
}

/// The bytes of the first entries, after one more of them that is short enough for the format.
proof fn lemma_one_more_entry(entries: Seq<(Seq<char>, EntryView)>, i: int, head: Seq<u8>)
    requires
        0 <= i < entries.len(),
        entries_fit(entries.take(i)),
        entry_fits(entries[i]),
    ensures
        entries_fit(entries.take(i + 1)),
        head + entries_bytes(entries.take(i + 1)) == head + entries_bytes(entries.take(i))
            + entry_bytes(entries[i]),
{
    let here = entries.take(i);
    let next = entries.take(i + 1);
    assert(next.drop_last() =~= here);
    assert(next.last() == entries[i]);
    assert(head + entries_bytes(next) =~= head + entries_bytes(here) + entry_bytes(entries[i]));
    assert forall|j: int| 0 <= j < next.len() implies entry_fits(#[trigger] next[j]) by {
        if j < i {
            assert(entry_fits(here[j]));
        }
    }
}

/// Writes a snapshot of some entries. Fails on the first entry that is too long for the format.
pub fn encode_snapshot(entries: &Vec<SnapshotEntry>) -> (data: Result<Vec<u8>, SnapshotError>)
    ensures
        match data {
            Ok(data) => entries_fit(snapshot_views(entries@)) && data@ == snapshot_bytes(
                snapshot_views(entries@),
            ),
            Err(e) => exists|i: int| #[trigger]
                first_misfit(snapshot_views(entries@), i) && e == misfit(
                    snapshot_views(entries@)[i],
                ),
        },
{
    let ghost all = snapshot_views(entries@);
    let mut body: Vec<u8> = Vec::new();
    push_u64(&mut body, entries.len() as u64);
    proof {
        assert(all.take(0) =~= Seq::<(Seq<char>, EntryView)>::empty());
        assert(body@ =~= be64(all.len()) + entries_bytes(all.take(0)));
    }
    let mut i: usize = 0;
    while i < entries.len()
        invariant
            i <= entries@.len(),
            all == snapshot_views(entries@),
            entries_fit(all.take(i as int)),
            body@ == be64(all.len()) + entries_bytes(all.take(i as int)),
        decreases entries@.len() - i,
    {
        let ghost before = body@;
        let entry = &entries[i];
        assert(all[i as int] == snapshot_view(*entry));
        let key_len: usize = entry.0.as_str().as_bytes().len();
        if key_len > u16::MAX as usize {
            assert(first_misfit(all, i as int));
            return Err(SnapshotError::KeyTooLong { len: key_len });
        }
        if entry.1.len() > u32::MAX as usize {
            assert(first_misfit(all, i as int));
            return Err(SnapshotError::ValueTooLong { len: entry.1.len() });
        }
        push_text(&mut body, entry.0.as_str());
        push_blob(&mut body, entry.1.as_slice());
        push_u64(
            &mut body,
            match entry.2 {
                Some(at) => at,
                None => 0,
            },
        );
        proof {
            assert(body@ =~= before + entry_bytes(all[i as int]));
            lemma_one_more_entry(all, i as int, be64(all.len()));
        }
        i += 1;
    }
    assert(all.take(i as int) =~= all);
    let crc: u32 = crc32(body.as_slice());
    let mut data: Vec<u8> = Vec::with_capacity(body.len());
    data.push(0x4B);
    data.push(0x56);
    data.push(0x52);
    data.push(0x31);
    assert(data@ =~= magic());
    push_bytes(&mut data, body.as_slice());
    push_u32(&mut data, crc);
    assert(data@ =~= snapshot_bytes(all));
    Ok(data)
}

/// Reads the entry at `pos`.
fn read_entry(body: &[u8], pos: usize) -> (entry: Result<(SnapshotEntry, usize), SnapshotError>)
    requires
        pos <= body@.len(),
    ensures
        match entry {
            Ok((entry, next)) => entry_at(body@, pos as int) == Ok::<
                ((Seq<char>, EntryView), int),
                SnapshotError,
            >((snapshot_view(entry), next as int)) && pos + 14 <= next <= body@.len(),
            Err(e) => entry_at(body@, pos as int) == Err::<
                ((Seq<char>, EntryView), int),
                SnapshotError,
            >(e),
        },
{
    assert(body@.len() == body.len());
    if body.len() - pos < 2 {
        return Err(SnapshotError::TruncatedKeyLength);
    }
    let key_start: usize = pos + 2;
    let key_len: usize = read_u16(body, pos) as usize;
    if body.len() - key_start < key_len {
        return Err(SnapshotError::TruncatedKey);
    }
    let key_end: usize = key_start + key_len;
    let key = match text_from_bytes(slice_subrange(body, key_start, key_end)) {
        Some(key) => key,
        None => {
            return Err(SnapshotError::InvalidUtf8Key);
        },
    };
    if body.len() - key_end < 4 {
        return Err(SnapshotError::TruncatedValueLength);
    }
    let value_start: usize = key_end + 4;
    let value_len: u32 = read_u32(body, key_end);
    if ((body.len() - value_start) as u64) < value_len as u64 {
        return Err(SnapshotError::TruncatedValue);
    }
    let value_end: usize = value_start + value_len as usize;
    let value = copy_bytes(slice_subrange(body, value_start, value_end));
    if body.len() - value_end < 8 {
        return Err(SnapshotError::TruncatedExpiry);
    }
    let number: u64 = read_u64(body, value_end);
    let expires_at = if number == 0 {
        None
    } else {
        Some(number)
    };
    Ok(((key, value, expires_at), value_end + 8))
}

/// Whether an entry can be told from its bytes: a timestamp of 0 would read as none.
pub open spec fn entry_kept(entry: (Seq<char>, EntryView)) -> bool {
    entry_fits(entry) && entry.1.expires_at != Some(0u64)
}

/// Whether all of some entries can be told from their bytes.
pub open spec fn entries_kept(entries: Seq<(Seq<char>, EntryView)>) -> bool {
    forall|i: int| 0 <= i < entries.len() ==> entry_kept(#[trigger] entries[i])
}

/// Where the bytes of an entry stand, the entry is read.
pub proof fn lemma_entry_is_read(body: Seq<u8>, pos: int, entry: (Seq<char>, EntryView))
    requires
        entry_kept(entry),
        stands_at(body, pos, entry_bytes(entry)),
    ensures
        entry_at(body, pos) == Ok::<((Seq<char>, EntryView), int), SnapshotError>(
            (entry, pos + entry_bytes(entry).len()),
        ),
{
    let bytes = encode_utf8(entry.0);
    let value = entry.1.value;
    let number = expiry_number(entry.1.expires_at);
    let head = text_field(entry.0) + blob_field(value);
    let key_end = pos + text_field(entry.0).len();
    let value_end = key_end + blob_field(value).len();
    lemma_stands_concat(body, pos, head, be64(number as nat));
    lemma_stands_concat(body, pos, text_field(entry.0), blob_field(value));
    lemma_stands_concat(body, pos, be16(bytes.len()), bytes);
    lemma_stands_concat(body, key_end, be32(value.len()), value);
    lemma_be16(bytes.len(), be16(bytes.len()));
    lemma_be32(value.len(), be32(value.len()));
    lemma_be64(number as nat, be64(number as nat));
    encode_utf8_valid_utf8(entry.0);
    encode_utf8_decode_utf8(entry.0);
    assert(number16(body, pos) == bytes.len());
    assert(body.subrange(pos + 2, pos + 2 + bytes.len()) == bytes);
    assert(number32(body, key_end) == value.len());
    assert(body.subrange(key_end + 4, key_end + 4 + value.len()) == value);
    assert(number64(body, value_end) == number);
    assert(expiry_of(number) == entry.1.expires_at);
}

/// Where an entry is read, its bytes stand.
proof fn lemma_read_entry_stands(body: Seq<u8>, pos: int)
    requires
        0 <= pos <= body.len(),
    ensures
        entry_at(body, pos) matches Ok((entry, next)) ==> entry_kept(entry) && stands_at(
            body,
            pos,
            entry_bytes(entry),
        ) && next == pos + entry_bytes(entry).len(),
{
    if let Ok((entry, next)) = entry_at(body, pos) {
        let key_start = pos + 2;
        let key_end = key_start + number16(body, pos);
        let value_start = key_end + 4;
        let value_end = value_start + number32(body, key_end);
        let bytes = body.subrange(key_start, key_end);
        let value = body.subrange(value_start, value_end);
        let number = number64(body, value_end);
        lemma_be16(0, body.subrange(pos, key_start));
        lemma_be32(0, body.subrange(key_end, value_start));
        lemma_be64(0, body.subrange(value_end, value_end + 8));
        decode_utf8_encode_utf8(bytes);
        assert(encode_utf8(entry.0) == bytes);
        lemma_stands_concat(body, pos, be16(bytes.len()), bytes);
        lemma_stands_concat(body, key_end, be32(value.len()), value);
        lemma_text_len(entry.0);
        lemma_blob_len(value);
        let head = text_field(entry.0) + blob_field(value);
        lemma_stands_concat(body, pos, text_field(entry.0), blob_field(value));
        lemma_stands_concat(body, pos, head, be64(number as nat));
    }
}

/// What is read as the entries stands in the body.
proof fn lemma_read_entries_stand(
    body: Seq<u8>,
    pos: int,
    n: nat,
    before: Seq<(Seq<char>, EntryView)>,
)
    requires
        stands_at(body, 8, entries_bytes(before)),
        pos == 8 + entries_bytes(before).len(),
        entries_kept(before),
    ensures
        entries_from(body, pos, n, before) matches Ok(entries) ==> entries_kept(entries)
            && entries.len() == before.len() + n && stands_at(body, 8, entries_bytes(entries)) && 8
            + entries_bytes(entries).len() == body.len(),
    decreases n,
{
    if n > 0 {
        lemma_read_entry_stands(body, pos);
        if let Ok((entry, next)) = entry_at(body, pos) {
            let now = before.push(entry);
            assert(now.drop_last() =~= before);
            lemma_stands_concat(body, 8, entries_bytes(before), entry_bytes(entry));
            lemma_read_entries_stand(body, next, (n - 1) as nat, now);
        }
    }
}

/// The first entries stand where all entries stand.
pub proof fn lemma_entries_prefix(body: Seq<u8>, entries: Seq<(Seq<char>, EntryView)>, n: int)
    requires
        0 <= n <= entries.len(),
        stands_at(body, 8, entries_bytes(entries)),
    ensures
        stands_at(body, 8, entries_bytes(entries.take(n))),
    decreases entries.len(),
{
    if n == entries.len() {
        assert(entries.take(n) =~= entries);
    } else {
        let rest = entries.drop_last();
        lemma_stands_concat(body, 8, entries_bytes(rest), entry_bytes(entries.last()));
        lemma_entries_prefix(body, rest, n);
        assert(rest.take(n) =~= entries.take(n));
    }
}

/// Entries that stand in the body, up to its end, are read from there.
proof fn lemma_entries_are_read(body: Seq<u8>, entries: Seq<(Seq<char>, EntryView)>, i: int)
    requires
        0 <= i <= entries.len(),
        entries_kept(entries),
        stands_at(body, 8, entries_bytes(entries)),
        8 + entries_bytes(entries).len() == body.len(),
    ensures
        entries_from(
            body,
            8int + entries_bytes(entries.take(i)).len(),
            (entries.len() - i) as nat,
            entries.take(i),
        ) == Ok::<Seq<(Seq<char>, EntryView)>, SnapshotError>(entries),
    decreases entries.len() - i,
{
    if i == entries.len() {
        assert(entries.take(i) =~= entries);
    } else {
        let here = entries.take(i);
        let next = entries.take(i + 1);
        assert(next.drop_last() =~= here);
        assert(here.push(entries[i]) =~= next);
        lemma_entries_prefix(body, entries, i + 1);
        lemma_stands_concat(body, 8, entries_bytes(here), entry_bytes(entries[i]));
        lemma_entry_is_read(body, 8int + entries_bytes(here).len(), entries[i]);
        lemma_entries_are_read(body, entries, i + 1);
    }
}

/// The entries are read from a body exactly where it is the body of their snapshot.
proof fn lemma_body(body: Seq<u8>, entries: Seq<(Seq<char>, EntryView)>)
    requires
        body.len() >= 8,
    ensures
        entries_from(body, 8, from_be64(body.subrange(0, 8)), seq![]) == Ok::<
            Seq<(Seq<char>, EntryView)>,
            SnapshotError,
        >(entries) <==> entries_kept(entries) && entries.len() <= u64::MAX && body
            == snapshot_body(entries),
{
    let none = Seq::<(Seq<char>, EntryView)>::empty();
    let count = body.subrange(0, 8);
    lemma_be64(entries.len(), count);
    lemma_stands_whole(body, snapshot_body(entries));
    lemma_stands_concat(body, 0, be64(entries.len()), entries_bytes(entries));
    assert(body.subrange(8, 8) =~= seq![]);
    assert(stands_at(body, 8, entries_bytes(none)));
    assert(entries_kept(none));
    lemma_read_entries_stand(body, 8, from_be64(count), none);
    if entries_kept(entries) && entries.len() <= u64::MAX && body == snapshot_body(entries) {
        assert(entries.take(0) =~= none);
        lemma_entries_are_read(body, entries, 0);
    }
}

/// A byte string passes for sealed exactly where it is.
proof fn lemma_sealed(data: Seq<u8>, body: Seq<u8>)
    ensures
        unsealed(data) == Ok::<Seq<u8>, SnapshotError>(body) <==> body.len() >= 8 && data == sealed(
            body,
        ),
{
    let crc = crc32_of(body) as nat;
    lemma_be32(crc, be32(crc));
    if data == sealed(body) {
        assert(data.subrange(0, 4) =~= magic());
        assert(data.subrange(4, data.len() - 4) =~= body);
        assert(data.subrange(data.len() - 4, data.len() as int) =~= be32(crc));
    }
    if unsealed(data) == Ok::<Seq<u8>, SnapshotError>(body) {
        let tail = data.subrange(data.len() - 4, data.len() as int);
        lemma_be32(0, tail);
        assert(data =~= data.subrange(0, 4) + body + tail);
    }
}

/// What was written is read back.
proof fn lemma_written_is_read(entries: Seq<(Seq<char>, EntryView)>)
    requires
        entries_kept(entries),
        entries.len() <= u64::MAX,
    ensures
        decoded(snapshot_bytes(entries)) == Ok::<Seq<(Seq<char>, EntryView)>, SnapshotError>(
            entries,
        ),
{
    lemma_be64(entries.len(), be64(0));
    lemma_sealed(snapshot_bytes(entries), snapshot_body(entries));
    lemma_body(snapshot_body(entries), entries);
}

/// What is read was written.
proof fn lemma_read_was_written(data: Seq<u8>)
    ensures
        decoded(data) matches Ok(entries) ==> entries_kept(entries) && entries.len() <= u64::MAX
            && data == snapshot_bytes(entries),
{
    if let Ok(body) = unsealed(data) {
        lemma_sealed(data, body);
        if let Ok(entries) = decoded(data) {
            lemma_body(body, entries);
        }
    }
}

/// A byte string is read as a snapshot of some entries exactly where it is the snapshot of these
/// entries: what was written is read back, and nothing else is read as the same entries.
pub proof fn law_snapshot_roundtrip(data: Seq<u8>, entries: Seq<(Seq<char>, EntryView)>)
    ensures
        decoded(data) == Ok::<Seq<(Seq<char>, EntryView)>, SnapshotError>(entries)
            <==> entries_kept(entries) && entries.len() <= u64::MAX && data == snapshot_bytes(
            entries,
        ),
{
    lemma_read_was_written(data);
    if entries_kept(entries) && entries.len() <= u64::MAX {
        lemma_written_is_read(entries);
    }
}

/// A snapshot with one changed byte is refused.
pub proof fn law_snapshot_detects_changed_byte(data: Seq<u8>, changed: Seq<u8>, at: int)
    requires
        decoded(data) is Ok,
        changed.len() == data.len(),
        0 <= at < data.len(),
        changed[at] != data[at],
        forall|i: int| 0 <= i < data.len() && i != at ==> changed[i] == data[i],
    ensures
        decoded(changed) is Err,
{
    let end = data.len() - 4;
    let body = data.subrange(4, end);
    let body2 = changed.subrange(4, end);
    let tail = data.subrange(end, data.len() as int);
    let tail2 = changed.subrange(end, data.len() as int);
    if at < 4 {
        assert(changed.subrange(0, 4)[at] != magic()[at]) by {
            assert(data.subrange(0, 4)[at] == data[at]);
        }
    } else if at < end {
        assert(tail =~= tail2);
        assert(body[at - 4] != body2[at - 4]);
        assert forall|i: int| 0 <= i < body.len() && i != at - 4 implies body[i] == body2[i] by {
            assert(changed[i + 4] == data[i + 4]);
        }
        law_crc_detects_one_changed_byte(body, body2, at - 4);
    } else {
        assert(body =~= body2);
        lemma_be32(0, tail);
        lemma_be32(0, tail2);
        assert(tail[at - end] != tail2[at - end]);
    }
}

/// A place in a byte string holds no two sequences of equally many entries.
proof fn lemma_entries_unique(
    data: Seq<u8>,
    pos: int,
    a: Seq<(Seq<char>, EntryView)>,
    b: Seq<(Seq<char>, EntryView)>,
)
    requires
        a.len() == b.len(),
        entries_kept(a),
        entries_kept(b),
        stands_at(data, pos, entries_bytes(a)),
        stands_at(data, pos, entries_bytes(b)),
    ensures
        a == b,
    decreases a.len(),
{
    if a.len() == 0 {
        assert(a =~= b);
    } else {
        let x = a.drop_last();
        let y = b.drop_last();
        lemma_stands_concat(data, pos, entries_bytes(x), entry_bytes(a.last()));
        lemma_stands_concat(data, pos, entries_bytes(y), entry_bytes(b.last()));
        lemma_entries_unique(data, pos, x, y);
        lemma_entry_is_read(data, pos + entries_bytes(x).len(), a.last());
        lemma_entry_is_read(data, pos + entries_bytes(x).len(), b.last());
        assert(a =~= x.push(a.last()));
        assert(b =~= y.push(b.last()));
    }
}

/// Where the body of a snapshot stands.
proof fn lemma_sealed_stands(body: Seq<u8>)
    ensures
        stands_at(sealed(body), 4, body),
{
    assert(sealed(body).subrange(4, 4int + body.len()) =~= body);
}

/// Where the number of entries and the entries stand in a snapshot.
proof fn lemma_entries_stand(entries: Seq<(Seq<char>, EntryView)>)
    ensures
        stands_at(snapshot_bytes(entries), 4, be64(entries.len())),
        stands_at(snapshot_bytes(entries), 12, entries_bytes(entries)),
{
    let data = snapshot_bytes(entries);
    lemma_sealed_stands(snapshot_body(entries));
    assert(be64(entries.len()).len() == 8) by {
        lemma_be64(entries.len(), be64(0));
    }
    lemma_stands_concat(data, 4, be64(entries.len()), entries_bytes(entries));
}

/// Where the number of entries and the entries stand in what is read as a snapshot.
#[verifier::spinoff_prover]
proof fn lemma_read_stands(data: Seq<u8>)
    ensures
        decoded(data) matches Ok(entries) ==> entries_kept(entries) && entries.len() <= u64::MAX
            && data == snapshot_bytes(entries) && stands_at(data, 4, be64(entries.len()))
            && stands_at(data, 12, entries_bytes(entries)),
{
    lemma_read_was_written(data);
    match decoded(data) {
        Ok(entries) => lemma_entries_stand(entries),
        Err(_) => {},
    }
}

/// What stands in the first bytes stands in all of them.
proof fn lemma_stands_in_prefix(data: Seq<u8>, cut: int, pos: int, part: Seq<u8>)
    requires
        0 <= cut <= data.len(),
        stands_at(data.take(cut), pos, part),
    ensures
        stands_at(data, pos, part),
{
    assert(data.subrange(pos, pos + part.len()) =~= data.take(cut).subrange(
        pos,
        pos + part.len(),
    ));
}

/// A byte string begins with no two different counts and entries.
#[verifier::spinoff_prover]
proof fn lemma_same_entries(
    data: Seq<u8>,
    a: Seq<(Seq<char>, EntryView)>,
    b: Seq<(Seq<char>, EntryView)>,
)
    requires
        entries_kept(a),
        entries_kept(b),
        a.len() <= u64::MAX,
        b.len() <= u64::MAX,
        stands_at(data, 4, be64(a.len())),
        stands_at(data, 4, be64(b.len())),
        stands_at(data, 12, entries_bytes(a)),
        stands_at(data, 12, entries_bytes(b)),
    ensures
        a == b,
{
    assert(a.len() == b.len()) by {
        lemma_be64(a.len(), be64(a.len()));
        lemma_be64(b.len(), be64(b.len()));
    }
    lemma_entries_unique(data, 12, a, b);
}

/// Of a snapshot and a part of it that is cut short, at least one is refused: neither missing nor
/// added bytes at the end go unnoticed.
pub proof fn law_snapshot_detects_truncation(data: Seq<u8>, cut: int)
    requires
        0 <= cut < data.len(),
    ensures
        decoded(data) is Err || decoded(data.take(cut)) is Err,
{
    let part = data.take(cut);
    lemma_read_stands(data);
    lemma_read_stands(part);
    match (decoded(data), decoded(part)) {
        (Ok(a), Ok(b)) => {
            lemma_stands_in_prefix(data, cut, 4, be64(b.len()));
            lemma_stands_in_prefix(data, cut, 12, entries_bytes(b));
            lemma_same_entries(data, a, b);
            assert(data.len() == part.len());
        },
        _ => {},
    }
}

/// The store after some entries were put back, in order: those that have expired by `now` are left
/// out, and the store's bound is not looked at.
pub open spec fn restored(
    store: StoreView,
    entries: Seq<(Seq<char>, EntryView)>,
    now: u64,
) -> StoreView
    decreases entries.len(),
{
    if entries.len() == 0 {
        store
    } else {
        let before = restored(store, entries.drop_last(), now);
        let entry = entries.last();
        if entry.1.expired(now) {
            before
        } else {
            before.with(entry.0, entry.1)
        }
    }
}

/// The entries that have expired by `now`.
pub open spec fn expired_among(entries: Seq<(Seq<char>, EntryView)>, now: u64) -> Seq<
    (Seq<char>, EntryView),
> {
    entries.filter(|e: (Seq<char>, EntryView)| e.1.expired(now))
}

/// Puts the entries of a snapshot back into a store at the time `now`. Entries that have expired
/// are skipped; all others are put back, even beyond the store's bound. Returns how many were put
/// back and how many were skipped.
pub fn restore_at(store: &mut ShardedKV, entries: Vec<SnapshotEntry>, now: u64) -> (counts: (
    usize,
    usize,
))
    requires
        old(store).wf(),
        old(store)@.len() + entries@.len() <= u64::MAX,
    ensures
        final(store).wf(),
        final(store)@ == restored(old(store)@, snapshot_views(entries@), now),
        counts.1 == expired_among(snapshot_views(entries@), now).len(),
        counts.0 + counts.1 == entries@.len(),
{
    let ghost all = snapshot_views(entries@);
    let ghost total = entries.len();
    let mut loaded: usize = 0;
    let mut skipped: usize = 0;
    assert(all.take(0) =~= Seq::<(Seq<char>, EntryView)>::empty());
    reveal(Seq::filter);
    for entry in it: entries
        invariant
            store.wf(),
            all == snapshot_views(it.seq()),
            total == all.len(),
            old(store)@.len() + total <= u64::MAX,
            store@ == restored(old(store)@, all.take(it.index() as int), now),
            store@.len() <= old(store)@.len() + loaded,
            skipped == expired_among(all.take(it.index() as int), now).len(),
            loaded + skipped == it.index(),
    {
        proof {
            let next = all.take(it.index() + 1);
            assert(next.drop_last() =~= all.take(it.index() as int));
            assert(next.last() == snapshot_view(entry));
            reveal(Seq::filter);
            store.lemma_finite();
        }
        let (key, value, expires_at) = entry;
        let expired = match expires_at {
            Some(at) => now >= at,
            None => false,
        };
        if expired {
            skipped += 1;
        } else {
            store.load_entry(key, value, expires_at);
            loaded += 1;
        }
    }
    assert(all.take(total as int) =~= all);
    (loaded, skipped)
}

/// Puts the entries of a snapshot back into a store now. See [`restore_at`].
pub fn restore(store: &mut ShardedKV, entries: Vec<SnapshotEntry>) -> (counts: (usize, usize))
    requires
        old(store).wf(),
        old(store)@.len() + entries@.len() <= u64::MAX,
    ensures
        final(store).wf(),
        counts.0 + counts.1 == entries@.len(),
        exists|now: u64|
            call_ensures(now_ms, (), now)
                && final(store)@ == #[trigger] restored(old(store)@, snapshot_views(entries@), now)
                && counts.1 == expired_among(snapshot_views(entries@), now).len(),
{
    let now = now_ms();
    restore_at(store, entries, now)
}

/// Whether every entry that has not expired by `now` is short enough for the format.
pub open spec fn store_fits(store: StoreView, now: u64) -> bool {
    forall|k: Seq<char>| #[trigger] store.is_live(k, now) ==> entry_fits((k, store.entries[k]))
}

/// Whether a byte string is a snapshot of a store at the time `now`: of exactly the entries that
/// have not expired, each once, and they are read back from it.
pub open spec fn snapshot_of(data: Seq<u8>, store: StoreView, now: u64) -> bool {
    exists|entries: Seq<(Seq<char>, EntryView)>|
        lists(entries, store.purged(now).entries) && data == #[trigger] snapshot_bytes(entries)
            && decoded(data) == Ok::<Seq<(Seq<char>, EntryView)>, SnapshotError>(entries)
}

/// Whether a save of a store at the time `now` comes to this: a snapshot of it where every entry
/// that has not expired is short enough for the format, else the error for one that is not.
pub open spec fn save_outcome(
    outcome: Result<Vec<u8>, SnapshotError>,
    store: StoreView,
    now: u64,
) -> bool {
    match outcome {
        Ok(data) => store_fits(store, now) && snapshot_of(data@, store, now),
        Err(e) => exists|k: Seq<char>| #[trigger]
            store.is_live(k, now) && !entry_fits((k, store.entries[k])) && e == misfit(
                (k, store.entries[k]),
            ),
    }
}

/// Entries that are live at some time can be told from their bytes.
proof fn lemma_saved_is_kept(store: StoreView, now: u64, entries: Seq<(Seq<char>, EntryView)>)
    requires
        lists(entries, store.purged(now).entries),
        store_fits(store, now),
    ensures
        entries_kept(entries),
{
    assert forall|i: int| 0 <= i < entries.len() implies entry_kept(#[trigger] entries[i]) by {
        let k = entries[i].0;
        assert(keys_of(entries)[i] == k);
        assert(keys_of(entries).contains(k));
        assert(store.is_live(k, now));
    }
}

/// Makes and reads the snapshots that are kept in one file.
#[derive(Debug)]
pub struct SnapshotManager {
    path: String,
}

impl SnapshotManager {
    /// The path of the file.
    pub closed spec fn location(&self) -> Seq<char> {
        self.path@
    }

    /// Creates a manager for the snapshots in the file at `path`.
    pub fn new(path: String) -> (manager: Self)
        ensures
            manager.location() == path@,
    {
        SnapshotManager { path }
    }

    /// The path of the file.
    pub fn path(&self) -> (path: &str)
        ensures
            path@ == self.location(),
    {
        self.path.as_str()
    }

    /// The path of the file that a snapshot is written to before it takes the place of the last
    /// one.
    pub fn tmp_path(&self) -> (path: String)
        ensures
            path@ == self.location() + ".tmp"@,
    {
        self.path.clone().concat(".tmp")
    }

    /// The bytes of the file for a snapshot of a store at the time `now`. Fails if an entry is too
    /// long for the format.
    pub fn save_snapshot_at(&self, store: &ShardedKV, now: u64) -> (data: Result<
        Vec<u8>,
        SnapshotError,
    >)
        requires
            store.wf(),
        ensures
            save_outcome(data, store@, now),
    {
        let entries = store.collect_for_snapshot_at(now);
        let ghost all = snapshot_views(entries@);
        let data = encode_snapshot(&entries);
        proof {
            match data {
                Ok(_) => {
                    assert forall|k: Seq<char>| #[trigger] store@.is_live(k, now) implies entry_fits(
                        (k, store@.entries[k]),
                    ) by {
                        assert(store@.purged(now).entries.contains_key(k));
                        assert(keys_of(all).contains(k));
                        let i = choose|i: int| 0 <= i < all.len() && keys_of(all)[i] == k;
                        assert(entry_fits(all[i]));
                    }
                    assert(entries.len() == all.len());
                    lemma_saved_is_kept(store@, now, all);
                    law_snapshot_roundtrip(snapshot_bytes(all), all);
                    assert(snapshot_bytes(all) == data->Ok_0@);
                },
                Err(e) => {
                    let i = choose|i: int| #[trigger] first_misfit(all, i) && e == misfit(all[i]);
                    let k = all[i].0;
                    assert(keys_of(all)[i] == k);
                    assert(keys_of(all).contains(k));
                    assert(store@.is_live(k, now));
                },
            }
        }
        data
    }

    /// The bytes of the file for a snapshot of a store now. See
    /// [`SnapshotManager::save_snapshot_at`].
    pub fn save_snapshot(&self, store: &ShardedKV) -> (data: Result<Vec<u8>, SnapshotError>)
        requires
            store.wf(),
        ensures
            exists|now: u64|
                call_ensures(now_ms, (), now) && #[trigger] save_outcome(data, store@, now),
    {
        let now = now_ms();
        self.save_snapshot_at(store, now)
    }

    /// Loads a snapshot from the bytes of its file: all of its entries, expired ones among them, or
    /// the first thing that is wrong with it.
    pub fn load(data: &[u8]) -> (entries: Result<Vec<SnapshotEntry>, SnapshotError>)
        ensures
            match entries {
                Ok(entries) => decoded(data@) == Ok::<Seq<(Seq<char>, EntryView)>, SnapshotError>(
                    snapshot_views(entries@),
                ),
                Err(e) => decoded(data@) == Err::<Seq<(Seq<char>, EntryView)>, SnapshotError>(e),
            },
    {
        if data.len() < 16 {
            return Err(SnapshotError::TooShort);
        }
        let magic_bytes: [u8; 4] = [0x4B, 0x56, 0x52, 0x31];
        assert(magic_bytes@ =~= magic());
        if !bytes_equal(slice_subrange(data, 0, 4), magic_bytes.as_slice()) {
            return Err(SnapshotError::BadMagic);
        }
        let crc_start: usize = data.len() - 4;
        let body = slice_subrange(data, 4, crc_start);
        if read_u32(data, crc_start) != crc32(body) {
            return Err(SnapshotError::CrcMismatch);
        }
        let count: u64 = read_u64(body, 0);
        let mut entries: Vec<SnapshotEntry> = Vec::new();
        let mut pos: usize = 8;
        let mut i: u64 = 0;
        assert(snapshot_views(entries@) =~= Seq::<(Seq<char>, EntryView)>::empty());
        while i < count
            invariant
                i <= count,
                8 <= pos <= body@.len(),
                decoded(data@) == entries_from(
                    body@,
                    pos as int,
                    (count - i) as nat,
                    snapshot_views(entries@),
                ),
            decreases count - i,
        {
            let ghost before = snapshot_views(entries@);
            match read_entry(body, pos) {
                Ok((entry, next)) => {
                    entries.push(entry);
                    assert(snapshot_views(entries@) =~= before.push(snapshot_view(entry)));
                    pos = next;
                },
                Err(e) => {
                    return Err(e);
                },
            }
            i += 1;
        }
        if pos != body.len() {
            return Err(SnapshotError::TrailingBytes);
        }
        Ok(entries)
    }
}

/// What putting entries of different keys back leaves.
proof fn lemma_restored(max_entries: usize, entries: Seq<(Seq<char>, EntryView)>, now: u64)
    requires
        keys_of(entries).no_duplicates(),
    ensures
        ({
            let store = restored(StoreView::empty(max_entries), entries, now);
            &&& store.max_entries == max_entries
            &&& forall|k: Seq<char>| #[trigger]
                store.contains(k) ==> keys_of(entries).contains(k)
            &&& forall|i: int|
                0 <= i < entries.len() ==> (store.contains((#[trigger] entries[i]).0)
                    <==> !entries[i].1.expired(now)) && (store.contains(entries[i].0)
                    ==> store.entries[entries[i].0] == entries[i].1)
        }),
    decreases entries.len(),
{
    if entries.len() > 0 {
        let rest = entries.drop_last();
        let last = entries.last();
        let keys = keys_of(entries);
        assert(keys_of(rest) =~= keys.drop_last());
        lemma_restored(max_entries, rest, now);
        let before = restored(StoreView::empty(max_entries), rest, now);
        let store = restored(StoreView::empty(max_entries), entries, now);
        assert(!before.contains(last.0)) by {
            if before.contains(last.0) {
                let j = choose|j: int| 0 <= j < rest.len() && keys_of(rest)[j] == last.0;
                assert(keys[j] == keys[entries.len() - 1]);
            }
        }
        assert forall|k: Seq<char>| #[trigger] store.contains(k) implies keys.contains(k) by {
            if k == last.0 {
                assert(keys[entries.len() - 1] == k);
            } else {
                assert(before.contains(k));
                let j = choose|j: int| 0 <= j < rest.len() && keys_of(rest)[j] == k;
                assert(keys[j] == k);
            }
        }
        assert forall|i: int| 0 <= i < entries.len() implies (store.contains(
            (#[trigger] entries[i]).0,
        ) <==> !entries[i].1.expired(now)) && (store.contains(entries[i].0)
            ==> store.entries[entries[i].0] == entries[i].1) by {
            if i < rest.len() {
                assert(rest[i] == entries[i]);
                assert(keys[i] != keys[entries.len() - 1]);
            }
        }
    }
}

/// Loading a saved snapshot gives back what was saved: the file is read as the entries that were
/// live when it was written, with their expiry, as many as there were. Putting them into an empty
/// store leaves exactly those that are still live then, even beyond the store's bound.
pub proof fn law_save_load(
    store: StoreView,
    saved_at: u64,
    entries: Seq<(Seq<char>, EntryView)>,
    max_entries: usize,
    loaded_at: u64,
)
    requires
        lists(entries, store.purged(saved_at).entries),
        store_fits(store, saved_at),
        entries.len() <= u64::MAX,
    ensures
        decoded(snapshot_bytes(entries)) == Ok::<Seq<(Seq<char>, EntryView)>, SnapshotError>(
            entries,
        ),
        entries.len() == store.live_keys(saved_at).len(),
        restored(StoreView::empty(max_entries), entries, loaded_at) == (StoreView {
            entries: store.purged(saved_at).purged(loaded_at).entries,
            max_entries,
        }),
{
    let live = store.purged(saved_at);
    lemma_saved_is_kept(store, saved_at, entries);
    assert(keys_of(entries).to_set() =~= store.live_keys(saved_at));
    keys_of(entries).unique_seq_to_set();
    law_snapshot_roundtrip(snapshot_bytes(entries), entries);
    lemma_restored(max_entries, entries, loaded_at);
    let loaded = restored(StoreView::empty(max_entries), entries, loaded_at);
    let expected = live.purged(loaded_at).entries;
    assert forall|k: Seq<char>| loaded.entries.contains_key(k) == expected.contains_key(k) by {
        if keys_of(entries).contains(k) {
            let i = choose|i: int| 0 <= i < entries.len() && keys_of(entries)[i] == k;
            assert(entries[i].0 == k);
            assert(entries[i].1 == live.entries[k]);
        }
        assert(loaded.contains(k) ==> keys_of(entries).contains(k));
        assert(live.entries.contains_key(k) <==> keys_of(entries).contains(k));
    }
    assert forall|k: Seq<char>| loaded.entries.contains_key(k) implies loaded.entries[k]
        == expected[k] by {
        assert(loaded.contains(k));
        let i = choose|i: int| 0 <= i < entries.len() && keys_of(entries)[i] == k;
        assert(entries[i].0 == k);
        assert(entries[i].1 == live.entries[k]);
    }
    assert(loaded.entries =~= expected);
}

} // verus!
