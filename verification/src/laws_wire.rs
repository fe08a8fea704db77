//! How numbers, fields, frames and requests stand on the wire, said byte by byte.
use crate::bytes::{
    be16, be32, be64, from_be16, from_be32, from_be64, lemma_be16, lemma_be32, lemma_be64,
};
use crate::fields::{
    blob_field, blob_fits, lemma_blob_len, lemma_stands_concat, lemma_stands_whole, lemma_text_len,
    stands_at, text_field, text_fits,
};
use crate::protocol::{announced_len, first_frame, FrameError};
use crate::request::{malformed, text_fields, Request, RequestView};
use vstd::prelude::*;
use vstd::utf8::encode_utf8;

verus! {

/// Numbers stand on the wire with their most significant byte first.
pub proof fn law_read_numbers(b: Seq<u8>)
    ensures
        b.len() == 2 ==> from_be16(b) == b[0] * 0x100 + b[1],
        b.len() == 4 ==> from_be32(b) == b[0] * 0x100_0000 + b[1] * 0x1_0000 + b[2] * 0x100 + b[3],
        b.len() == 8 ==> from_be64(b) == b[0] * 0x100_0000_0000_0000 + b[1] * 0x1_0000_0000_0000
            + b[2] * 0x100_0000_0000 + b[3] * 0x1_0000_0000 + b[4] * 0x100_0000 + b[5] * 0x1_0000
            + b[6] * 0x100 + b[7],
    decreases b.len(),
{
    if b.len() == 8 {
        let (high, low) = (b.subrange(0, 4), b.subrange(4, 8));
        law_read_numbers(high);
        law_read_numbers(low);
    }
}

/// Numbers are written with their most significant byte first.
pub proof fn law_written_numbers(n: nat)
    ensures
        be16(n).len() == 2,
        be32(n).len() == 4,
        be64(n).len() == 8,
        n <= 0xFFFF ==> be16(n)[0] * 0x100 + be16(n)[1] == n,
        n <= 0xFFFF_FFFF ==> be32(n)[0] * 0x100_0000 + be32(n)[1] * 0x1_0000 + be32(n)[2] * 0x100
            + be32(n)[3] == n,
        n <= 0xFFFF_FFFF_FFFF_FFFF ==> be64(n)[0] * 0x100_0000_0000_0000 + be64(n)[1]
            * 0x1_0000_0000_0000 + be64(n)[2] * 0x100_0000_0000 + be64(n)[3] * 0x1_0000_0000
            + be64(n)[4] * 0x100_0000 + be64(n)[5] * 0x1_0000 + be64(n)[6] * 0x100 + be64(n)[7]
            == n,
{
    lemma_be16(n, be16(n));
    lemma_be32(n, be32(n));
    lemma_be64(n, be64(n));
    law_read_numbers(be16(n));
    law_read_numbers(be32(n));
    law_read_numbers(be64(n));
}

/// A text field is the length of the text's UTF-8 bytes in two bytes, and the bytes. One fits if it
/// has at most 65,535 of them.
pub proof fn law_text_field(text: Seq<char>)
    ensures
        text_fits(text) <==> encode_utf8(text).len() <= 65_535,
        text_field(text).len() == 2 + encode_utf8(text).len(),
        text_field(text).subrange(2, text_field(text).len() as int) == encode_utf8(text),
        encode_utf8(text).len() <= 65_535 ==> text_field(text)[0] * 0x100 + text_field(text)[1]
            == encode_utf8(text).len(),
{
    let n = encode_utf8(text).len();
    law_written_numbers(n);
    let field = text_field(text);
    assert(field[0] == be16(n)[0] && field[1] == be16(n)[1]);
    assert(field.subrange(2, field.len() as int) =~= encode_utf8(text));
}

/// A blob field is the length of the blob in four bytes, and the blob. One fits if it has at most
/// 4,294,967,295 bytes.
pub proof fn law_blob_field(blob: Seq<u8>)
    ensures
        blob_fits(blob) <==> blob.len() <= 4_294_967_295,
        blob_field(blob).len() == 4 + blob.len(),
        blob_field(blob).subrange(4, blob_field(blob).len() as int) == blob,
        blob.len() <= 4_294_967_295 ==> blob_field(blob)[0] * 0x100_0000 + blob_field(blob)[1]
            * 0x1_0000 + blob_field(blob)[2] * 0x100 + blob_field(blob)[3] == blob.len(),
{
    let n = blob.len();
    law_written_numbers(n);
    let field = blob_field(blob);
    assert(field[0] == be32(n)[0] && field[1] == be32(n)[1] && field[2] == be32(n)[2] && field[3]
        == be32(n)[3]);
    assert(field.subrange(4, field.len() as int) =~= blob);
}

/// What reading a frame gives: the payload of the length that the first four bytes announce, if
/// that is at most 1,048,576 and all of it is there.
pub proof fn law_frame(input: Seq<u8>)
    ensures
        ({
            let len = input[0] * 0x100_0000 + input[1] * 0x1_0000 + input[2] * 0x100 + input[3];
            &&& input.len() >= 4 ==> announced_len(input) == len
            &&& input.len() < 4 ==> first_frame(input) == Err::<(Seq<u8>, nat), FrameError>(
                FrameError::UnexpectedEof,
            )
            &&& input.len() >= 4 && len > 1_048_576 ==> first_frame(input) == Err::<
                (Seq<u8>, nat),
                FrameError,
            >(FrameError::Oversized { len: len as usize })
            &&& input.len() >= 4 && len <= 1_048_576 && input.len() < 4 + len ==> first_frame(input)
                == Err::<(Seq<u8>, nat), FrameError>(FrameError::UnexpectedEof)
            &&& input.len() >= 4 && len <= 1_048_576 && input.len() >= 4 + len ==> first_frame(
                input,
            ) == Ok::<(Seq<u8>, nat), FrameError>((input.subrange(4, 4 + len), (4 + len) as nat))
        }),
{
    if input.len() >= 4 {
        law_read_numbers(input.subrange(0, 4));
    }
}

/// A request means what its parts mean.
pub proof fn law_request_view(request: Request, i: int)
    ensures
        match request {
            Request::Put { key, value } => request@ == (RequestView::Put {
                key: key@,
                value: value@,
            }),
            Request::Get { key } => request@ == (RequestView::Get { key: key@ }),
            Request::Del { key } => request@ == (RequestView::Del { key: key@ }),
            Request::Ping => request@ == RequestView::Ping,
            Request::Exists { key } => request@ == (RequestView::Exists { key: key@ }),
            Request::PutTtl { key, value, ttl_ms } => request@ == (RequestView::PutTtl {
                key: key@,
                value: value@,
                ttl_ms,
            }),
            Request::Scan { prefix, limit, cursor } => request@ == (RequestView::Scan {
                prefix: prefix@,
                limit,
                cursor: cursor@,
            }),
            Request::Mget { keys } => {
                &&& request@ is Mget
                &&& request@->keys.len() == keys@.len()
                &&& 0 <= i < keys@.len() ==> request@->keys[i] == keys@[i]@
            },
            Request::Save => request@ == RequestView::Save,
            Request::Ttl { key } => request@ == (RequestView::Ttl { key: key@ }),
        },
{
}

/// Which requests can be made: keys, prefixes and cursors have at most 65,535 bytes, values at most
/// 4,294,967,295, a TTL is not 0, and an MGET has at most 256 keys.
pub proof fn law_valid_requests(q: RequestView)
    ensures
        q.valid() <==> match q {
            RequestView::Put { key, value } => encode_utf8(key).len() <= 65_535 && value.len()
                <= 4_294_967_295,
            RequestView::Get { key } => encode_utf8(key).len() <= 65_535,
            RequestView::Del { key } => encode_utf8(key).len() <= 65_535,
            RequestView::Ping => true,
            RequestView::Exists { key } => encode_utf8(key).len() <= 65_535,
            RequestView::PutTtl { key, value, ttl_ms } => encode_utf8(key).len() <= 65_535
                && value.len() <= 4_294_967_295 && ttl_ms > 0,
            RequestView::Scan { prefix, limit, cursor } => encode_utf8(prefix).len() <= 65_535
                && encode_utf8(cursor).len() <= 65_535,
            RequestView::Mget { keys } => keys.len() <= 256 && forall|i: int|
                0 <= i < keys.len() ==> encode_utf8(#[trigger] keys[i]).len() <= 65_535,
            RequestView::Save => true,
            RequestView::Ttl { key } => encode_utf8(key).len() <= 65_535,
        },
{
}

/// A frame is a request exactly where it is the bytes of one that can be made, and malformed where
/// there is none.
pub proof fn law_malformed(q: RequestView, frame: Seq<u8>)
    ensures
        q.encodes(frame) <==> q.valid() && q.encoding() == frame,
        malformed(frame) <==> !(exists|r: RequestView|
            r.valid() && #[trigger] r.encoding() == frame),
{
    if !malformed(frame) {
        let r = choose|r: RequestView| #[trigger] r.encodes(frame);
        assert(r.valid() && r.encoding() == frame);
    }
    if exists|r: RequestView| r.valid() && #[trigger] r.encoding() == frame {
        let r = choose|r: RequestView| r.valid() && #[trigger] r.encoding() == frame;
        assert(r.encodes(frame));
    }
}

/// Where a text field stands: the length of the text, then the text.
pub proof fn lemma_text_at(data: Seq<u8>, pos: int, text: Seq<char>)
    requires
        stands_at(data, pos, text_field(text)),
        encode_utf8(text).len() <= 65_535,
    ensures
        pos + 2 + encode_utf8(text).len() <= data.len(),
        data[pos] * 0x100 + data[pos + 1] == encode_utf8(text).len(),
        data.subrange(pos + 2, pos + 2 + encode_utf8(text).len()) == encode_utf8(text),
{
    let field = text_field(text);
    law_text_field(text);
    let found = data.subrange(pos, pos + field.len());
    assert(found[0] == data[pos] && found[1] == data[pos + 1]);
    assert(data.subrange(pos + 2, pos + 2 + encode_utf8(text).len()) =~= found.subrange(
        2,
        field.len() as int,
    ));
}

/// Where a blob field stands: the length of the blob, then the blob.
pub proof fn lemma_blob_at(data: Seq<u8>, pos: int, blob: Seq<u8>)
    requires
        stands_at(data, pos, blob_field(blob)),
        blob.len() <= 4_294_967_295,
    ensures
        pos + 4 + blob.len() <= data.len(),
        data[pos] * 0x100_0000 + data[pos + 1] * 0x1_0000 + data[pos + 2] * 0x100 + data[pos + 3]
            == blob.len(),
        data.subrange(pos + 4, pos + 4 + blob.len()) == blob,
{
    let field = blob_field(blob);
    law_blob_field(blob);
    let found = data.subrange(pos, pos + field.len());
    assert(found[0] == data[pos] && found[1] == data[pos + 1] && found[2] == data[pos + 2]
        && found[3] == data[pos + 3]);
    assert(data.subrange(pos + 4, pos + 4 + blob.len()) =~= found.subrange(4, field.len() as int));
}

/// Where text fields stand one after the other: the place of each of them, and of their end.
pub proof fn lemma_texts_at(data: Seq<u8>, pos: int, texts: Seq<Seq<char>>) -> (at: Seq<int>)
    requires
        stands_at(data, pos, text_fields(texts)),
        forall|i: int| 0 <= i < texts.len() ==> encode_utf8(#[trigger] texts[i]).len() <= 65_535,
    ensures
        at.len() == texts.len() + 1,
        at[0] == pos,
        at[texts.len() as int] == pos + text_fields(texts).len(),
        forall|i: int|
            0 <= i < texts.len() ==> {
                let n = encode_utf8(#[trigger] texts[i]).len();
                &&& at[i + 1] == at[i] + 2 + n
                &&& data[at[i]] * 0x100 + data[at[i] + 1] == n
                &&& data.subrange(at[i] + 2, at[i + 1]) == encode_utf8(texts[i])
            },
    decreases texts.len(),
{
    if texts.len() == 0 {
        seq![pos]
    } else {
        let rest = texts.drop_last();
        let last = texts.last();
        lemma_stands_concat(data, pos, text_fields(rest), text_field(last));
        let before = lemma_texts_at(data, pos, rest);
        lemma_text_at(data, pos + text_fields(rest).len(), last);
        lemma_text_len(last);
        let at = before.push(pos + text_fields(texts).len());
        assert forall|i: int| 0 <= i < texts.len() implies {
            let n = encode_utf8(#[trigger] texts[i]).len();
            &&& at[i + 1] == at[i] + 2 + n
            &&& data[at[i]] * 0x100 + data[at[i] + 1] == n
            &&& data.subrange(at[i] + 2, at[i + 1]) == encode_utf8(texts[i])
        } by {
            if i < rest.len() {
                assert(rest[i] == texts[i]);
            }
        }
        at
    }
}

/// The bytes of the requests that hold nothing, or one key behind its length in two bytes.
pub proof fn law_key_request_bytes(key: Seq<char>)
    requires
        encode_utf8(key).len() <= 65_535,
    ensures
        ({
            let get = RequestView::Get { key }.encoding();
            let n = encode_utf8(key).len();
            &&& get.len() == 3 + n
            &&& get[0] == 1
            &&& get[1] * 0x100 + get[2] == n
            &&& get.subrange(3, get.len() as int) == encode_utf8(key)
            &&& RequestView::Del { key }.encoding() == get.update(0, 2)
            &&& RequestView::Exists { key }.encoding() == get.update(0, 4)
            &&& RequestView::Ttl { key }.encoding() == get.update(0, 9)
            &&& RequestView::Ping.encoding() == seq![3u8]
            &&& RequestView::Save.encoding() == seq![8u8]
        }),
{
    let get = RequestView::Get { key }.encoding();
    lemma_stands_whole(get, get);
    lemma_stands_concat(get, 0, seq![1u8], text_field(key));
    lemma_text_len(key);
    lemma_text_at(get, 1, key);
    assert(RequestView::Del { key }.encoding() =~= get.update(0, 2));
    assert(RequestView::Exists { key }.encoding() =~= get.update(0, 4));
    assert(RequestView::Ttl { key }.encoding() =~= get.update(0, 9));
    assert(RequestView::Ping.encoding() =~= seq![3u8]);
    assert(RequestView::Save.encoding() =~= seq![8u8]);
}

/// The bytes of a SET request: its opcode, the key behind its length in two bytes, and the value
/// behind its length in four bytes. Those of a SETX request are the same but for the opcode, with
/// the TTL in eight bytes after them.
pub proof fn law_set_request_bytes(key: Seq<char>, value: Seq<u8>, ttl_ms: u64)
    requires
        encode_utf8(key).len() <= 65_535,
        value.len() <= 4_294_967_295,
    ensures
        ({
            let set = RequestView::Put { key, value }.encoding();
            let setx = RequestView::PutTtl { key, value, ttl_ms }.encoding();
            let n = encode_utf8(key).len() as int;
            let t = 7 + n + value.len();
            &&& set.len() == t
            &&& set[0] == 0
            &&& set[1] * 0x100 + set[2] == n
            &&& set.subrange(3, 3 + n) == encode_utf8(key)
            &&& set[3 + n] * 0x100_0000 + set[4 + n] * 0x1_0000 + set[5 + n] * 0x100 + set[6 + n]
                == value.len()
            &&& set.subrange(7 + n, t) == value
            &&& setx.len() == t + 8
            &&& setx.subrange(0, t) == set.update(0, 5)
            &&& setx[t] * 0x100_0000_0000_0000 + setx[t + 1] * 0x1_0000_0000_0000 + setx[t + 2]
                * 0x100_0000_0000 + setx[t + 3] * 0x1_0000_0000 + setx[t + 4] * 0x100_0000 + setx[t
                + 5] * 0x1_0000 + setx[t + 6] * 0x100 + setx[t + 7] == ttl_ms
        }),
{
    let set = RequestView::Put { key, value }.encoding();
    let setx = RequestView::PutTtl { key, value, ttl_ms }.encoding();
    let n = encode_utf8(key).len() as int;
    let t = 7 + n + value.len();
    let (a, b) = (text_field(key), blob_field(value));
    let c = be64(ttl_ms as nat);
    lemma_text_len(key);
    lemma_blob_len(value);
    lemma_stands_whole(set, set);
    lemma_stands_concat(set, 0, seq![0u8], a + b);
    lemma_stands_concat(set, 1, a, b);
    lemma_text_at(set, 1, key);
    lemma_blob_at(set, 3 + n, value);
    assert(c.len() == 8) by {
        law_written_numbers(ttl_ms as nat);
    }
    assert(setx.subrange(0, t) =~= set.update(0, 5));
    assert forall|i: int| 0 <= i < 8 implies setx[t + i] == #[trigger] c[i] by {}
    assert(c[0] * 0x100_0000_0000_0000 + c[1] * 0x1_0000_0000_0000 + c[2] * 0x100_0000_0000 + c[3]
        * 0x1_0000_0000 + c[4] * 0x100_0000 + c[5] * 0x1_0000 + c[6] * 0x100 + c[7] == ttl_ms) by {
        law_written_numbers(ttl_ms as nat);
    }
}

/// The bytes of a SCAN request: its opcode, the prefix behind its length in two bytes, the limit in
/// two bytes, and the cursor behind its length in two bytes.
pub proof fn law_scan_request_bytes(prefix: Seq<char>, limit: u16, cursor: Seq<char>)
    requires
        encode_utf8(prefix).len() <= 65_535,
        encode_utf8(cursor).len() <= 65_535,
    ensures
        ({
            let scan = RequestView::Scan { prefix, limit, cursor }.encoding();
            let n = encode_utf8(prefix).len() as int;
            &&& scan.len() == 7 + n + encode_utf8(cursor).len()
            &&& scan[0] == 6
            &&& scan[1] * 0x100 + scan[2] == n
            &&& scan.subrange(3, 3 + n) == encode_utf8(prefix)
            &&& scan[3 + n] * 0x100 + scan[4 + n] == limit
            &&& scan[5 + n] * 0x100 + scan[6 + n] == encode_utf8(cursor).len()
            &&& scan.subrange(7 + n, scan.len() as int) == encode_utf8(cursor)
        }),
{
    let scan = RequestView::Scan { prefix, limit, cursor }.encoding();
    let n = encode_utf8(prefix).len() as int;
    let (a, b, c) = (text_field(prefix), be16(limit as nat), text_field(cursor));
    lemma_text_len(prefix);
    lemma_text_len(cursor);
    law_written_numbers(limit as nat);
    lemma_stands_whole(scan, scan);
    lemma_stands_concat(scan, 0, seq![6u8], a + b + c);
    lemma_stands_concat(scan, 1, a + b, c);
    lemma_stands_concat(scan, 1, a, b);
    lemma_text_at(scan, 1, prefix);
    lemma_text_at(scan, 5 + n, cursor);
    assert(scan[3 + n] == b[0] && scan[4 + n] == b[1]) by {
        let found = scan.subrange(3 + n, 5 + n);
        assert(found[0] == scan[3 + n] && found[1] == scan[4 + n]);
    }
}

/// The bytes of an MGET request: its opcode, the number of keys in two bytes, and the keys in order,
/// each behind its length in two bytes, up to the end. Gives the place of each key, and of the end.
pub proof fn law_mget_request_bytes(keys: Seq<Seq<char>>) -> (at: Seq<int>)
    requires
        keys.len() <= 256,
        forall|i: int| 0 <= i < keys.len() ==> encode_utf8(#[trigger] keys[i]).len() <= 65_535,
    ensures
        ({
            let mget = RequestView::Mget { keys }.encoding();
            &&& mget[0] == 7
            &&& mget[1] * 0x100 + mget[2] == keys.len()
            &&& at.len() == keys.len() + 1
            &&& at[0] == 3
            &&& at[keys.len() as int] == mget.len()
            &&& forall|i: int|
                0 <= i < keys.len() ==> {
                    let n = encode_utf8(#[trigger] keys[i]).len();
                    &&& at[i + 1] == at[i] + 2 + n
                    &&& mget[at[i]] * 0x100 + mget[at[i] + 1] == n
                    &&& mget.subrange(at[i] + 2, at[i + 1]) == encode_utf8(keys[i])
                }
        }),
{
    let mget = RequestView::Mget { keys }.encoding();
    let count = be16(keys.len());
    law_written_numbers(keys.len());
    lemma_stands_whole(mget, mget);
    lemma_stands_concat(mget, 0, seq![7u8], count + text_fields(keys));
    lemma_stands_concat(mget, 1, count, text_fields(keys));
    assert(mget[1] == count[0] && mget[2] == count[1]) by {
        let found = mget.subrange(1, 3);
        assert(found[0] == mget[1] && found[1] == mget[2]);
    }
    lemma_texts_at(mget, 3, keys)
}

} // verus!
