//! Length-prefixed fields, as they stand in requests, responses and snapshots.
use crate::bytes::{
    be16, be32, copy_bytes, from_be16, from_be32, lemma_be16, lemma_be32, push_bytes, push_u16,
    push_u32, read_u16, read_u32,
};
use crate::text::{lemma_encode_injective, text_from_bytes};
use vstd::prelude::*;
use vstd::slice::slice_subrange;
use vstd::utf8::{encode_utf8, encode_utf8_valid_utf8};

verus! {

/// Whether `part` stands in `data` at `pos`.
pub open spec fn stands_at(data: Seq<u8>, pos: int, part: Seq<u8>) -> bool {
    0 <= pos && pos + part.len() <= data.len() && data.subrange(pos, pos + part.len()) == part
}

/// A text field: two bytes that give the length of the text in bytes, then the text in UTF-8.
pub open spec fn text_field(text: Seq<char>) -> Seq<u8> {
    be16(encode_utf8(text).len()) + encode_utf8(text)
}

/// Whether a text is short enough for a text field.
pub open spec fn text_fits(text: Seq<char>) -> bool {
    encode_utf8(text).len() <= u16::MAX
}

/// A blob field: four bytes that give the length of the blob, then the blob.
pub open spec fn blob_field(blob: Seq<u8>) -> Seq<u8> {
    be32(blob.len()) + blob
}

/// Whether a blob is short enough for a blob field.
pub open spec fn blob_fits(blob: Seq<u8>) -> bool {
    blob.len() <= u32::MAX
}

/// Two parts stand one after the other exactly where their concatenation stands.
pub proof fn lemma_stands_concat(data: Seq<u8>, pos: int, a: Seq<u8>, b: Seq<u8>)
    ensures
        stands_at(data, pos, a + b) <==> stands_at(data, pos, a) && stands_at(
            data,
            pos + a.len(),
            b,
        ),
{
    let whole = a + b;
    if stands_at(data, pos, whole) {
        let found = data.subrange(pos, pos + whole.len());
        assert(data.subrange(pos, pos + a.len()) =~= found.subrange(0, a.len() as int));
        assert(data.subrange(pos, pos + a.len()) =~= a);
        assert(data.subrange(pos + a.len(), pos + whole.len()) =~= found.subrange(
            a.len() as int,
            whole.len() as int,
        ));
        assert(data.subrange(pos + a.len(), pos + a.len() + b.len()) =~= b);
    }
    if stands_at(data, pos, a) && stands_at(data, pos + a.len(), b) {
        assert(data.subrange(pos, pos + whole.len()) =~= data.subrange(pos, pos + a.len())
            + data.subrange(pos + a.len(), pos + a.len() + b.len()));
        assert(data.subrange(pos, pos + whole.len()) =~= whole);
    }
}

/// What stands at the start of `data` and ends where it ends is all of it.
pub proof fn lemma_stands_whole(data: Seq<u8>, part: Seq<u8>)
    ensures
        data == part <==> stands_at(data, 0, part) && part.len() == data.len(),
{
    if part.len() == data.len() {
        assert(data.subrange(0, part.len() as int) =~= data);
    }
}

/// A place in a byte string holds no two text fields.
pub proof fn lemma_text_unique(data: Seq<u8>, pos: int, a: Seq<char>, b: Seq<char>)
    requires
        text_fits(a),
        text_fits(b),
        stands_at(data, pos, text_field(a)),
        stands_at(data, pos, text_field(b)),
    ensures
        a == b,
{
    let x = encode_utf8(a);
    let y = encode_utf8(b);
    lemma_be16(x.len(), be16(x.len()));
    lemma_be16(y.len(), be16(y.len()));
    lemma_stands_concat(data, pos, be16(x.len()), x);
    lemma_stands_concat(data, pos, be16(y.len()), y);
    assert(be16(x.len()) == be16(y.len()));
    assert(x == y);
    lemma_encode_injective(a, b);
}

/// A place in a byte string holds no two blob fields.
pub proof fn lemma_blob_unique(data: Seq<u8>, pos: int, a: Seq<u8>, b: Seq<u8>)
    requires
        blob_fits(a),
        blob_fits(b),
        stands_at(data, pos, blob_field(a)),
        stands_at(data, pos, blob_field(b)),
    ensures
        a == b,
{
    lemma_be32(a.len(), be32(a.len()));
    lemma_be32(b.len(), be32(b.len()));
    lemma_stands_concat(data, pos, be32(a.len()), a);
    lemma_stands_concat(data, pos, be32(b.len()), b);
    assert(be32(a.len()) == be32(b.len()));
}

/// The length of a text field.
pub proof fn lemma_text_len(text: Seq<char>)
    ensures
        text_field(text).len() == 2 + encode_utf8(text).len(),
{
    lemma_be16(encode_utf8(text).len(), be16(0));
}

/// The length of a blob field.
pub proof fn lemma_blob_len(blob: Seq<u8>)
    ensures
        blob_field(blob).len() == 4 + blob.len(),
{
    lemma_be32(blob.len(), be32(0));
}

/// Reads the text field at `pos`. Returns the text and the position after the field, or `None`
/// where no text field stands there.
pub fn take_text(data: &[u8], pos: usize) -> (taken: Option<(String, usize)>)
    requires
        pos <= data@.len(),
    ensures
        match taken {
            Some((text, next)) => text_fits(text@) && stands_at(
                data@,
                pos as int,
                text_field(text@),
            ) && next == pos + text_field(text@).len(),
            None => forall|text: Seq<char>|
                text_fits(text) ==> !stands_at(data@, pos as int, #[trigger] text_field(text)),
        },
{
    proof {
        assert forall|text: Seq<char>|
            text_fits(text) && stands_at(data@, pos as int, #[trigger] text_field(text)) implies pos
            + 2 + encode_utf8(text).len() <= data@.len() && encode_utf8(text).len() == from_be16(
            data@.subrange(pos as int, pos + 2),
        ) && data@.subrange(pos + 2, pos + 2 + encode_utf8(text).len()) == encode_utf8(text) by {
            let bytes = encode_utf8(text);
            lemma_be16(bytes.len(), be16(bytes.len()));
            lemma_stands_concat(data@, pos as int, be16(bytes.len()), bytes);
        }
    }
    if data.len() - pos < 2 {
        return None;
    }
    let len: usize = read_u16(data, pos) as usize;
    if data.len() - pos - 2 < len {
        return None;
    }
    let start: usize = pos + 2;
    let bytes = slice_subrange(data, start, start + len);
    match text_from_bytes(bytes) {
        Some(text) => {
            proof {
                let prefix = data@.subrange(pos as int, pos + 2);
                lemma_be16(0, prefix);
                lemma_stands_concat(data@, pos as int, be16(len as nat), bytes@);
            }
            Some((text, start + len))
        },
        None => {
            proof {
                assert forall|text: Seq<char>| text_fits(text) implies !stands_at(
                    data@,
                    pos as int,
                    #[trigger] text_field(text),
                ) by {
                    encode_utf8_valid_utf8(text);
                }
            }
            None
        },
    }
}

/// Reads the blob field at `pos`. Returns the blob and the position after the field, or `None`
/// where no blob field stands there.
pub fn take_blob(data: &[u8], pos: usize) -> (taken: Option<(Vec<u8>, usize)>)
    requires
        pos <= data@.len(),
    ensures
        match taken {
            Some((blob, next)) => blob_fits(blob@) && stands_at(
                data@,
                pos as int,
                blob_field(blob@),
            ) && next == pos + blob_field(blob@).len(),
            None => forall|blob: Seq<u8>|
                blob_fits(blob) ==> !stands_at(data@, pos as int, #[trigger] blob_field(blob)),
        },
{
    proof {
        assert forall|blob: Seq<u8>|
            blob_fits(blob) && stands_at(data@, pos as int, #[trigger] blob_field(blob)) implies pos
            + 4 + blob.len() <= data@.len() && blob.len() == from_be32(
            data@.subrange(pos as int, pos + 4),
        ) by {
            lemma_be32(blob.len(), be32(blob.len()));
            lemma_stands_concat(data@, pos as int, be32(blob.len()), blob);
        }
    }
    if data.len() - pos < 4 {
        return None;
    }
    let len: u32 = read_u32(data, pos);
    if ((data.len() - pos - 4) as u64) < len as u64 {
        return None;
    }
    let start: usize = pos + 4;
    let end: usize = start + len as usize;
    let blob = copy_bytes(slice_subrange(data, start, end));
    proof {
        let prefix = data@.subrange(pos as int, pos + 4);
        lemma_be32(0, prefix);
        lemma_stands_concat(data@, pos as int, be32(len as nat), blob@);
    }
    Some((blob, end))
}

/// Appends a text field.
pub fn push_text(out: &mut Vec<u8>, text: &str)
    requires
        text_fits(text@),
    ensures
        final(out)@ == old(out)@ + text_field(text@),
{
    let bytes = text.as_bytes();
    push_u16(out, bytes.len() as u16);
    push_bytes(out, bytes);
    assert(out@ =~= old(out)@ + text_field(text@));
}

/// Appends a blob field.
pub fn push_blob(out: &mut Vec<u8>, blob: &[u8])
    requires
        blob_fits(blob@),
    ensures
        final(out)@ == old(out)@ + blob_field(blob@),
{
    push_u32(out, blob.len() as u32);
    push_bytes(out, blob);
    assert(out@ =~= old(out)@ + blob_field(blob@));
}

} // verus!
