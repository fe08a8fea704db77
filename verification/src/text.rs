//! Keys as UTF-8 text: conversion from bytes, order and prefixes.
use crate::bytes::{
    bytes_less, is_less, lemma_bytes_less_total, lemma_bytes_less_transitive, starts_with,
};
use vstd::prelude::*;
use vstd::string::StringSliceAdditionalSpecFns;
use vstd::utf8::{
    char_u32_cast, decode_utf8, encode_scalar, encode_utf8, encode_utf8_decode_utf8,
    encode_utf8_first_scalar, valid_utf8,
};

verus! {

/// `std::str::Utf8Error`, carried through and never looked into.
#[verifier::external_type_specification]
#[verifier::external_body]
pub struct ExUtf8Error(std::str::Utf8Error);

/// `std::str::from_utf8`: succeeds on exactly the valid UTF-8 byte strings, and the string it
/// then gives has the bytes it was given.
pub assume_specification[ std::str::from_utf8 ](v: &[u8]) -> (r: Result<&str, std::str::Utf8Error>)
    ensures
        r is Ok <==> valid_utf8(v@),
        r matches Ok(s) ==> s.spec_bytes() == v@,
;

/// The string whose UTF-8 bytes are `bytes`, or `None` where they are not valid UTF-8.
pub fn text_from_bytes(bytes: &[u8]) -> (text: Option<String>)
    ensures
        text is Some <==> valid_utf8(bytes@),
        text matches Some(s) ==> encode_utf8(s@) == bytes@ && s@ == decode_utf8(bytes@),
{
    match std::str::from_utf8(bytes) {
        Ok(s) => {
            proof {
                encode_utf8_decode_utf8(s@);
            }
            Some(s.to_owned())
        },
        Err(_) => None,
    }
}

/// Two strings with the same bytes are the same string.
pub proof fn lemma_encode_injective(a: Seq<char>, b: Seq<char>)
    requires
        encode_utf8(a) == encode_utf8(b),
    ensures
        a == b,
{
    encode_utf8_decode_utf8(a);
    encode_utf8_decode_utf8(b);
}

/// The order of keys: that of their UTF-8 bytes.
pub open spec fn key_less(a: Seq<char>, b: Seq<char>) -> bool {
    bytes_less(encode_utf8(a), encode_utf8(b))
}

/// Whether `a` comes before `b`.
pub fn key_is_less(a: &str, b: &str) -> (yes: bool)
    ensures
        yes == key_less(a@, b@),
{
    is_less(a.as_bytes(), b.as_bytes())
}

/// No key comes before itself, and of two different keys exactly one comes first.
pub proof fn lemma_key_less_total(a: Seq<char>, b: Seq<char>)
    ensures
        key_less(a, b) ==> !key_less(b, a) && a != b,
        a != b ==> key_less(a, b) || key_less(b, a),
{
    lemma_bytes_less_total(encode_utf8(a), encode_utf8(b));
    if a != b && encode_utf8(a) == encode_utf8(b) {
        lemma_encode_injective(a, b);
    }
}

/// The order of keys is transitive.
pub proof fn lemma_key_less_transitive(a: Seq<char>, b: Seq<char>, c: Seq<char>)
    requires
        key_less(a, b),
        key_less(b, c),
    ensures
        key_less(a, c),
{
    lemma_bytes_less_transitive(encode_utf8(a), encode_utf8(b), encode_utf8(c));
}

/// The bytes of two texts one after the other are the bytes of both.
pub proof fn lemma_encode_concat(a: Seq<char>, b: Seq<char>)
    ensures
        encode_utf8(a + b) == encode_utf8(a) + encode_utf8(b),
    decreases a.len(),
{
    if a.len() == 0 {
        assert(a + b =~= b);
        assert(encode_utf8(a) + encode_utf8(b) =~= encode_utf8(b));
    } else {
        lemma_encode_concat(a.drop_first(), b);
        assert((a + b).drop_first() =~= a.drop_first() + b);
        assert(encode_utf8(a + b) =~= encode_utf8(a) + encode_utf8(b));
    }
}

/// A string is a prefix of another exactly where its bytes are a prefix of the other's.
pub proof fn lemma_prefix_of_bytes(prefix: Seq<char>, key: Seq<char>)
    ensures
        prefix.is_prefix_of(key) <==> encode_utf8(prefix).is_prefix_of(encode_utf8(key)),
    decreases prefix.len(),
{
    if prefix.is_prefix_of(key) {
        let rest = key.subrange(prefix.len() as int, key.len() as int);
        assert(key =~= prefix + rest);
        lemma_encode_concat(prefix, rest);
        assert(encode_utf8(key).subrange(0, encode_utf8(prefix).len() as int) =~= encode_utf8(
            prefix,
        ));
    }
    if encode_utf8(prefix).is_prefix_of(encode_utf8(key)) {
        if prefix.len() == 0 {
            assert(prefix =~= key.subrange(0, 0));
        } else {
            let p = encode_utf8(prefix);
            let k = encode_utf8(key);
            encode_utf8_first_scalar(prefix);
            assert(p.len() > 0);
            assert(key.len() > 0);
            encode_utf8_first_scalar(key);
            assert forall|i: int| 0 <= i < p.len() implies p[i] == k[i] by {
                assert(k.subrange(0, p.len() as int)[i] == k[i]);
            }
            let first = prefix[0] as u32;
            assert(first == key[0] as u32);
            char_u32_cast(prefix[0], first);
            char_u32_cast(key[0], first);
            let n = encode_scalar(prefix[0] as u32).len() as int;
            let p2 = encode_utf8(prefix.drop_first());
            let k2 = encode_utf8(key.drop_first());
            assert(p2 =~= p.subrange(n, p.len() as int));
            assert(k2 =~= k.subrange(n, k.len() as int));
            assert(p2 =~= k2.subrange(0, p2.len() as int));
            lemma_prefix_of_bytes(prefix.drop_first(), key.drop_first());
            assert forall|i: int| 0 <= i < prefix.len() implies prefix[i] == key[i] by {
                if i > 0 {
                    assert(prefix.drop_first()[i - 1] == key.drop_first().subrange(
                        0,
                        prefix.len() - 1,
                    )[i - 1]);
                }
            }
            assert(prefix =~= key.subrange(0, prefix.len() as int));
        }
    }
}

/// Whether `key` begins with `prefix`.
pub fn key_starts_with(key: &str, prefix: &str) -> (yes: bool)
    ensures
        yes == prefix@.is_prefix_of(key@),
{
    proof {
        lemma_prefix_of_bytes(prefix@, key@);
    }
    starts_with(key.as_bytes(), prefix.as_bytes())
}

} // verus!
