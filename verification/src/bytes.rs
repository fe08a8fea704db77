//! Big-endian integers and byte strings.
use vstd::prelude::*;

verus! {

/// The two bytes of `n`, most significant first.
pub open spec fn be16(n: nat) -> Seq<u8> {
    seq![(n / 256) as u8, (n % 256) as u8]
}

/// The four bytes of `n`, most significant first.
pub open spec fn be32(n: nat) -> Seq<u8> {
    be16(n / 0x1_0000) + be16(n % 0x1_0000)
}

/// The eight bytes of `n`, most significant first.
pub open spec fn be64(n: nat) -> Seq<u8> {
    be32(n / 0x1_0000_0000) + be32(n % 0x1_0000_0000)
}

/// The number that two bytes stand for, most significant first.
pub open spec fn from_be16(b: Seq<u8>) -> nat {
    (b[0] * 256 + b[1]) as nat
}

/// The number that four bytes stand for, most significant first.
pub open spec fn from_be32(b: Seq<u8>) -> nat {
    from_be16(b.subrange(0, 2)) * 0x1_0000 + from_be16(b.subrange(2, 4))
}

/// The number that eight bytes stand for, most significant first.
pub open spec fn from_be64(b: Seq<u8>) -> nat {
    from_be32(b.subrange(0, 4)) * 0x1_0000_0000 + from_be32(b.subrange(4, 8))
}

/// Two bytes and the number they stand for determine each other.
pub proof fn lemma_be16(n: nat, b: Seq<u8>)
    requires
        b.len() == 2,
    ensures
        be16(n).len() == 2,
        from_be16(b) < 0x1_0000,
        be16(from_be16(b)) == b,
        n < 0x1_0000 ==> from_be16(be16(n)) == n,
{
    assert(be16(from_be16(b)) =~= b);
}

/// Four bytes and the number they stand for determine each other.
pub proof fn lemma_be32(n: nat, b: Seq<u8>)
    requires
        b.len() == 4,
    ensures
        be32(n).len() == 4,
        from_be32(b) < 0x1_0000_0000,
        be32(from_be32(b)) == b,
        n < 0x1_0000_0000 ==> from_be32(be32(n)) == n,
{
    lemma_be16(n / 0x1_0000, b.subrange(0, 2));
    lemma_be16(n % 0x1_0000, b.subrange(2, 4));
    assert(be32(n).subrange(0, 2) =~= be16(n / 0x1_0000));
    assert(be32(n).subrange(2, 4) =~= be16(n % 0x1_0000));
    assert(from_be32(b) / 0x1_0000 == from_be16(b.subrange(0, 2)));
    assert(from_be32(b) % 0x1_0000 == from_be16(b.subrange(2, 4)));
    assert(be32(from_be32(b)) =~= b);
}

/// Eight bytes and the number they stand for determine each other.
pub proof fn lemma_be64(n: nat, b: Seq<u8>)
    requires
        b.len() == 8,
    ensures
        be64(n).len() == 8,
        from_be64(b) < 0x1_0000_0000_0000_0000,
        be64(from_be64(b)) == b,
        n < 0x1_0000_0000_0000_0000 ==> from_be64(be64(n)) == n,
{
    lemma_be32(n / 0x1_0000_0000, b.subrange(0, 4));
    lemma_be32(n % 0x1_0000_0000, b.subrange(4, 8));
    assert(be64(n).subrange(0, 4) =~= be32(n / 0x1_0000_0000));
    assert(be64(n).subrange(4, 8) =~= be32(n % 0x1_0000_0000));
    assert(from_be64(b) / 0x1_0000_0000 == from_be32(b.subrange(0, 4)));
    assert(from_be64(b) % 0x1_0000_0000 == from_be32(b.subrange(4, 8)));
    assert(be64(from_be64(b)) =~= b);
}

/// Reads a two-byte number at `pos`.
pub fn read_u16(data: &[u8], pos: usize) -> (n: u16)
    requires
        pos + 2 <= data@.len(),
    ensures
        n == from_be16(data@.subrange(pos as int, pos + 2)),
{
    data[pos] as u16 * 256 + data[pos + 1] as u16
}

/// Reads a four-byte number at `pos`.
pub fn read_u32(data: &[u8], pos: usize) -> (n: u32)
    requires
        pos + 4 <= data@.len(),
    ensures
        n == from_be32(data@.subrange(pos as int, pos + 4)),
{
    let ghost b = data@.subrange(pos as int, pos + 4);
    assert(b.subrange(0, 2) =~= data@.subrange(pos as int, pos + 2));
    assert(b.subrange(2, 4) =~= data@.subrange(pos + 2, pos + 4));
    assert(data@.len() == data.len());
    let high: u32 = read_u16(data, pos) as u32;
    let low: u32 = read_u16(data, pos + 2) as u32;
    high * 0x1_0000 + low
}

/// Reads an eight-byte number at `pos`.
pub fn read_u64(data: &[u8], pos: usize) -> (n: u64)
    requires
        pos + 8 <= data@.len(),
    ensures
        n == from_be64(data@.subrange(pos as int, pos + 8)),
{
    let ghost b = data@.subrange(pos as int, pos + 8);
    assert(b.subrange(0, 4) =~= data@.subrange(pos as int, pos + 4));
    assert(b.subrange(4, 8) =~= data@.subrange(pos + 4, pos + 8));
    assert(data@.len() == data.len());
    let high: u64 = read_u32(data, pos) as u64;
    let low: u64 = read_u32(data, pos + 4) as u64;
    high * 0x1_0000_0000 + low
}

/// Appends the bytes of `src` to `out`.
pub fn push_bytes(out: &mut Vec<u8>, src: &[u8])
    ensures
        final(out)@ == old(out)@ + src@,
{
    out.extend_from_slice(src);
    assert(out@ =~= old(out)@ + src@);
}

/// Appends the two bytes of `n` to `out`.
pub fn push_u16(out: &mut Vec<u8>, n: u16)
    ensures
        final(out)@ == old(out)@ + be16(n as nat),
{
    out.push((n / 256) as u8);
    out.push((n % 256) as u8);
    assert(out@ =~= old(out)@ + be16(n as nat));
}

/// Appends the four bytes of `n` to `out`.
pub fn push_u32(out: &mut Vec<u8>, n: u32)
    ensures
        final(out)@ == old(out)@ + be32(n as nat),
{
    push_u16(out, (n / 0x1_0000) as u16);
    push_u16(out, (n % 0x1_0000) as u16);
    assert(out@ =~= old(out)@ + be32(n as nat));
}

/// Appends the eight bytes of `n` to `out`.
pub fn push_u64(out: &mut Vec<u8>, n: u64)
    ensures
        final(out)@ == old(out)@ + be64(n as nat),
{
    push_u32(out, (n / 0x1_0000_0000) as u32);
    push_u32(out, (n % 0x1_0000_0000) as u32);
    assert(out@ =~= old(out)@ + be64(n as nat));
}

/// Copies a byte string.
pub fn copy_bytes(src: &[u8]) -> (out: Vec<u8>)
    ensures
        out@ == src@,
{
    let mut out: Vec<u8> = Vec::with_capacity(src.len());
    push_bytes(&mut out, src);
    assert(out@ =~= src@);
    out
}

/// Whether `bytes` begins with `prefix`.
pub fn starts_with(bytes: &[u8], prefix: &[u8]) -> (yes: bool)
    ensures
        yes == prefix@.is_prefix_of(bytes@),
{
    if prefix.len() > bytes.len() {
        return false;
    }
    let mut i: usize = 0;
    while i < prefix.len()
        invariant
            i <= prefix@.len() <= bytes@.len(),
            forall|j: int| 0 <= j < i ==> prefix@[j] == bytes@[j],
        decreases prefix@.len() - i,
    {
        if prefix[i] != bytes[i] {
            assert(prefix@[i as int] != bytes@.subrange(0, prefix@.len() as int)[i as int]);
            return false;
        }
        i += 1;
    }
    assert(prefix@ =~= bytes@.subrange(0, prefix@.len() as int));
    true
}

/// Whether two byte strings are equal.
pub fn bytes_equal(a: &[u8], b: &[u8]) -> (yes: bool)
    ensures
        yes == (a@ == b@),
{
    if a.len() != b.len() {
        return false;
    }
    let yes = starts_with(a, b);
    assert(a@.subrange(0, b@.len() as int) =~= a@);
    yes
}

/// The order of byte strings: by the first byte in which they differ, a proper prefix first.
pub open spec fn bytes_less(a: Seq<u8>, b: Seq<u8>) -> bool
    decreases a.len(),
{
    if b.len() == 0 {
        false
    } else if a.len() == 0 {
        true
    } else if a[0] != b[0] {
        a[0] < b[0]
    } else {
        bytes_less(a.drop_first(), b.drop_first())
    }
}

/// No byte string comes before itself, and of two different ones exactly one comes first.
pub proof fn lemma_bytes_less_total(a: Seq<u8>, b: Seq<u8>)
    ensures
        bytes_less(a, b) ==> !bytes_less(b, a) && a != b,
        a != b ==> bytes_less(a, b) || bytes_less(b, a),
    decreases a.len(),
{
    if a.len() > 0 && b.len() > 0 {
        lemma_bytes_less_total(a.drop_first(), b.drop_first());
        if a.drop_first() == b.drop_first() && a[0] == b[0] {
            assert(a =~= seq![a[0]] + a.drop_first());
            assert(b =~= seq![b[0]] + b.drop_first());
        }
    } else if a.len() == 0 && b.len() == 0 {
        assert(a =~= b);
    }
}

/// The order of byte strings is transitive.
pub proof fn lemma_bytes_less_transitive(a: Seq<u8>, b: Seq<u8>, c: Seq<u8>)
    requires
        bytes_less(a, b),
        bytes_less(b, c),
    ensures
        bytes_less(a, c),
    decreases a.len(),
{
    if a.len() > 0 && a[0] == b[0] && b[0] == c[0] {
        lemma_bytes_less_transitive(a.drop_first(), b.drop_first(), c.drop_first());
    }
}

/// Whether `a` comes before `b`.
pub fn is_less(a: &[u8], b: &[u8]) -> (yes: bool)
    ensures
        yes == bytes_less(a@, b@),
{
    let mut i: usize = 0;
    assert(a@.skip(0) =~= a@);
    assert(b@.skip(0) =~= b@);
    while i < a.len() && i < b.len()
        invariant
            i <= a@.len(),
            i <= b@.len(),
            bytes_less(a@, b@) == bytes_less(a@.skip(i as int), b@.skip(i as int)),
        decreases a@.len() - i,
    {
        assert(a@.skip(i as int).drop_first() =~= a@.skip(i + 1));
        assert(b@.skip(i as int).drop_first() =~= b@.skip(i + 1));
        if a[i] != b[i] {
            return a[i] < b[i];
        }
        i += 1;
    }
    i < b.len()
}

} // verus!
