//! CRC-32 with the IEEE 802.3 polynomial.
use vstd::prelude::*;

verus! {

/// The polynomial, lowest power in the highest bit.
pub const POLYNOMIAL: u32 = 0xEDB8_8320;

/// Bit `i` of a byte, counted from the least significant.
pub open spec fn bit_of(byte: u8, i: nat) -> bool {
    (byte >> (i as u8)) & 1 == 1
}

/// The shift register after one message bit: it moves on by one place, and the polynomial is
/// added where the bit that leaves it differs from the message bit.
pub open spec fn feed_bit(register: u32, bit: bool) -> u32 {
    if (register & 1 == 1) != bit {
        (register >> 1) ^ POLYNOMIAL
    } else {
        register >> 1
    }
}

/// The shift register after the `n` low bits of a byte, least significant first.
pub open spec fn feed_bits(register: u32, byte: u8, n: nat) -> u32
    decreases n,
{
    if n == 0 {
        register
    } else {
        feed_bit(feed_bits(register, byte, (n - 1) as nat), bit_of(byte, (n - 1) as nat))
    }
}

/// The shift register after all bytes of a message.
pub open spec fn feed(register: u32, data: Seq<u8>) -> u32
    decreases data.len(),
{
    if data.len() == 0 {
        register
    } else {
        feed_bits(feed(register, data.drop_last()), data.last(), 8)
    }
}

/// The CRC-32 of a message: the register starts with all bits set, and its complement is taken
/// at the end.
pub open spec fn crc32_of(data: Seq<u8>) -> u32 {
    !feed(0xFFFF_FFFF, data)
}

spec fn shift(c: u32) -> u32 {
    if c & 1 != 0 {
        (c >> 1) ^ 0xEDB8_8320
    } else {
        c >> 1
    }
}

spec fn shifts(c: u32, n: nat) -> u32
    decreases n,
{
    if n == 0 {
        c
    } else {
        shift(shifts(c, (n - 1) as nat))
    }
}

/// Adding the whole byte to the register first and then shifting gives, after each shift, the
/// bit-by-bit register with the bits still to come added to it.
proof fn lemma_shift_step(register: u32, byte: u8, c: u32, n: nat)
    requires
        n < 8,
        c == feed_bits(register, byte, n) ^ ((byte >> (n as u8)) as u32),
    ensures
        shift(c) == feed_bits(register, byte, n + 1) ^ ((byte >> ((n + 1) as u8)) as u32),
{
    let r = feed_bits(register, byte, n);
    let k = n as u8;
    let k1 = (n + 1) as u8;
    let low = (byte >> k) & 1 == 1;
    assert(feed_bits(register, byte, n + 1) == feed_bit(r, bit_of(byte, n)));
    assert(c & 1 != 0 <==> ((r & 1 == 1) != ((byte >> k) & 1 == 1))) by (bit_vector)
        requires
            c == r ^ ((byte >> k) as u32),
    ;
    assert(c >> 1 == (r >> 1) ^ ((byte >> k1) as u32)) by (bit_vector)
        requires
            c == r ^ ((byte >> k) as u32),
            k1 == k + 1,
            k < 8,
    ;
    let b1 = (byte >> k1) as u32;
    let r1 = r >> 1;
    assert((r1 ^ b1) ^ 0xEDB8_8320 == (r1 ^ 0xEDB8_8320) ^ b1) by (bit_vector);
}

proof fn lemma_feed_is_shifts(register: u32, byte: u8, n: nat)
    requires
        n <= 8,
    ensures
        shifts(register ^ (byte as u32), n) == feed_bits(register, byte, n) ^ ((byte >> (
        n as u8)) as u32),
    decreases n,
{
    if n == 0 {
        assert(byte >> 0u8 == byte) by (bit_vector);
    } else {
        let m = (n - 1) as nat;
        lemma_feed_is_shifts(register, byte, m);
        lemma_shift_step(register, byte, shifts(register ^ (byte as u32), m), m);
    }
}

proof fn lemma_feed_byte(register: u32, byte: u8)
    ensures
        shifts(register ^ (byte as u32), 8) == feed_bits(register, byte, 8),
{
    lemma_feed_is_shifts(register, byte, 8);
    let r = feed_bits(register, byte, 8);
    assert(r ^ ((byte >> 8u8) as u32) == r) by (bit_vector);
}

/// Computes the CRC-32 of `data`.
pub fn crc32(data: &[u8]) -> (crc: u32)
    ensures
        crc == crc32_of(data@),
{
    let mut crc: u32 = 0xFFFF_FFFF;
    let mut i: usize = 0;
    assert(data@.take(0) =~= Seq::<u8>::empty());
    while i < data.len()
        invariant
            i <= data@.len(),
            crc == feed(0xFFFF_FFFF, data@.take(i as int)),
        decreases data@.len() - i,
    {
        let byte = data[i];
        let mut c: u32 = crc ^ (byte as u32);
        let mut k: u8 = 0;
        while k < 8
            invariant
                k <= 8,
                c == shifts(crc ^ (byte as u32), k as nat),
            decreases 8 - k,
        {
            if c & 1 != 0 {
                c = (c >> 1) ^ POLYNOMIAL;
            } else {
                c = c >> 1;
            }
            k += 1;
        }
        proof {
            lemma_feed_byte(crc, byte);
            assert(data@.take(i + 1).drop_last() =~= data@.take(i as int));
        }
        crc = c;
        i += 1;
    }
    assert(data@.take(i as int) =~= data@);
    !crc
}

proof fn lemma_shift_injective(a: u32, b: u32)
    requires
        shift(a) == shift(b),
    ensures
        a == b,
{
    assert((if a & 1 != 0 {
        (a >> 1) ^ 0xEDB8_8320
    } else {
        a >> 1
    }) == (if b & 1 != 0 {
        (b >> 1) ^ 0xEDB8_8320
    } else {
        b >> 1
    }) ==> a == b) by (bit_vector);
}

proof fn lemma_shifts_injective(a: u32, b: u32, n: nat)
    requires
        shifts(a, n) == shifts(b, n),
    ensures
        a == b,
    decreases n,
{
    if n > 0 {
        lemma_shift_injective(shifts(a, (n - 1) as nat), shifts(b, (n - 1) as nat));
        lemma_shifts_injective(a, b, (n - 1) as nat);
    }
}

proof fn lemma_feed_byte_injective(r: u32, s: u32, a: u8, b: u8)
    requires
        feed_bits(r, a, 8) == feed_bits(s, b, 8),
    ensures
        r == s <==> a == b,
{
    lemma_feed_byte(r, a);
    lemma_feed_byte(s, b);
    lemma_shifts_injective(r ^ (a as u32), s ^ (b as u32), 8);
    assert(r == s <==> a == b) by (bit_vector)
        requires
            r ^ (a as u32) == s ^ (b as u32),
    ;
}

proof fn lemma_feed_differs(register: u32, a: Seq<u8>, b: Seq<u8>, at: int)
    requires
        a.len() == b.len(),
        0 <= at < a.len(),
        a[at] != b[at],
        forall|i: int| 0 <= i < a.len() && i != at ==> a[i] == b[i],
    ensures
        feed(register, a) != feed(register, b),
    decreases a.len(),
{
    let r = feed(register, a.drop_last());
    let s = feed(register, b.drop_last());
    if at == a.len() - 1 {
        assert(a.drop_last() =~= b.drop_last());
        if feed(register, a) == feed(register, b) {
            lemma_feed_byte_injective(r, s, a.last(), b.last());
        }
    } else {
        lemma_feed_differs(register, a.drop_last(), b.drop_last(), at);
        if feed(register, a) == feed(register, b) {
            lemma_feed_byte_injective(r, s, a.last(), b.last());
        }
    }
}

/// Changing exactly one byte of a message always changes its CRC-32.
pub proof fn law_crc_detects_one_changed_byte(a: Seq<u8>, b: Seq<u8>, at: int)
    requires
        a.len() == b.len(),
        0 <= at < a.len(),
        a[at] != b[at],
        forall|i: int| 0 <= i < a.len() && i != at ==> a[i] == b[i],
    ensures
        crc32_of(a) != crc32_of(b),
{
    lemma_feed_differs(0xFFFF_FFFF, a, b, at);
    let r = feed(0xFFFF_FFFF, a);
    let s = feed(0xFFFF_FFFF, b);
    assert(r != s ==> !r != !s) by (bit_vector);
}

/// The CRC-32 of nothing is 0. A further byte is added to the complement of the CRC, which then moves
/// on by eight places, and each time a 1 leaves it, the polynomial is added; the complement of that
/// is the new CRC.
pub proof fn law_crc_of_one_more_byte(data: Seq<u8>, byte: u8)
    ensures
        crc32_of(Seq::empty()) == 0,
        ({
            let x0 = !crc32_of(data) ^ (byte as u32);
            let x1 = if x0 & 1 == 1 {
                (x0 >> 1) ^ 0xEDB8_8320u32
            } else {
                x0 >> 1
            };
            let x2 = if x1 & 1 == 1 {
                (x1 >> 1) ^ 0xEDB8_8320u32
            } else {
                x1 >> 1
            };
            let x3 = if x2 & 1 == 1 {
                (x2 >> 1) ^ 0xEDB8_8320u32
            } else {
                x2 >> 1
            };
            let x4 = if x3 & 1 == 1 {
                (x3 >> 1) ^ 0xEDB8_8320u32
            } else {
                x3 >> 1
            };
            let x5 = if x4 & 1 == 1 {
                (x4 >> 1) ^ 0xEDB8_8320u32
            } else {
                x4 >> 1
            };
            let x6 = if x5 & 1 == 1 {
                (x5 >> 1) ^ 0xEDB8_8320u32
            } else {
                x5 >> 1
            };
            let x7 = if x6 & 1 == 1 {
                (x6 >> 1) ^ 0xEDB8_8320u32
            } else {
                x6 >> 1
            };
            let x8 = if x7 & 1 == 1 {
                (x7 >> 1) ^ 0xEDB8_8320u32
            } else {
                x7 >> 1
            };
            crc32_of(data.push(byte)) == !x8
        }),
{
    let register = feed(0xFFFF_FFFF, data);
    assert(!0xFFFF_FFFFu32 == 0) by (bit_vector);
    assert(!!register == register) by (bit_vector);
    assert(data.push(byte).drop_last() =~= data);
    lemma_feed_byte(register, byte);
    reveal_with_fuel(shifts, 9);
    assert(forall|c: u32| #[trigger] (c & 1) == 0 || c & 1 == 1) by (bit_vector);
}

} // verus!
