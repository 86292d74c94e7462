//! Laws of the checksums: what they notice, and how they grow.
use vstd::prelude::*;

use super::{adler, adler_a, adler_b, crc, crc_bit, crc_bits, crc_of_pieces, crc_register};

verus! {

proof fn lemma_bit_is_reversible(a: u32, b: u32)
    requires
        crc_bit(a) == crc_bit(b),
    ensures
        a == b,
{
    assert((if a & 1 != 0 {
        0xEDB8_8320u32 ^ (a >> 1)
    } else {
        a >> 1
    }) == (if b & 1 != 0 {
        0xEDB8_8320u32 ^ (b >> 1)
    } else {
        b >> 1
    }) ==> a == b) by (bit_vector);
}

proof fn lemma_bits_are_reversible(a: u32, b: u32, k: nat)
    requires
        crc_bits(a, k) == crc_bits(b, k),
    ensures
        a == b,
    decreases k,
{
    if k > 0 {
        let j = (k - 1) as nat;
        lemma_bit_is_reversible(crc_bits(a, j), crc_bits(b, j));
        lemma_bits_are_reversible(a, b, j);
    }
}

proof fn lemma_register_is_reversible(a: u32, b: u32, data: Seq<u8>)
    requires
        crc_register(a, data) == crc_register(b, data),
    ensures
        a == b,
    decreases data.len(),
{
    if data.len() > 0 {
        let front = data.drop_last();
        let x = data.last() as u32;
        let (p, q) = (crc_register(a, front), crc_register(b, front));
        lemma_bits_are_reversible(p ^ x, q ^ x, 8);
        assert(p ^ x == q ^ x ==> p == q) by (bit_vector);
        lemma_register_is_reversible(a, b, front);
    }
}

/// A changed byte is noticed, wherever it stands: data that differ in one byte have different
/// checksums.
pub proof fn changed_byte_is_noticed(before: Seq<u8>, x: u8, y: u8, after: Seq<u8>)
    requires
        crc(before + seq![x] + after) == crc(before + seq![y] + after),
    ensures
        x == y,
{
    let c = crc_register(0xFFFF_FFFF, before);
    let (p, q) = (
        crc_register(0xFFFF_FFFF, before + seq![x] + after),
        crc_register(0xFFFF_FFFF, before + seq![y] + after),
    );
    assert(!p == !q ==> p == q) by (bit_vector);
    crc_of_pieces(0xFFFF_FFFF, before + seq![x], after);
    crc_of_pieces(0xFFFF_FFFF, before + seq![y], after);
    let (r, s) = (
        crc_register(0xFFFF_FFFF, before + seq![x]),
        crc_register(0xFFFF_FFFF, before + seq![y]),
    );
    lemma_register_is_reversible(r, s, after);
    assert((before + seq![x]).drop_last() =~= before);
    assert((before + seq![y]).drop_last() =~= before);
    let (u, v) = (x as u32, y as u32);
    lemma_bits_are_reversible(c ^ u, c ^ v, 8);
    assert(c ^ u == c ^ v ==> u == v) by (bit_vector);
}

/// The halves of an Adler checksum.
pub open spec fn low_half(data: Seq<u8>) -> int {
    adler(data) % 0x1_0000
}

pub open spec fn high_half(data: Seq<u8>) -> int {
    adler(data) / 0x1_0000
}

/// The low half starts with 1 and grows by each byte, the high half starts with 0 and grows by each
/// low half, both modulo the largest prime below 65536.
pub proof fn adler_grows_byte_by_byte(data: Seq<u8>, x: u8)
    ensures
        low_half(seq![]) == 1,
        high_half(seq![]) == 0,
        low_half(data.push(x)) == (low_half(data) + x) % 65521,
        high_half(data.push(x)) == (high_half(data) + low_half(data.push(x))) % 65521,
        0 <= low_half(data) < 65521,
        0 <= high_half(data) < 65521,
{
    assert(data.push(x).drop_last() =~= data);
    lemma_halves(data);
    lemma_halves(data.push(x));
    lemma_halves(seq![]);
    let (a, b) = (adler_a(data), adler_b(data));
    assert((a % 65521 + x) % 65521 == (a + x) % 65521);
    let n = a + x;
    assert((b % 65521 + n % 65521) % 65521 == (b + n) % 65521);
}

proof fn lemma_halves(data: Seq<u8>)
    ensures
        low_half(data) == adler_a(data) % 65521,
        high_half(data) == adler_b(data) % 65521,
{
    let (p, q) = (adler_b(data) % 65521, adler_a(data) % 65521);
    assert((p * 65536 + q) / 65536 == p && (p * 65536 + q) % 65536 == q);
}

} // verus!
