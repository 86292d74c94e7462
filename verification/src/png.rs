//! A minimal PNG encoder: 8-bit RGBA, stored (uncompressed) deflate blocks.
use vstd::prelude::*;
use vstd::slice::*;

use crate::bytes::{append, be32, le16, push_be32, push_le16};

pub mod checks;
pub mod reading;

verus! {

/// One step of the reflected CRC-32 shift register.
pub open spec fn crc_bit(c: u32) -> u32 {
    if c & 1 != 0 {
        0xEDB8_8320 ^ (c >> 1)
    } else {
        c >> 1
    }
}

/// `k` steps of the shift register.
pub open spec fn crc_bits(c: u32, k: nat) -> u32
    decreases k,
{
    if k == 0 {
        c
    } else {
        crc_bit(crc_bits(c, (k - 1) as nat))
    }
}

/// The register after `data` has been shifted in, eight steps per byte.
pub open spec fn crc_register(c: u32, data: Seq<u8>) -> u32
    decreases data.len(),
{
    if data.len() == 0 {
        c
    } else {
        crc_bits(crc_register(c, data.drop_last()) ^ (data.last() as u32), 8)
    }
}

/// The CRC-32 of `data`: the register starts with all ones and is inverted at the end.
pub open spec fn crc(data: Seq<u8>) -> u32 {
    !crc_register(0xFFFF_FFFF, data)
}

/// Computes `crc`.
pub fn crc32(data: &[u8]) -> (c: u32)
    ensures
        c == crc(data@),
{
    let mut c: u32 = 0xFFFF_FFFF;
    let mut i: usize = 0;
    assert(data@.take(0) =~= seq![]);
    while i < data.len()
        invariant
            i <= data@.len(),
            c == crc_register(0xFFFF_FFFF, data@.take(i as int)),
        decreases data@.len() - i,
    {
        let ghost before = c;
        c = c ^ (data[i] as u32);
        let mut k: u32 = 0;
        while k < 8
            invariant
                k <= 8,
                i < data@.len(),
                c == crc_bits(before ^ (data@[i as int] as u32), k as nat),
            decreases 8 - k,
        {
            c = if c & 1 != 0 {
                0xEDB8_8320 ^ (c >> 1)
            } else {
                c >> 1
            };
            k += 1;
        }
        assert(data@.take(i + 1).drop_last() =~= data@.take(i as int));
        i += 1;
    }
    assert(data@.take(data@.len() as int) =~= data@);
    !c
}

/// Data may be fed to the checksum in pieces.
pub proof fn crc_of_pieces(c: u32, a: Seq<u8>, b: Seq<u8>)
    ensures
        crc_register(c, a + b) == crc_register(crc_register(c, a), b),
    decreases b.len(),
{
    if b.len() == 0 {
        assert(a + b =~= a);
    } else {
        crc_of_pieces(c, a, b.drop_last());
        assert((a + b).drop_last() =~= a + b.drop_last());
    }
}

/// One plus the sum of all bytes.
pub open spec fn adler_a(data: Seq<u8>) -> int
    decreases data.len(),
{
    if data.len() == 0 {
        1
    } else {
        adler_a(data.drop_last()) + data.last()
    }
}

/// The sum of `adler_a` over all non-empty prefixes.
pub open spec fn adler_b(data: Seq<u8>) -> int
    decreases data.len(),
{
    if data.len() == 0 {
        0
    } else {
        adler_b(data.drop_last()) + adler_a(data)
    }
}

/// The Adler-32 checksum: both sums modulo 65521, `b` in the high half.
pub open spec fn adler(data: Seq<u8>) -> int {
    adler_b(data) % 65521 * 65536 + adler_a(data) % 65521
}

/// A sum may be reduced before more is added.
proof fn lemma_reduced_sum(x: int, d: int)
    ensures
        (x % 65521 + d) % 65521 == (x + d) % 65521,
{
}

/// Computes `adler`.
pub fn adler32(data: &[u8]) -> (c: u32)
    ensures
        c == adler(data@),
{
    let mut a: u32 = 1;
    let mut b: u32 = 0;
    let mut i: usize = 0;
    assert(data@.take(0) =~= seq![]);
    while i < data.len()
        invariant
            i <= data@.len(),
            a == adler_a(data@.take(i as int)) % 65521,
            b == adler_b(data@.take(i as int)) % 65521,
        decreases data@.len() - i,
    {
        proof {
            let before = data@.take(i as int);
            let after = data@.take(i + 1);
            assert(after.drop_last() =~= before);
            lemma_reduced_sum(adler_a(before), data@[i as int] as int);
            lemma_reduced_sum(adler_b(before), adler_a(after) % 65521);
            lemma_reduced_sum(adler_a(after), adler_b(before));
        }
        a = (a + data[i] as u32) % 65521;
        b = (b + a) % 65521;
        i += 1;
    }
    assert(data@.take(data@.len() as int) =~= data@);
    b * 65536 + a
}

/// A PNG chunk: length, tag, data, checksum of tag and data.
pub open spec fn chunk(tag: Seq<u8>, data: Seq<u8>) -> Seq<u8> {
    be32(data.len() as int) + tag + data + be32(crc(tag + data) as int)
}

/// The first `k` scanlines: a filter byte 0, then the row's pixels.
pub open spec fn scanlines(w: int, rgba: Seq<u8>, k: int) -> Seq<u8>
    decreases k,
{
    if k <= 0 {
        seq![]
    } else {
        scanlines(w, rgba, k - 1) + seq![0u8] + rgba.subrange((k - 1) * (4 * w), k * (4 * w))
    }
}

/// The longest stored block.
pub const BLOCK: usize = 65535;

/// One stored deflate block.
pub open spec fn stored_block(last: bool, data: Seq<u8>) -> Seq<u8> {
    seq![if last { 1u8 } else { 0u8 }] + le16(data.len() as int) + le16(65535 - data.len()) + data
}

/// A deflate stream of stored blocks.
pub open spec fn stored(data: Seq<u8>) -> Seq<u8>
    decreases data.len(),
{
    if data.len() <= BLOCK {
        stored_block(true, data)
    } else {
        stored_block(false, data.take(BLOCK as int)) + stored(data.skip(BLOCK as int))
    }
}

/// A zlib stream of stored blocks.
pub open spec fn zlib(data: Seq<u8>) -> Seq<u8> {
    seq![0x78u8, 0x01u8] + stored(data) + be32(adler(data))
}

pub open spec fn signature() -> Seq<u8> {
    seq![0x89u8, 0x50u8, 0x4Eu8, 0x47u8, 0x0Du8, 0x0Au8, 0x1Au8, 0x0Au8]
}

/// The header chunk's data: size, 8 bits per channel, RGBA, no interlacing.
pub open spec fn header(w: int, h: int) -> Seq<u8> {
    be32(w) + be32(h) + seq![8u8, 6u8, 0u8, 0u8, 0u8]
}

/// The tags `IHDR`, `IDAT` and `IEND`.
pub open spec fn tag_ihdr() -> Seq<u8> {
    seq![0x49u8, 0x48u8, 0x44u8, 0x52u8]
}

pub open spec fn tag_idat() -> Seq<u8> {
    seq![0x49u8, 0x44u8, 0x41u8, 0x54u8]
}

pub open spec fn tag_iend() -> Seq<u8> {
    seq![0x49u8, 0x45u8, 0x4Eu8, 0x44u8]
}

/// The PNG file of a `w` by `h` image.
pub open spec fn png(w: int, h: int, rgba: Seq<u8>) -> Seq<u8> {
    signature() + chunk(tag_ihdr(), header(w, h)) + chunk(
        tag_idat(),
        zlib(scanlines(w, rgba, h)),
    ) + chunk(tag_iend(), seq![])
}

/// The most bytes that the file of an image with `r` bytes of scanlines can have: five for each
/// stored block, and 63 for what stands around them.
pub open spec fn most_bytes(r: int) -> int {
    r + 5 * (r / BLOCK as int + 1) + 63
}

/// Stored blocks take five bytes each.
proof fn lemma_stored_len(data: Seq<u8>)
    ensures
        data.len() <= stored(data).len() <= data.len() + 5 * (data.len() / BLOCK as nat + 1),
    decreases data.len(),
{
    if data.len() > BLOCK {
        lemma_stored_len(data.skip(BLOCK as int));
    }
}

/// Appends the four low bytes of a size.
fn push_size(out: &mut Vec<u8>, n: usize)
    ensures
        final(out)@ == old(out)@ + be32(n as int),
{
    out.push((n / 0x100_0000 % 256) as u8);
    out.push((n / 0x1_0000 % 256) as u8);
    out.push((n / 256 % 256) as u8);
    out.push((n % 256) as u8);
    assert(out@ =~= old(out)@ + be32(n as int));
}

/// Appends a chunk.
fn push_chunk(out: &mut Vec<u8>, tag: [u8; 4], data: &[u8])
    ensures
        final(out)@ == old(out)@ + chunk(tag@, data@),
{
    push_size(out, data.len());
    let start: usize = out.len();
    append(out, tag.as_slice());
    append(out, data);
    let body = slice_subrange(out.as_slice(), start, out.len());
    assert(body@ =~= tag@ + data@);
    let sum: u32 = crc32(body);
    push_be32(out, sum);
    assert(out@ =~= old(out)@ + chunk(tag@, data@));
}

/// Raw scanlines with filter byte 0.
fn push_scanlines(w: usize, h: usize, rgba: &[u8]) -> (raw: Vec<u8>)
    requires
        h * (4 * w) <= rgba@.len(),
        h * (4 * w + 1) <= isize::MAX,
    ensures
        raw@ == scanlines(w as int, rgba@, h as int),
{
    let size: usize = if h == 0 {
        0
    } else {
        assert(4 * w + 1 <= h * (4 * w + 1)) by (nonlinear_arith)
            requires
                h >= 1,
                w >= 0,
        ;
        h * (4 * w + 1)
    };
    let mut raw: Vec<u8> = Vec::with_capacity(size);
    let mut y: usize = 0;
    let mut start: usize = 0;
    while y < h
        invariant
            y <= h,
            start == y * (4 * w),
            h * (4 * w) <= rgba@.len(),
            raw@ == scanlines(w as int, rgba@, y as int),
        decreases h - y,
    {
        assert(rgba.len() == rgba@.len());
        proof {
            assert(y * (4 * w) + 4 * w == (y + 1) * (4 * w) && (y + 1) * (4 * w) <= h * (4 * w))
                by (nonlinear_arith)
                requires
                    0 <= y < h,
                    0 <= w,
            ;
            assert(0 <= y * (4 * w)) by (nonlinear_arith)
                requires
                    0 <= y,
                    0 <= w,
            ;
        }
        let end: usize = start + 4 * w;
        raw.push(0);
        append(&mut raw, slice_subrange(rgba, start, end));
        y += 1;
        assert(raw@ =~= scanlines(w as int, rgba@, y as int));
        start = end;
    }
    raw
}

/// Appends the stored blocks of `raw`.
fn push_stored(z: &mut Vec<u8>, raw: &[u8])
    ensures
        final(z)@ == old(z)@ + stored(raw@),
{
    let ghost z0 = z@;
    let total: usize = raw.len();
    let mut start: usize = 0;
    assert(raw@.skip(0) =~= raw@);
    while total - start > BLOCK
        invariant
            start <= total == raw@.len(),
            z@ + stored(raw@.skip(start as int)) == z0 + stored(raw@),
        decreases total - start,
    {
        let ghost rest = raw@.skip(start as int);
        let ghost before = z@;
        z.push(0);
        push_le16(z, 65535);
        push_le16(z, 0);
        let part = slice_subrange(raw, start, start + BLOCK);
        append(z, part);
        proof {
            assert(part@ =~= rest.take(BLOCK as int));
            assert(raw@.skip(start + BLOCK) =~= rest.skip(BLOCK as int));
            assert(z@ + stored(rest.skip(BLOCK as int)) =~= before + (stored_block(
                false,
                rest.take(BLOCK as int),
            ) + stored(rest.skip(BLOCK as int))));
        }
        start += BLOCK;
    }
    let ghost rest = raw@.skip(start as int);
    let ghost before = z@;
    let n: usize = total - start;
    z.push(1);
    push_le16(z, n as u16);
    push_le16(z, (65535 - n) as u16);
    let part = slice_subrange(raw, start, total);
    append(z, part);
    proof {
        assert(part@ =~= rest);
        assert(z@ =~= before + stored_block(true, rest));
    }
}

/// Encodes an RGBA image as a PNG file.
pub fn encode_png(w: usize, h: usize, rgba: &[u8]) -> (out: Vec<u8>)
    requires
        h * (4 * w) <= rgba@.len(),
        most_bytes(h * (4 * w + 1)) <= isize::MAX,
    ensures
        out@ == png(w as int, h as int, rgba@),
        out@.len() <= most_bytes(h * (4 * w + 1)),
{
    proof {
        assert(0 <= h * (4 * w + 1)) by (nonlinear_arith)
            requires
                h >= 0,
                w >= 0,
        ;
        lemma_scanlines_len(w as int, rgba@, h as int);
        lemma_stored_len(scanlines(w as int, rgba@, h as int));
    }
    let raw: Vec<u8> = push_scanlines(w, h, rgba);
    let mut z: Vec<u8> = Vec::with_capacity(raw.len() + 5 * (raw.len() / BLOCK + 1) + 6);
    z.push(0x78);
    z.push(0x01);
    push_stored(&mut z, raw.as_slice());
    push_be32(&mut z, adler32(raw.as_slice()));
    assert(z@ =~= zlib(raw@));

    let mut out: Vec<u8> = Vec::with_capacity(z.len() + 57);
    append(&mut out, [0x89u8, 0x50, 0x4E, 0x47, 0x0D, 0x0A, 0x1A, 0x0A].as_slice());
    assert(out@ =~= signature());
    let mut ihdr: Vec<u8> = Vec::new();
    push_size(&mut ihdr, w);
    push_size(&mut ihdr, h);
    append(&mut ihdr, [8u8, 6, 0, 0, 0].as_slice());
    assert(ihdr@ =~= header(w as int, h as int));
    push_chunk(&mut out, [0x49, 0x48, 0x44, 0x52], ihdr.as_slice());
    push_chunk(&mut out, [0x49, 0x44, 0x41, 0x54], z.as_slice());
    push_chunk(&mut out, [0x49, 0x45, 0x4E, 0x44], Vec::new().as_slice());
    assert(out@ =~= png(w as int, h as int, rgba@));
    out
}

/// Reading stored deflate blocks: the data and what follows the last block; `None` if a block is
/// cut short, is not a stored one or has a wrong length check.
pub open spec fn inflated(z: Seq<u8>) -> Option<(Seq<u8>, Seq<u8>)>
    decreases z.len(),
{
    if z.len() < 5 {
        None
    } else {
        let n = z[1] + 256 * z[2];
        if z[3] + 256 * z[4] != 65535 - n || z.len() < 5 + n || z[0] > 1 {
            None
        } else {
            let data = z.subrange(5, 5 + n);
            let rest = z.skip(5 + n);
            if z[0] == 1 {
                Some((data, rest))
            } else {
                match inflated(rest) {
                    Some((more, end)) => Some((data + more, end)),
                    None => None,
                }
            }
        }
    }
}

proof fn lemma_block_reads(last: bool, data: Seq<u8>, after: Seq<u8>)
    requires
        data.len() <= BLOCK,
    ensures
        ({
            let z = stored_block(last, data) + after;
            let n = data.len() as int;
            &&& z.len() >= 5 + n
            &&& z[0] == (if last { 1u8 } else { 0u8 })
            &&& z[1] + 256 * z[2] == n
            &&& z[3] + 256 * z[4] == 65535 - n
            &&& z.subrange(5, 5 + n) == data
            &&& z.skip(5 + n) == after
        }),
{
    let z = stored_block(last, data) + after;
    let n = data.len() as int;
    let lo = le16(n);
    let hi = le16(65535 - n);
    assert(z[1] == lo[0] && z[2] == lo[1] && z[3] == hi[0] && z[4] == hi[1]);
    assert(z.subrange(5, 5 + n) =~= data);
    assert(z.skip(5 + n) =~= after);
}

/// Reading the stored blocks gives back exactly what was stored, and stops behind them.
pub proof fn stored_data_reads_back(data: Seq<u8>, tail: Seq<u8>)
    ensures
        inflated(stored(data) + tail) == Some((data, tail)),
    decreases data.len(),
{
    if data.len() <= BLOCK {
        lemma_block_reads(true, data, tail);
    } else {
        let first = data.take(BLOCK as int);
        let rest = data.skip(BLOCK as int);
        stored_data_reads_back(rest, tail);
        lemma_block_reads(false, first, stored(rest) + tail);
        assert(stored(data) + tail =~= stored_block(false, first) + (stored(rest) + tail));
        assert(first + rest =~= data);
    }
}

pub(crate) proof fn lemma_scanlines_len(w: int, rgba: Seq<u8>, k: int)
    requires
        0 <= w,
        0 <= k,
        k * (4 * w) <= rgba.len(),
    ensures
        scanlines(w, rgba, k).len() == k * (4 * w + 1),
    decreases k,
{
    if k > 0 {
        assert((k - 1) * (4 * w) + 4 * w == k * (4 * w) && 0 <= (k - 1) * (4 * w) && (k - 1) * (4
            * w + 1) + 4 * w + 1 == k * (4 * w + 1)) by (nonlinear_arith)
            requires
                k > 0,
                0 <= w,
        ;
        lemma_scanlines_len(w, rgba, k - 1);
    } else {
        assert(0 * (4 * w + 1) == 0) by (nonlinear_arith);
    }
}

/// Row `y` of the scanlines is a filter byte 0 followed by the row's pixels, unchanged.
pub proof fn scanlines_hold_pixels(w: int, rgba: Seq<u8>, k: int, y: int, i: int)
    requires
        0 <= w,
        0 <= y < k,
        0 <= i < 4 * w,
        k * (4 * w) <= rgba.len(),
    ensures
        scanlines(w, rgba, k).len() == k * (4 * w + 1),
        scanlines(w, rgba, k)[y * (4 * w + 1)] == 0,
        scanlines(w, rgba, k)[y * (4 * w + 1) + 1 + i] == rgba[y * (4 * w) + i],
    decreases k,
{
    lemma_scanlines_len(w, rgba, k);
    assert((k - 1) * (4 * w) + 4 * w == k * (4 * w) && 0 <= (k - 1) * (4 * w)) by (nonlinear_arith)
        requires
            k > 0,
            0 <= w,
    ;
    lemma_scanlines_len(w, rgba, k - 1);
    let upper = scanlines(w, rgba, k - 1);
    let row = rgba.subrange((k - 1) * (4 * w), k * (4 * w));
    assert(scanlines(w, rgba, k) == upper + seq![0u8] + row);
    assert(0 <= y * (4 * w + 1)) by (nonlinear_arith)
        requires
            0 <= y,
            0 <= w,
    ;
    if y == k - 1 {
        assert(scanlines(w, rgba, k)[y * (4 * w + 1) + 1 + i] == row[i]);
    } else {
        scanlines_hold_pixels(w, rgba, k - 1, y, i);
        assert(y * (4 * w + 1) + 4 * w + 1 <= (k - 1) * (4 * w + 1)) by (nonlinear_arith)
            requires
                y + 1 <= k - 1,
                0 <= w,
        ;
    }
}

/// The data chunk of an encoded image inflates to its scanlines and ends with their checksum.
pub proof fn png_data_decodes(w: int, h: int, rgba: Seq<u8>)
    ensures
        ({
            let raw = scanlines(w, rgba, h);
            inflated(zlib(raw).skip(2)) == Some((raw, be32(adler(raw))))
        }),
{
    let raw = scanlines(w, rgba, h);
    stored_data_reads_back(raw, be32(adler(raw)));
    assert(zlib(raw).skip(2) =~= stored(raw) + be32(adler(raw)));
}

} // verus!
