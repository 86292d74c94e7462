//! What a PNG file of stored, unfiltered RGBA pixels holds, and that an encoded image reads back.
use vstd::prelude::*;

use crate::bytes::be32;
use crate::png::{
    adler, chunk, crc, header, inflated, lemma_scanlines_len, png, scanlines, scanlines_hold_pixels,
    signature, stored, stored_data_reads_back, tag_idat, tag_iend, tag_ihdr, zlib,
};

verus! {

/// The number in the four bytes at `at`, high byte first.
pub open spec fn number_at(b: Seq<u8>, at: int) -> int {
    b[at] * 0x100_0000 + b[at + 1] * 0x1_0000 + b[at + 2] * 256 + b[at + 3]
}

/// Reading the chunk at `at`: its tag, its data and where it ends; `None` if it is cut short or
/// its checksum is wrong.
#[verifier::opaque]
pub open spec fn read_chunk(b: Seq<u8>, at: int) -> Option<(Seq<u8>, Seq<u8>, int)> {
    let n = number_at(b, at);
    if at + 12 > b.len() || at + 12 + n > b.len() {
        None
    } else if number_at(b, at + 8 + n) != crc(b.subrange(at + 4, at + 8 + n)) {
        None
    } else {
        Some((b.subrange(at + 4, at + 8), b.subrange(at + 8, at + 8 + n), at + 12 + n))
    }
}

/// Reading a zlib stream of stored blocks: the data; `None` if it is broken or its checksum is
/// wrong.
pub open spec fn read_zlib(z: Seq<u8>) -> Option<Seq<u8>> {
    if z.len() < 2 || z[0] != 0x78 || z[1] != 0x01 {
        None
    } else {
        match inflated(z.skip(2)) {
            Some((raw, end)) => if end.len() == 4 && number_at(end, 0) == adler(raw) {
                Some(raw)
            } else {
                None
            },
            None => None,
        }
    }
}

/// The pixels of the first `k` scanlines.
pub open spec fn unfiltered(w: int, raw: Seq<u8>, k: int) -> Seq<u8>
    decreases k,
{
    if k <= 0 {
        seq![]
    } else {
        unfiltered(w, raw, k - 1) + raw.subrange((k - 1) * (4 * w + 1) + 1, k * (4 * w + 1))
    }
}

/// There are `h` scanlines, all with filter byte 0.
pub open spec fn plain_scanlines(w: int, h: int, raw: Seq<u8>) -> bool {
    raw.len() == h * (4 * w + 1) && forall|y: int|
        0 <= y < h ==> #[trigger] raw[y * (4 * w + 1)] == 0
}

/// Reading a PNG file of exactly the chunks `IHDR`, `IDAT` and `IEND`, 8-bit RGBA, stored and not
/// filtered: width, height and pixels.
pub open spec fn read_png(b: Seq<u8>) -> Option<(int, int, Seq<u8>)> {
    if b.len() < 8 || b.take(8) != signature() {
        None
    } else {
        match read_chunk(b, 8) {
            None => None,
            Some((tag1, head, at)) => match read_chunk(b, at) {
                None => None,
                Some((tag2, z, at2)) => match (read_chunk(b, at2), read_zlib(z)) {
                    (Some((tag3, end, at3)), Some(raw)) => {
                        let w = number_at(head, 0);
                        let h = number_at(head, 4);
                        if tag1 == tag_ihdr() && tag2 == tag_idat() && tag3 == tag_iend()
                            && head.len() == 13 && head.skip(8) == seq![8u8, 6u8, 0u8, 0u8, 0u8]
                            && end.len() == 0 && at3 == b.len() && plain_scanlines(w, h, raw) {
                            Some((w, h, unfiltered(w, raw, h)))
                        } else {
                            None
                        }
                    },
                    _ => None,
                },
            },
        }
    }
}

proof fn lemma_number_reads(v: int, b: Seq<u8>, at: int)
    requires
        0 <= v < 0x1_0000_0000,
        0 <= at,
        at + 4 <= b.len(),
        b.subrange(at, at + 4) == be32(v),
    ensures
        number_at(b, at) == v,
{
    let t = b.subrange(at, at + 4);
    assert(t[0] == b[at] && t[1] == b[at + 1] && t[2] == b[at + 2] && t[3] == b[at + 3]);
    assert(t[0] == v / 0x100_0000 % 256);
    assert(t[1] == v / 0x1_0000 % 256);
    assert(t[2] == v / 256 % 256);
    assert(t[3] == v % 256);
}

proof fn lemma_chunk_reads(b: Seq<u8>, at: int, tag: Seq<u8>, data: Seq<u8>, tail: Seq<u8>)
    requires
        0 <= at <= b.len(),
        tag.len() == 4,
        data.len() < 0x1_0000_0000,
        b.skip(at) == chunk(tag, data) + tail,
    ensures
        read_chunk(b, at) == Some((tag, data, at + 12 + data.len())),
        at + 12 + data.len() <= b.len(),
        b.skip(at + 12 + data.len()) == tail,
{
    reveal(read_chunk);
    let n = data.len() as int;
    let c = b.skip(at);
    let sum = crc(tag + data) as int;
    assert(c.len() == b.len() - at);
    assert(c.len() == 12 + n + tail.len());
    assert(b.subrange(at, at + 4) =~= be32(n)) by {
        assert(c.take(4) =~= be32(n));
        assert(b.subrange(at, at + 4) =~= c.take(4));
    }
    lemma_number_reads(n, b, at);
    assert(b.subrange(at + 8 + n, at + 12 + n) =~= be32(sum)) by {
        assert(c.subrange(8 + n, 12 + n) =~= be32(sum));
        assert(b.subrange(at + 8 + n, at + 12 + n) =~= c.subrange(8 + n, 12 + n));
    }
    lemma_number_reads(sum, b, at + 8 + n);
    assert(c.subrange(4, 8 + n) =~= tag + data);
    assert(b.subrange(at + 4, at + 8 + n) =~= c.subrange(4, 8 + n));
    assert(c.subrange(4, 8) =~= tag);
    assert(b.subrange(at + 4, at + 8) =~= c.subrange(4, 8));
    assert(c.subrange(8, 8 + n) =~= data);
    assert(b.subrange(at + 8, at + 8 + n) =~= c.subrange(8, 8 + n));
    assert(c.skip(12 + n) =~= tail);
    assert(b.skip(at + 12 + n) =~= c.skip(12 + n));
}

proof fn lemma_rows_read(w: int, h: int, rgba: Seq<u8>, k: int)
    requires
        0 <= w,
        0 <= k <= h,
        h * (4 * w) <= rgba.len(),
    ensures
        0 <= k * (4 * w) <= rgba.len(),
        unfiltered(w, scanlines(w, rgba, h), k) == rgba.take(k * (4 * w)),
    decreases k,
{
    let raw = scanlines(w, rgba, h);
    assert(0 <= k * (4 * w) <= h * (4 * w)) by (nonlinear_arith)
        requires
            0 <= k <= h,
            0 <= w,
    ;
    lemma_scanlines_len(w, rgba, h);
    if k == 0 {
        assert(k * (4 * w) == 0) by (nonlinear_arith)
            requires
                k == 0,
        ;
        assert(rgba.take(0) =~= seq![]);
    } else {
        lemma_rows_read(w, h, rgba, k - 1);
        let start = (k - 1) * (4 * w + 1);
        let from = (k - 1) * (4 * w);
        assert(start + 4 * w + 1 == k * (4 * w + 1) && from + 4 * w == k * (4 * w) && 0 <= start
            && k * (4 * w + 1) <= h * (4 * w + 1)) by (nonlinear_arith)
            requires
                start == (k - 1) * (4 * w + 1),
                from == (k - 1) * (4 * w),
                1 <= k <= h,
                0 <= w,
        ;
        let row = raw.subrange(start + 1, k * (4 * w + 1));
        assert forall|i: int| 0 <= i < row.len() implies row[i] == rgba[from + i] by {
            scanlines_hold_pixels(w, rgba, h, k - 1, i);
        }
        assert(unfiltered(w, raw, k) =~= rgba.take(k * (4 * w)));
    }
}

/// The first byte of every row is the filter byte, also where rows have no pixels.
proof fn lemma_filter_bytes(w: int, rgba: Seq<u8>, k: int, y: int)
    requires
        0 <= w,
        0 <= y < k,
        k * (4 * w) <= rgba.len(),
    ensures
        scanlines(w, rgba, k)[y * (4 * w + 1)] == 0,
    decreases k,
{
    assert((k - 1) * (4 * w) + 4 * w == k * (4 * w) && 0 <= (k - 1) * (4 * w)) by (nonlinear_arith)
        requires
            k > 0,
            0 <= w,
    ;
    lemma_scanlines_len(w, rgba, k - 1);
    if y < k - 1 {
        lemma_filter_bytes(w, rgba, k - 1, y);
        assert(0 <= y * (4 * w + 1) && y * (4 * w + 1) + 4 * w + 1 <= (k - 1) * (4 * w + 1))
            by (nonlinear_arith)
            requires
                0 <= y,
                y + 1 <= k - 1,
                0 <= w,
        ;
    }
}

proof fn lemma_zlib_reads(raw: Seq<u8>)
    ensures
        read_zlib(zlib(raw)) == Some(raw),
{
    let z = zlib(raw);
    let end = be32(adler(raw));
    stored_data_reads_back(raw, end);
    assert(z.skip(2) =~= stored(raw) + end);
    assert(z[0] == 0x78 && z[1] == 0x01);
    assert(end.subrange(0, 4) =~= end);
    lemma_number_reads(adler(raw), end, 0);
}

proof fn lemma_header_reads(w: int, h: int)
    requires
        0 <= w < 0x1_0000_0000,
        0 <= h < 0x1_0000_0000,
    ensures
        header(w, h).len() == 13,
        number_at(header(w, h), 0) == w,
        number_at(header(w, h), 4) == h,
        header(w, h).skip(8) == seq![8u8, 6u8, 0u8, 0u8, 0u8],
{
    let head = header(w, h);
    assert(head.subrange(0, 4) =~= be32(w));
    assert(head.subrange(4, 8) =~= be32(h));
    lemma_number_reads(w, head, 0);
    lemma_number_reads(h, head, 4);
    assert(head.skip(8) =~= seq![8u8, 6u8, 0u8, 0u8, 0u8]);
}

proof fn lemma_front_off(s: Seq<u8>, a: Seq<u8>, b: Seq<u8>, c: Seq<u8>)
    ensures
        (s + a + b + c).take(s.len() as int) == s,
        (s + a + b + c).skip(s.len() as int) == a + (b + c),
        c == c + Seq::<u8>::empty(),
{
    assert((s + a + b + c).take(s.len() as int) =~= s);
    assert((s + a + b + c).skip(s.len() as int) =~= a + (b + c));
    assert(c =~= c + Seq::<u8>::empty());
}

proof fn lemma_chunks_read(head: Seq<u8>, z: Seq<u8>)
    requires
        head.len() == 13,
        z.len() < 0x1_0000_0000,
    ensures
        ({
            let b = signature() + chunk(tag_ihdr(), head) + chunk(tag_idat(), z) + chunk(
                tag_iend(),
                seq![],
            );
            let end = 45 + z.len() as int;
            &&& b.len() == end + 12
            &&& b.take(8) == signature()
            &&& read_chunk(b, 8) == Some((tag_ihdr(), head, 33int))
            &&& read_chunk(b, 33) == Some((tag_idat(), z, end))
            &&& read_chunk(b, end) == Some((tag_iend(), Seq::<u8>::empty(), end + 12))
        }),
{
    let first = chunk(tag_ihdr(), head);
    let second = chunk(tag_idat(), z);
    let third = chunk(tag_iend(), seq![]);
    let b = signature() + first + second + third;
    let end = 45 + z.len() as int;
    assert(signature().len() == 8);
    lemma_front_off(signature(), first, second, third);
    lemma_chunk_reads(b, 8, tag_ihdr(), head, second + third);
    lemma_chunk_reads(b, 33, tag_idat(), z, third);
    lemma_chunk_reads(b, end, tag_iend(), seq![], seq![]);
    assert(b.skip(end + 12).len() == 0);
}

proof fn lemma_pixels_read(w: int, h: int, rgba: Seq<u8>)
    requires
        0 <= w,
        0 <= h,
        h * (4 * w) <= rgba.len(),
    ensures
        plain_scanlines(w, h, scanlines(w, rgba, h)),
        unfiltered(w, scanlines(w, rgba, h), h) == rgba.take(h * (4 * w)),
{
    let raw = scanlines(w, rgba, h);
    lemma_scanlines_len(w, rgba, h);
    assert forall|y: int| 0 <= y < h implies #[trigger] raw[y * (4 * w + 1)] == 0 by {
        lemma_filter_bytes(w, rgba, h, y);
    }
    lemma_rows_read(w, h, rgba, h);
}

/// An encoded image is a PNG file of exactly the chunks `IHDR`, `IDAT` and `IEND` with right
/// lengths and checksums, and reading it gives back its size and its pixels, byte for byte. (The
/// size and a chunk's length are 32-bit numbers.)
pub proof fn png_reads_back(w: int, h: int, rgba: Seq<u8>)
    requires
        0 <= w < 0x1_0000_0000,
        0 <= h < 0x1_0000_0000,
        h * (4 * w) <= rgba.len(),
        zlib(scanlines(w, rgba, h)).len() < 0x1_0000_0000,
    ensures
        read_png(png(w, h, rgba)) == Some((w, h, rgba.take(h * (4 * w)))),
{
    let raw = scanlines(w, rgba, h);
    lemma_header_reads(w, h);
    lemma_chunks_read(header(w, h), zlib(raw));
    lemma_zlib_reads(raw);
    lemma_pixels_read(w, h, rgba);
}

} // verus!
