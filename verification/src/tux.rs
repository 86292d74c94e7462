//! The glyph masks that the icon is drawn from, and the file they are kept in.
//!
//! The file is: width and height (two bytes each, low byte first), then `w * h` bytes of glyph
//! coverage, then `w * h` bytes marking the enclosed holes.
use vstd::prelude::*;
use vstd::slice::*;

use crate::bytes::{append, from_le16, le16, push_le16};

verus! {

/// A glyph: its size, its coverage (0 to 255) and its enclosed holes (255 = hole), row by row.
#[derive(Debug)]
pub struct Mask {
    pub w: usize,
    pub h: usize,
    pub cov: Vec<u8>,
    pub holes: Vec<u8>,
}

impl Mask {
    /// Both planes have one byte per pixel, and the size fits the file's two-byte fields.
    pub open spec fn wf(self) -> bool {
        &&& self.w <= 0xFFFF && self.h <= 0xFFFF
        &&& self.cov@.len() == self.w * self.h
        &&& self.holes@.len() == self.w * self.h
    }
}

/// The file of a mask.
pub open spec fn mask_file(m: Mask) -> Seq<u8> {
    le16(m.w as int) + le16(m.h as int) + m.cov@ + m.holes@
}

/// The file names a size and has exactly the two planes of that size.
pub open spec fn is_mask_file(data: Seq<u8>) -> bool {
    data.len() >= 4 && data.len() == 4 + 2 * (from_le16(data[0], data[1]) * from_le16(
        data[2],
        data[3],
    ))
}

proof fn lemma_pixels_fit(w: int, h: int)
    requires
        0 <= w <= 0xFFFF,
        0 <= h <= 0xFFFF,
    ensures
        0 <= w * h <= 0xFFFF * 0xFFFF,
{
    assert(0 <= w * h <= 0xFFFF * 0xFFFF) by (nonlinear_arith)
        requires
            0 <= w <= 0xFFFF,
            0 <= h <= 0xFFFF,
    ;
}

/// Reads a mask file; `None` if it is malformed.
pub fn tux(data: &[u8]) -> (r: Option<Mask>)
    ensures
        r is Some <==> is_mask_file(data@),
        match r {
            Some(m) => m.wf() && mask_file(m) == data@,
            None => true,
        },
{
    if data.len() < 4 {
        return None;
    }
    let w: usize = data[1] as usize * 256 + data[0] as usize;
    let h: usize = data[3] as usize * 256 + data[2] as usize;
    proof {
        lemma_pixels_fit(w as int, h as int);
    }
    let n: usize = w * h;
    if data.len() as u64 != 4 + 2 * (n as u64) {
        return None;
    }
    let m = Mask {
        w,
        h,
        cov: slice_to_vec(slice_subrange(data, 4, 4 + n)),
        holes: slice_to_vec(slice_subrange(data, 4 + n, 4 + 2 * n)),
    };
    assert(mask_file(m) =~= data@);
    Some(m)
}

/// Writes a mask file.
pub fn write_mask(m: &Mask) -> (out: Vec<u8>)
    requires
        m.wf(),
    ensures
        out@ == mask_file(*m),
{
    let mut out: Vec<u8> = Vec::new();
    push_le16(&mut out, m.w as u16);
    push_le16(&mut out, m.h as u16);
    append(&mut out, m.cov.as_slice());
    append(&mut out, m.holes.as_slice());
    assert(out@ =~= mask_file(*m));
    out
}

/// The file begins with the width and the height, low bytes first; then come the coverage and the
/// holes of each pixel, row by row.
pub proof fn file_is_laid_out(m: Mask, i: int)
    requires
        m.wf(),
        0 <= i < m.w * m.h,
    ensures
        ({
            let f = mask_file(m);
            &&& f.len() == 4 + 2 * (m.w * m.h)
            &&& f[0] + 256 * f[1] == m.w
            &&& f[2] + 256 * f[3] == m.h
            &&& f[4 + i] == m.cov@[i]
            &&& f[4 + m.w * m.h + i] == m.holes@[i]
        }),
{
}

/// A written mask is a mask file, and only the same mask has that file: what `tux` reads back is
/// what `write_mask` was given.
pub proof fn written_mask_reads_back(m: Mask, m2: Mask)
    requires
        m.wf(),
        m2.wf(),
        mask_file(m2) == mask_file(m),
    ensures
        is_mask_file(mask_file(m)),
        m2.w == m.w,
        m2.h == m.h,
        m2.cov@ == m.cov@,
        m2.holes@ == m.holes@,
{
    lemma_pixels_fit(m.w as int, m.h as int);
    let f = mask_file(m);
    assert(f[0] == (m.w % 256) as u8 && f[1] == (m.w / 256) as u8);
    assert(f[2] == (m.h % 256) as u8 && f[3] == (m.h / 256) as u8);
    assert(f.len() == 4 + m.w * m.h + m.w * m.h);
    let f2 = mask_file(m2);
    assert(f2[0] == (m2.w % 256) as u8 && f2[1] == (m2.w / 256) as u8);
    assert(f2[2] == (m2.h % 256) as u8 && f2[3] == (m2.h / 256) as u8);
    assert(m2.w == m.w && m2.h == m.h);
    let n = m.w * m.h;
    assert(m.cov@ =~= f.subrange(4, 4 + n));
    assert(m2.cov@ =~= f2.subrange(4, 4 + n));
    assert(m.holes@ =~= f.subrange(4 + n, 4 + 2 * n));
    assert(m2.holes@ =~= f2.subrange(4 + n, 4 + 2 * n));
}

} // verus!
