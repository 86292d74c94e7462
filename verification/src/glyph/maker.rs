//! From the rasterized outline to the glyph masks.
use vstd::prelude::*;
use vstd::slice::*;

use super::mask::{
    bounding_box, bounds, dilate, find_holes, greatest_near, is_dilation, marks_holes, near, SOLID,
};
use crate::bytes::append;
use crate::grid::{cell, in_grid, lemma_cell_in_range};
use crate::tux::Mask;

verus! {

/// Glyph height in pixels before cropping; the width follows the view box.
pub const MASK_H: usize = 128;

/// Dilation radius in mask pixels.
pub const STROKE_GROW: i32 = 3;

/// Margin around the rasterized glyph so the dilation has room.
pub const PAD: usize = 8;

/// The outline's view box.
pub const VIEW_BOX_W: usize = 448;

pub const VIEW_BOX_H: usize = 512;

/// Why an image gives no mask.
#[derive(Clone, Copy, Debug, PartialEq, Eq, Structural)]
pub enum GlyphError {
    /// Nothing is drawn.
    Empty,
    /// The glyph is wider or higher than a mask can be.
    TooLarge,
}

/// Size of the canvas to rasterize onto: the glyph with a margin of `PAD` on every side.
pub fn canvas() -> (size: (usize, usize))
    ensures
        2 * VIEW_BOX_H * (size.0 - 2 * PAD) <= 2 * MASK_H * VIEW_BOX_W + VIEW_BOX_H,
        2 * MASK_H * VIEW_BOX_W + VIEW_BOX_H < 2 * VIEW_BOX_H * (size.0 - 2 * PAD + 1),
        size.1 == MASK_H + 2 * PAD,
{
    ((2 * MASK_H * VIEW_BOX_W + VIEW_BOX_H) / (2 * VIEW_BOX_H) + 2 * PAD, MASK_H + 2 * PAD)
}

/// No pixel has any coverage.
pub open spec fn blank(img: Seq<u8>, w: int, h: int) -> bool {
    forall|x: int, y: int| in_grid(w, h, x, y) ==> #[trigger] img[cell(w, x, y)] == 0
}

/// The holes that the thickened strokes leave open.
pub open spec fn kept_holes(holes: Seq<u8>, grown: Seq<u8>) -> Seq<u8> {
    Seq::new(
        holes.len(),
        |i: int|
            if grown[i] >= SOLID {
                0u8
            } else {
                holes[i]
            },
    )
}

/// The first `k` rows of the part of `img` inside the box `b`, one after the other.
pub open spec fn crop_rows(
    img: Seq<u8>,
    w: int,
    b: (usize, usize, usize, usize),
    k: int,
) -> Seq<u8>
    decreases k,
{
    if k <= 0 {
        seq![]
    } else {
        let start = cell(w, b.0 as int, b.1 + k - 1);
        crop_rows(img, w, b, k - 1) + img.subrange(start, start + b.2 - b.0)
    }
}

/// `m` is what remains of the image inside the bounding box `b` of its thickened strokes.
pub open spec fn is_glyph(
    full: Seq<u8>,
    w: int,
    h: int,
    grown: Seq<u8>,
    holes: Seq<u8>,
    b: (usize, usize, usize, usize),
    m: Mask,
) -> bool {
    &&& is_dilation(full, w, h, STROKE_GROW as int, grown)
    &&& marks_holes(full, w, h, holes)
    &&& bounds(grown, w, h, b)
    &&& m.w == b.2 - b.0
    &&& m.h == b.3 - b.1
    &&& m.cov@ == crop_rows(grown, w, b, m.h as int)
    &&& m.holes@ == crop_rows(kept_holes(holes, grown), w, b, m.h as int)
}

/// The thickened strokes of the image do not fit a mask.
pub open spec fn is_oversized(
    full: Seq<u8>,
    w: int,
    h: int,
    grown: Seq<u8>,
    b: (usize, usize, usize, usize),
) -> bool {
    &&& is_dilation(full, w, h, STROKE_GROW as int, grown)
    &&& bounds(grown, w, h, b)
    &&& b.2 - b.0 > 0xFFFF || b.3 - b.1 > 0xFFFF
}

/// Thickening neither draws on a blank image nor erases anything.
proof fn lemma_dilation_blank(full: Seq<u8>, w: int, h: int, grown: Seq<u8>)
    requires
        is_dilation(full, w, h, STROKE_GROW as int, grown),
    ensures
        blank(full, w, h) == blank(grown, w, h),
{
    let r = STROKE_GROW as int;
    if blank(full, w, h) {
        assert forall|x: int, y: int| in_grid(w, h, x, y) implies #[trigger] grown[cell(w, x, y)]
            == 0 by {
            assert(greatest_near(full, w, h, r, x, y, grown[cell(w, x, y)]));
        }
    }
    if blank(grown, w, h) {
        assert forall|x: int, y: int| in_grid(w, h, x, y) implies #[trigger] full[cell(w, x, y)]
            == 0 by {
            assert(grown[cell(w, x, y)] == 0);
            assert(greatest_near(full, w, h, r, x, y, grown[cell(w, x, y)]));
            assert(near(r, x, y, x, y));
        }
    }
}

/// The box lies in the image.
pub(crate) proof fn lemma_bounds_inside(img: Seq<u8>, w: int, h: int, b: (usize, usize, usize, usize))
    requires
        bounds(img, w, h, b),
    ensures
        b.0 < b.2 <= w,
        b.1 < b.3 <= h,
        !blank(img, w, h),
{
}

/// The part of `img` inside the box `b`.
fn crop(img: &[u8], w: usize, h: usize, b: (usize, usize, usize, usize)) -> (out: Vec<u8>)
    requires
        w * h <= img@.len(),
        b.0 < b.2 <= w,
        b.1 < b.3 <= h,
    ensures
        out@ == crop_rows(img@, w as int, b, b.3 - b.1),
        out@.len() == (b.2 - b.0) * (b.3 - b.1),
{
    let n: usize = b.2 - b.0;
    let mut out: Vec<u8> = Vec::new();
    let mut y: usize = b.1;
    while y < b.3
        invariant
            w * h <= img@.len(),
            b.0 < b.2 <= w,
            b.1 <= y <= b.3 <= h,
            n == b.2 - b.0,
            out@ == crop_rows(img@, w as int, b, y - b.1),
            out@.len() == n * (y - b.1),
        decreases b.3 - y,
    {
        assert(img.len() == img@.len());
        proof {
            lemma_cell_in_range(w as int, h as int, b.0 as int, y as int);
            lemma_cell_in_range(w as int, h as int, b.2 - 1, y as int);
            assert(n * (y - b.1) + n == n * (y + 1 - b.1)) by (nonlinear_arith);
        }
        let start: usize = y * w + b.0;
        append(&mut out, slice_subrange(img, start, start + n));
        y += 1;
    }
    out
}

/// Makes the glyph masks from the coverage of a rasterized outline: strokes thickened a little,
/// enclosed areas found, everything cropped to the thickened strokes.
pub fn make_mask(full: &[u8], w: usize, h: usize) -> (r: Result<Mask, GlyphError>)
    requires
        w * h <= full@.len(),
    ensures
        (r matches Err(GlyphError::Empty)) <==> blank(full@, w as int, h as int),
        match r {
            Ok(m) => m.wf() && exists|
                grown: Seq<u8>,
                holes: Seq<u8>,
                b: (usize, usize, usize, usize),
            | #[trigger]
                is_glyph(full@, w as int, h as int, grown, holes, b, m),
            Err(GlyphError::TooLarge) => exists|
                grown: Seq<u8>,
                b: (usize, usize, usize, usize),
            | #[trigger]
                is_oversized(full@, w as int, h as int, grown, b),
            Err(GlyphError::Empty) => true,
        },
{
    assert(full.len() == full@.len());
    let mut holes: Vec<u8> = find_holes(full, w, h);
    let grown: Vec<u8> = dilate(full, w, h, STROKE_GROW);
    let ghost found = holes@;
    let mut i: usize = 0;
    while i < holes.len()
        invariant
            i <= holes@.len() == found.len(),
            found.len() <= grown@.len(),
            forall|k: int|
                0 <= k < i ==> #[trigger] holes@[k] == kept_holes(found, grown@)[k],
            forall|k: int| i <= k < found.len() ==> #[trigger] holes@[k] == found[k],
        decreases holes@.len() - i,
    {
        if grown[i] >= SOLID {
            holes[i] = 0;
        }
        i += 1;
    }
    assert(holes@ =~= kept_holes(found, grown@));
    proof {
        lemma_dilation_blank(full@, w as int, h as int, grown@);
    }
    match bounding_box(grown.as_slice(), w, h) {
        None => Err(GlyphError::Empty),
        Some(b) => {
            proof {
                lemma_bounds_inside(grown@, w as int, h as int, b);
            }
            if b.2 - b.0 > 0xFFFF || b.3 - b.1 > 0xFFFF {
                assert(is_oversized(full@, w as int, h as int, grown@, b));
                return Err(GlyphError::TooLarge);
            }
            let m = Mask {
                w: b.2 - b.0,
                h: b.3 - b.1,
                cov: crop(grown.as_slice(), w, h, b),
                holes: crop(holes.as_slice(), w, h, b),
            };
            assert(is_glyph(full@, w as int, h as int, grown@, found, b, m));
            Ok(m)
        },
    }
}

/// The pixel at `(x, y)` of a cropped image is the one at that place of the box.
pub(crate) proof fn lemma_cropped_pixel(
    img: Seq<u8>,
    w: int,
    h: int,
    b: (usize, usize, usize, usize),
    k: int,
    x: int,
    y: int,
)
    requires
        w * h <= img.len(),
        b.0 < b.2 <= w,
        b.1 < b.3 <= h,
        0 <= k <= b.3 - b.1,
    ensures
        crop_rows(img, w, b, k).len() == (b.2 - b.0) * k,
        0 <= x < b.2 - b.0 && 0 <= y < k ==> 0 <= cell(b.2 - b.0, x, y) < (b.2 - b.0) * k
            && crop_rows(img, w, b, k)[cell(b.2 - b.0, x, y)] == img[cell(w, b.0 + x, b.1 + y)],
    decreases k,
{
    let n = b.2 - b.0;
    if k == 0 {
        assert(n * 0 == 0) by (nonlinear_arith);
    } else {
        lemma_cropped_pixel(img, w, h, b, k - 1, x, y);
        lemma_cell_in_range(w, h, b.0 as int, b.1 + k - 1);
        lemma_cell_in_range(w, h, b.2 - 1, b.1 + k - 1);
        assert(n * (k - 1) + n == n * k) by (nonlinear_arith);
        if 0 <= x < n && 0 <= y < k {
            lemma_cell_in_range(n, k, x, y);
            if y == k - 1 {
                assert(cell(n, x, y) == n * (k - 1) + x) by (nonlinear_arith)
                    requires
                        cell(n, x, y) == y * n + x,
                        y == k - 1,
                ;
                assert(cell(w, b.0 as int, b.1 + k - 1) + x == cell(w, b.0 + x, b.1 + y));
            }
        }
    }
}

/// No pixel of a mask is both solid and a hole.
pub proof fn solid_pixels_are_no_holes(
    full: Seq<u8>,
    w: int,
    h: int,
    grown: Seq<u8>,
    holes: Seq<u8>,
    b: (usize, usize, usize, usize),
    m: Mask,
    x: int,
    y: int,
)
    requires
        w * h <= full.len(),
        is_glyph(full, w, h, grown, holes, b, m),
        in_grid(m.w as int, m.h as int, x, y),
    ensures
        m.cov@[cell(m.w as int, x, y)] >= SOLID ==> m.holes@[cell(m.w as int, x, y)] == 0,
{
    lemma_bounds_inside(grown, w, h, b);
    let kept = kept_holes(holes, grown);
    lemma_cropped_pixel(grown, w, h, b, m.h as int, x, y);
    lemma_cropped_pixel(kept, w, h, b, m.h as int, x, y);
    lemma_cell_in_range(w, h, b.0 + x, b.1 + y);
}

/// A mask has no empty margin: each of its four sides has a pixel with coverage.
pub proof fn mask_has_no_margin(
    full: Seq<u8>,
    w: int,
    h: int,
    grown: Seq<u8>,
    holes: Seq<u8>,
    b: (usize, usize, usize, usize),
    m: Mask,
)
    requires
        w * h <= full.len(),
        is_glyph(full, w, h, grown, holes, b, m),
    ensures
        exists|y: int| 0 <= y < m.h && #[trigger] m.cov@[cell(m.w as int, 0, y)] != 0,
        exists|y: int| 0 <= y < m.h && #[trigger] m.cov@[cell(m.w as int, m.w - 1, y)] != 0,
        exists|x: int| 0 <= x < m.w && #[trigger] m.cov@[cell(m.w as int, x, 0)] != 0,
        exists|x: int| 0 <= x < m.w && #[trigger] m.cov@[cell(m.w as int, x, m.h - 1)] != 0,
{
    lemma_bounds_inside(grown, w, h, b);
    let k = m.h as int;
    let n = m.w as int;
    let y = choose|y: int|
        in_grid(w, h, b.0 as int, y) && #[trigger] grown[cell(w, b.0 as int, y)] != 0;
    lemma_cropped_pixel(grown, w, h, b, k, 0, y - b.1);
    assert(m.cov@[cell(n, 0, y - b.1)] != 0);
    let y = choose|y: int|
        in_grid(w, h, b.2 - 1, y) && #[trigger] grown[cell(w, b.2 - 1, y)] != 0;
    lemma_cropped_pixel(grown, w, h, b, k, n - 1, y - b.1);
    assert(m.cov@[cell(n, n - 1, y - b.1)] != 0);
    let x = choose|x: int|
        in_grid(w, h, x, b.1 as int) && #[trigger] grown[cell(w, x, b.1 as int)] != 0;
    lemma_cropped_pixel(grown, w, h, b, k, x - b.0, 0);
    assert(m.cov@[cell(n, x - b.0, 0)] != 0);
    let x = choose|x: int|
        in_grid(w, h, x, b.3 - 1) && #[trigger] grown[cell(w, x, b.3 - 1)] != 0;
    lemma_cropped_pixel(grown, w, h, b, k, x - b.0, k - 1);
    assert(m.cov@[cell(n, x - b.0, k - 1)] != 0);
}

} // verus!
