//! Pixels of a `w` by `h` image stored row by row.
use vstd::prelude::*;

verus! {

/// Where the pixel in column `x` of row `y` is stored.
pub open spec fn cell(w: int, x: int, y: int) -> int {
    y * w + x
}

/// `(x, y)` is a pixel of a `w` by `h` image.
pub open spec fn in_grid(w: int, h: int, x: int, y: int) -> bool {
    0 <= x < w && 0 <= y < h
}

pub proof fn lemma_cell_in_range(w: int, h: int, x: int, y: int)
    requires
        in_grid(w, h, x, y),
    ensures
        0 <= y * w,
        0 <= cell(w, x, y) < w * h,
        cell(w, x, y) == y * w + x,
{
    assert(0 <= y * w && y * w + x < w * h) by (nonlinear_arith)
        requires
            0 <= x < w,
            0 <= y < h,
    ;
}

pub proof fn lemma_cell_unique(w: int, h: int, x: int, y: int, x2: int, y2: int)
    requires
        in_grid(w, h, x, y),
        in_grid(w, h, x2, y2),
        cell(w, x, y) == cell(w, x2, y2),
    ensures
        x == x2 && y == y2,
{
    assert(y == y2) by (nonlinear_arith)
        requires
            0 <= x < w,
            0 <= x2 < w,
            y * w + x == y2 * w + x2,
    ;
}

} // verus!
