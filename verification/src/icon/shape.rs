//! Laws of the icon's shape: how the glyph lies in the square.
use vstd::prelude::*;

use crate::grid::in_grid;
use crate::resample::averaged;
use crate::tux::Mask;

use super::{
    alpha, colour, fitted, is_icon, lemma_fitted_inside, nearest, place, premultiplied, Level,
};

verus! {

/// `x` and `y` differ by no more than half of `d`.
pub open spec fn within_half(x: int, y: int, d: int) -> bool {
    -d <= 2 * (x - y) <= d
}

proof fn lemma_nearest(n: int, d: int)
    requires
        0 <= n,
        0 < d,
    ensures
        within_half(nearest(n, d) * d, n, d),
        nearest(n, d) >= 0,
{
    let q = nearest(n, d);
    assert(2 * d * q <= 2 * n + d < 2 * d * q + 2 * d && q >= 0) by (nonlinear_arith)
        requires
            q == (2 * n + d) / (2 * d),
            0 <= n,
            0 < d,
    ;
    assert(2 * d * q == 2 * (q * d)) by (nonlinear_arith);
}

/// Fitting keeps the glyph's shape: one side is that of the square, and the other is in the same
/// proportion to it as in the mask, to the nearest pixel.
pub proof fn fitting_keeps_the_shape(sz: int, mw: int, mh: int)
    requires
        0 <= sz,
        0 < mw,
        0 < mh,
    ensures
        ({
            let (gw, gh) = fitted(sz, mw, mh);
            ||| gh == sz && within_half(gw * mh, gh * mw, mh)
            ||| gw == sz && within_half(gh * mw, gw * mh, mw)
        }),
{
    assert(sz * mw >= 0 && sz * mh >= 0) by (nonlinear_arith)
        requires
            0 <= sz,
            0 < mw,
            0 < mh,
    ;
    lemma_nearest(sz * mw, mh);
    lemma_nearest(sz * mh, mw);
}

/// A glyph higher than wide takes the whole height, and one wider than high the whole width.
pub proof fn longer_side_fills_the_square(sz: int, mw: int, mh: int)
    requires
        0 <= sz,
        0 < mw,
        0 < mh,
    ensures
        mw <= mh ==> fitted(sz, mw, mh).1 == sz && fitted(sz, mw, mh).0 <= sz,
        mw >= mh ==> fitted(sz, mw, mh).0 == sz && fitted(sz, mw, mh).1 <= sz,
{
    assert(sz * mw >= 0 && sz * mh >= 0 && sz * mh == mh * sz) by (nonlinear_arith)
        requires
            0 <= sz,
            0 < mw,
            0 < mh,
    ;
    lemma_nearest(sz * mw, mh);
    lemma_nearest(sz * mh, mw);
    let a = nearest(sz * mw, mh);
    let b = nearest(sz * mh, mw);
    lemma_fitted_inside(sz, mw, mh);
    if mw <= mh {
        assert(sz * mw <= sz * mh) by (nonlinear_arith)
            requires
                0 <= sz,
                mw <= mh,
        ;
        assert(a <= sz) by (nonlinear_arith)
            requires
                2 * (a * mh - sz * mw) <= mh,
                sz * mw <= sz * mh,
                0 < mh,
        ;
    }
    if mw >= mh {
        assert(sz * mw >= sz * mh) by (nonlinear_arith)
            requires
                0 <= sz,
                mw >= mh,
        ;
        assert(a >= sz) by (nonlinear_arith)
            requires
                -mh <= 2 * (a * mh - sz * mw),
                sz * mw >= sz * mh,
                0 < mh,
        ;
        assert(b <= sz) by (nonlinear_arith)
            requires
                2 * (b * mw - sz * mh) <= mw,
                sz * mw >= sz * mh,
                0 < mw,
        ;
    }
}

/// The glyph is centred: what is left free on the left and on the right, and above and below,
/// differs by one pixel at most, and there the icon is clear.
pub proof fn glyph_is_centred(m: Mask, sz: int, px: int, py: int)
    requires
        0 <= sz,
        in_grid(sz, sz, px, py),
        alpha(m, sz, px, py) != 0,
    ensures
        ({
            let (gw, gh) = fitted(sz, m.w as int, m.h as int);
            let left = (sz - gw) / 2;
            let top = (sz - gh) / 2;
            &&& left <= px < left + gw && top <= py < top + gh
            &&& 0 <= left && 0 <= (sz - (left + gw)) - left <= 1
            &&& 0 <= top && 0 <= (sz - (top + gh)) - top <= 1
        }),
{
    lemma_fitted_inside(sz, m.w as int, m.h as int);
}

/// A drawn pixel is blue, green, red and alpha, in this order, row by row: where it is opaque it
/// has the colour of the level, and where it is clear it is nothing.
pub proof fn pixels_are_blue_green_red(pix: Seq<u8>, m: Mask, sz: int, lv: Level, px: int, py: int)
    requires
        is_icon(pix, m, sz, lv),
        in_grid(sz, sz, px, py),
    ensures
        ({
            let at = 4 * (py * sz + px);
            let a = alpha(m, sz, px, py);
            &&& pix[at + 3] == a
            &&& a == 255 ==> pix[at] == colour(lv)[2] && pix[at + 1] == colour(lv)[1] && pix[at + 2]
                == colour(lv)[0]
            &&& a == 0 ==> pix[at] == 0 && pix[at + 1] == 0 && pix[at + 2] == 0
        }),
{
    assert(pix[place(sz, px, py, 0)] == premultiplied(colour(lv), alpha(m, sz, px, py), 0));
    assert(pix[place(sz, px, py, 1)] == premultiplied(colour(lv), alpha(m, sz, px, py), 1));
    assert(pix[place(sz, px, py, 2)] == premultiplied(colour(lv), alpha(m, sz, px, py), 2));
    assert(pix[place(sz, px, py, 3)] == premultiplied(colour(lv), alpha(m, sz, px, py), 3));
}

/// Inside the glyph's box a pixel is as opaque as its coverage and its share of a hole make it,
/// whichever is more; a hole never makes it more opaque than 110 of 255.
pub proof fn stronger_of_coverage_and_hole_shows(m: Mask, sz: int, px: int, py: int)
    requires
        ({
            let (gw, gh) = fitted(sz, m.w as int, m.h as int);
            in_grid(gw, gh, px - (sz - gw) / 2, py - (sz - gh) / 2)
        }),
    ensures
        ({
            let (gw, gh) = fitted(sz, m.w as int, m.h as int);
            let x = px - (sz - gw) / 2;
            let y = py - (sz - gh) / 2;
            let cov = averaged(m.cov@, m.w as int, m.h as int, gw, gh, x, y);
            let hole = averaged(m.holes@, m.w as int, m.h as int, gw, gh, x, y);
            let a = alpha(m, sz, px, py);
            &&& a >= cov
            &&& 255 * a > 110 * hole - 255
            &&& a > cov ==> 255 * a <= 110 * hole
            &&& hole == 255 && cov < 110 ==> a == 110
            &&& hole == 0 && cov >= 0 ==> a == cov
        }),
{
}

} // verus!
