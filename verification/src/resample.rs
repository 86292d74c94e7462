//! Scaling grayscale masks by area averaging, in double precision.
use vstd::prelude::*;

use crate::double::{
    difference, floor, half_up, lemma_bounds, lemma_exponent_above, lemma_nearest_wf, product,
    quotient, sum, whole, zero, Double, START,
};
use crate::grid::{cell, in_grid, lemma_cell_in_range, lemma_cell_unique};

pub mod blocks;
pub mod edges;
pub mod range;

verus! {

/// The smaller of two doubles.
pub open spec fn smaller(a: Double, b: Double) -> Double {
    if b.less(a) {
        b
    } else {
        a
    }
}

/// The larger of two doubles.
pub open spec fn larger(a: Double, b: Double) -> Double {
    if a.less(b) {
        b
    } else {
        a
    }
}

/// Where destination column `x` (of `dw`) begins, counted in source columns (of `sw`).
pub open spec fn edge(sw: int, dw: int, x: int) -> Double {
    product(whole(x as nat), quotient(whole(sw as nat), whole(dw as nat)))
}

/// How much of source column `sx` lies between `lo` and `hi`.
pub open spec fn weight(lo: Double, hi: Double, sx: int) -> Double {
    difference(smaller(hi, whole((sx + 1) as nat)), larger(lo, whole(sx as nat)))
}

/// A weighted sum and the weights in it.
pub struct Mean {
    pub sum: Double,
    pub area: Double,
}

/// The mean with one more value in it.
pub open spec fn with_value(m: Mean, v: u8, wx: Double, wy: Double) -> Mean {
    Mean {
        sum: sum(m.sum, product(product(whole(v as nat), wx), wy)),
        area: sum(m.area, product(wx, wy)),
    }
}

/// Source row `sy` from column `sx` on, as far as `hi`, added to the mean `m`.
pub open spec fn row_mean(
    src: Seq<u8>,
    sw: int,
    lo: Double,
    hi: Double,
    wy: Double,
    sy: int,
    sx: int,
    m: Mean,
) -> Mean
    decreases sw - sx,
{
    if sx < sw && whole(sx as nat).less(hi) {
        let next = with_value(m, src[cell(sw, sx, sy)], weight(lo, hi, sx), wy);
        row_mean(src, sw, lo, hi, wy, sy, sx + 1, next)
    } else {
        m
    }
}

/// The source between two columns, from row `sy` on as far as `bottom`, added to the mean `m`.
pub open spec fn area_mean(
    src: Seq<u8>,
    sw: int,
    sh: int,
    left: Double,
    right: Double,
    top: Double,
    bottom: Double,
    sy: int,
    m: Mean,
) -> Mean
    decreases sh - sy,
{
    if sy < sh && whole(sy as nat).less(bottom) {
        let wy = weight(top, bottom, sy);
        let next = row_mean(src, sw, left, right, wy, sy, floor(left) as int, m);
        area_mean(src, sw, sh, left, right, top, bottom, sy + 1, next)
    } else {
        m
    }
}

/// Nothing yet.
pub open spec fn no_mean() -> Mean {
    Mean { sum: zero(), area: zero() }
}

/// The mean of the source area that destination pixel `(x, y)` covers.
pub open spec fn covered(
    src: Seq<u8>,
    sw: int,
    sh: int,
    dw: int,
    dh: int,
    x: int,
    y: int,
) -> Mean {
    let top = edge(sh, dh, y);
    area_mean(
        src,
        sw,
        sh,
        edge(sw, dw, x),
        edge(sw, dw, x + 1),
        top,
        edge(sh, dh, y + 1),
        floor(top) as int,
        no_mean(),
    )
}

/// A mean as a byte: to the nearest whole number (halves up), 0 where there is no area.
pub open spec fn mean_byte(m: Mean) -> int {
    if zero().less(m.area) {
        let v = half_up(quotient(m.sum, m.area)) as int;
        if v > 255 {
            255
        } else {
            v
        }
    } else {
        0
    }
}

/// Destination pixel `(x, y)`: the average of the source area it covers.
pub open spec fn averaged(
    src: Seq<u8>,
    sw: int,
    sh: int,
    dw: int,
    dh: int,
    x: int,
    y: int,
) -> int {
    mean_byte(covered(src, sw, sh, dw, dh, x, y))
}

/// Computes `weight`.
fn weight_of(lo: Double, hi: Double, sx: usize) -> (w: Double)
    requires
        lo.wf(),
        hi.wf(),
        sx < usize::MAX,
    ensures
        w == weight(lo, hi, sx as int),
        w.wf(),
{
    let begin = Double::of(sx as u64);
    let end = Double::of(sx as u64 + 1);
    let right = if end.is_less(hi) {
        end
    } else {
        hi
    };
    let left = if lo.is_less(begin) {
        begin
    } else {
        lo
    };
    right.minus(left)
}

/// Adds a source row to a mean.
fn add_row(
    src: &[u8],
    sw: usize,
    sh: usize,
    lo: Double,
    hi: Double,
    wy: Double,
    sy: usize,
    m: Mean,
) -> (r: Mean)
    requires
        lo.wf(),
        hi.wf(),
        wy.wf(),
        m.sum.wf(),
        m.area.wf(),
        sy < sh,
        sw * sh <= src@.len(),
    ensures
        r == row_mean(src@, sw as int, lo, hi, wy, sy as int, floor(lo) as int, m),
        r.sum.wf(),
        r.area.wf(),
{
    let ghost goal = row_mean(src@, sw as int, lo, hi, wy, sy as int, floor(lo) as int, m);
    let mut sx: usize = lo.to_size();
    let mut total = m.sum;
    let mut area = m.area;
    while sx < sw && Double::of(sx as u64).is_less(hi)
        invariant
            lo.wf(),
            hi.wf(),
            wy.wf(),
            total.wf(),
            area.wf(),
            sy < sh,
            sw * sh <= src@.len(),
            sx >= sw || goal == row_mean(
                src@,
                sw as int,
                lo,
                hi,
                wy,
                sy as int,
                sx as int,
                (Mean { sum: total, area }),
            ),
            sx >= sw ==> goal == (Mean { sum: total, area }),
        decreases sw - sx,
    {
        assert(src.len() == src@.len());
        proof {
            lemma_cell_in_range(sw as int, sh as int, sx as int, sy as int);
        }
        let wx = weight_of(lo, hi, sx);
        let v = Double::of(src[sy * sw + sx] as u64);
        total = total.plus(v.times(wx).times(wy));
        area = area.plus(wx.times(wy));
        sx += 1;
    }
    Mean { sum: total, area }
}

/// The edges of the destination columns `x` and `x + 1`.
fn edges(scale: Double, sw: usize, dw: usize, x: usize) -> (r: (Double, Double))
    requires
        scale == quotient(whole(sw as nat), whole(dw as nat)),
        scale.wf(),
        x < usize::MAX,
    ensures
        r.0 == edge(sw as int, dw as int, x as int),
        r.1 == edge(sw as int, dw as int, x + 1),
        r.0.wf(),
        r.1.wf(),
{
    (Double::of(x as u64).times(scale), Double::of(x as u64 + 1).times(scale))
}

/// Adds the source area between four edges to a mean.
fn add_area(
    src: &[u8],
    sw: usize,
    sh: usize,
    left: Double,
    right: Double,
    top: Double,
    bottom: Double,
) -> (r: Mean)
    requires
        left.wf(),
        right.wf(),
        top.wf(),
        bottom.wf(),
        sw * sh <= src@.len(),
    ensures
        r == area_mean(
            src@,
            sw as int,
            sh as int,
            left,
            right,
            top,
            bottom,
            floor(top) as int,
            no_mean(),
        ),
        r.sum.wf(),
        r.area.wf(),
{
    let ghost goal = area_mean(
        src@,
        sw as int,
        sh as int,
        left,
        right,
        top,
        bottom,
        floor(top) as int,
        no_mean(),
    );
    let mut sy: usize = top.to_size();
    let mut m = Mean { sum: Double::nothing(), area: Double::nothing() };
    while sy < sh && Double::of(sy as u64).is_less(bottom)
        invariant
            left.wf(),
            right.wf(),
            top.wf(),
            bottom.wf(),
            m.sum.wf(),
            m.area.wf(),
            sw * sh <= src@.len(),
            sy >= sh || goal == area_mean(
                src@,
                sw as int,
                sh as int,
                left,
                right,
                top,
                bottom,
                sy as int,
                m,
            ),
            sy >= sh ==> goal == m,
        decreases sh - sy,
    {
        let wy = weight_of(top, bottom, sy);
        m = add_row(src, sw, sh, left, right, wy, sy, m);
        assert(goal == area_mean(
            src@,
            sw as int,
            sh as int,
            left,
            right,
            top,
            bottom,
            sy + 1,
            m,
        ));
        sy += 1;
    }
    m
}

/// Computes `mean_byte`.
fn byte_of(m: Mean) -> (v: u8)
    requires
        m.sum.wf(),
        m.area.wf(),
    ensures
        v == mean_byte(m),
{
    if Double::nothing().is_less(m.area) {
        let v: u64 = m.sum.over(m.area).to_nearest();
        if v > 255 {
            255
        } else {
            v as u8
        }
    } else {
        0
    }
}

/// Scales a grayscale coverage mask with area averaging, which gives clean antialiased edges at
/// tray sizes.
pub fn resample(src: &[u8], sw: usize, sh: usize, dw: usize, dh: usize) -> (dst: Vec<u8>)
    requires
        dw * dh == 0 || sw * sh <= src@.len(),
        dw * dh <= isize::MAX,
    ensures
        dst@.len() == dw * dh,
        forall|x: int, y: int|
            in_grid(dw as int, dh as int, x, y) ==> #[trigger] dst@[cell(dw as int, x, y)]
                == averaged(src@, sw as int, sh as int, dw as int, dh as int, x, y),
{
    assert(src.len() == src@.len());
    let ghost gw = sw as int;
    let ghost gh = sh as int;
    let ghost gdw = dw as int;
    let ghost gdh = dh as int;
    let n: usize = dw * dh;
    let mut dst: Vec<u8> = vec![0u8;n];
    if n == 0 {
        proof {
            assert forall|x: int, y: int| in_grid(gdw, gdh, x, y) implies #[trigger] dst@[cell(
                gdw,
                x,
                y,
            )] == averaged(src@, gw, gh, gdw, gdh, x, y) by {
                lemma_cell_in_range(gdw, gdh, x, y);
            }
        }
        return dst;
    }
    proof {
        lemma_whole_positive(gdw as nat);
        lemma_whole_positive(gdh as nat);
    }
    let fx = Double::of(sw as u64).over(Double::of(dw as u64));
    let fy = Double::of(sh as u64).over(Double::of(dh as u64));
    let mut y: usize = 0;
    while y < dh
        invariant
            y <= dh,
            gw == sw,
            gh == sh,
            gdw == dw,
            gdh == dh,
            n == dw * dh,
            fx == quotient(whole(gw as nat), whole(gdw as nat)),
            fy == quotient(whole(gh as nat), whole(gdh as nat)),
            fx.wf() && fy.wf(),
            sw * sh <= src@.len() == src.len(),
            dst@.len() == dw * dh,
            forall|xx: int, yy: int|
                in_grid(gdw, gdh, xx, yy) && yy < y ==> #[trigger] dst@[cell(gdw, xx, yy)]
                    == averaged(src@, gw, gh, gdw, gdh, xx, yy),
        decreases dh - y,
    {
        let (top, bottom) = edges(fy, sh, dh, y);
        let mut x: usize = 0;
        while x < dw
            invariant
                x <= dw,
                y < dh,
                gw == sw,
                gh == sh,
                gdw == dw,
                gdh == dh,
                n == dw * dh,
                fx == quotient(whole(gw as nat), whole(gdw as nat)),
                fx.wf(),
                top == edge(gh, gdh, y as int) && bottom == edge(gh, gdh, y + 1),
                top.wf() && bottom.wf(),
                sw * sh <= src@.len() == src.len(),
                dst@.len() == dw * dh,
                forall|xx: int, yy: int|
                    in_grid(gdw, gdh, xx, yy) && (yy < y || (yy == y && xx < x))
                        ==> #[trigger] dst@[cell(gdw, xx, yy)] == averaged(
                        src@,
                        gw,
                        gh,
                        gdw,
                        gdh,
                        xx,
                        yy,
                    ),
            decreases dw - x,
        {
            let (left, right) = edges(fx, sw, dw, x);
            let m = add_area(src, sw, sh, left, right, top, bottom);
            proof {
                lemma_cell_in_range(gdw, gdh, x as int, y as int);
            }
            let ghost before = dst@;
            let i: usize = y * dw + x;
            dst[i] = byte_of(m);
            proof {
                assert forall|xx: int, yy: int|
                    in_grid(gdw, gdh, xx, yy) && (yy < y || (yy == y && xx < x
                        + 1)) implies #[trigger] dst@[cell(gdw, xx, yy)] == averaged(
                    src@,
                    gw,
                    gh,
                    gdw,
                    gdh,
                    xx,
                    yy,
                ) by {
                    lemma_cell_in_range(gdw, gdh, xx, yy);
                    if cell(gdw, xx, yy) == i {
                        lemma_cell_unique(gdw, gdh, x as int, y as int, xx, yy);
                    } else {
                        assert(dst@[cell(gdw, xx, yy)] == before[cell(gdw, xx, yy)]);
                    }
                }
            }
            x += 1;
        }
        y += 1;
    }
    dst
}

/// A whole number other than 0 is a double other than 0.
proof fn lemma_whole_positive(n: nat)
    requires
        0 < n <= u64::MAX,
    ensures
        whole(n).m > 0,
{
    lemma_bounds();
    assert(n * START >= START) by (nonlinear_arith)
        requires
            n >= 1,
    ;
    lemma_exponent_above(n, 1, 0, 52, 0);
    lemma_nearest_wf(n, 1, 0);
}

} // verus!
