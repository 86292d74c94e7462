//! Laws of masks: how far strokes grow, what counts as a hole, and what cropping keeps.
use vstd::prelude::*;

use super::maker::{is_glyph, kept_holes, lemma_bounds_inside, lemma_cropped_pixel};
use super::mask::{
    adjacent, enclosed, is_dilation, lemma_border_is_outside, lemma_outside_spreads, marks_holes,
    near, on_border, outside, passable, way_in,
};
use crate::grid::{cell, in_grid, lemma_cell_in_range};
use crate::tux::Mask;

verus! {

/// The square of the distance between two pixels.
pub open spec fn distance_squared(x: int, y: int, xx: int, yy: int) -> int {
    (xx - x) * (xx - x) + (yy - y) * (yy - y)
}

/// Every pixel gets at least the coverage of all that is within the radius, the edge of the disc
/// among it, and no coverage that is not there.
pub proof fn strokes_grow_by_the_radius(
    mask: Seq<u8>,
    w: int,
    h: int,
    r: int,
    out: Seq<u8>,
    x: int,
    y: int,
    xx: int,
    yy: int,
)
    requires
        is_dilation(mask, w, h, r, out),
        0 <= r,
        in_grid(w, h, x, y),
        in_grid(w, h, xx, yy),
    ensures
        distance_squared(x, y, xx, yy) <= r * r ==> out[cell(w, x, y)] >= mask[cell(w, xx, yy)],
        out[cell(w, x, y)] > 0 ==> exists|a: int, b: int|
            in_grid(w, h, a, b) && distance_squared(x, y, a, b) <= r * r && #[trigger] mask[cell(
                w,
                a,
                b,
            )] == out[cell(w, x, y)],
{
    let m = out[cell(w, x, y)];
    if near(r, x, y, xx, yy) {
        assert(mask[cell(w, xx, yy)] <= m);
    }
    if m > 0 {
        let (a, b) = choose|a: int, b: int|
            in_grid(w, h, a, b) && near(r, x, y, a, b) && #[trigger] mask[cell(w, a, b)] == m;
        assert(distance_squared(x, y, a, b) <= r * r);
        assert(mask[cell(w, a, b)] == m);
    }
}

/// A lone pixel grows to a disc of its own coverage.
pub proof fn lone_pixel_grows_to_a_disc(
    mask: Seq<u8>,
    w: int,
    h: int,
    r: int,
    out: Seq<u8>,
    a: int,
    b: int,
    x: int,
    y: int,
)
    requires
        is_dilation(mask, w, h, r, out),
        0 <= r,
        in_grid(w, h, a, b),
        in_grid(w, h, x, y),
        forall|p: int, q: int|
            in_grid(w, h, p, q) && (p != a || q != b) ==> #[trigger] mask[cell(w, p, q)] == 0,
    ensures
        out[cell(w, x, y)] == (if distance_squared(x, y, a, b) <= r * r {
            mask[cell(w, a, b)]
        } else {
            0
        }),
{
    strokes_grow_by_the_radius(mask, w, h, r, out, x, y, a, b);
    let m = out[cell(w, x, y)];
    if m > 0 {
        let (p, q) = choose|p: int, q: int|
            in_grid(w, h, p, q) && distance_squared(x, y, p, q) <= r * r && #[trigger] mask[cell(
                w,
                p,
                q,
            )] == m;
        assert(p == a && q == b);
    }
}

/// A pixel between four solid ones is a hole, whatever stands diagonally to it.
pub proof fn walled_pixel_is_a_hole(
    mask: Seq<u8>,
    w: int,
    h: int,
    holes: Seq<u8>,
    x: int,
    y: int,
)
    requires
        marks_holes(mask, w, h, holes),
        0 < x < w - 1,
        0 < y < h - 1,
        mask[cell(w, x, y)] < 128,
        mask[cell(w, x - 1, y)] >= 128,
        mask[cell(w, x + 1, y)] >= 128,
        mask[cell(w, x, y - 1)] >= 128,
        mask[cell(w, x, y + 1)] >= 128,
    ensures
        holes[cell(w, x, y)] == 255,
{
    if outside(mask, w, h, (x, y)) {
        let way = choose|way: Seq<(int, int)>|
            #[trigger] way_in(mask, w, h, way) && way.last() == (x, y);
        let n = way.len();
        if n == 1 {
            assert(on_border(w, h, way[0]));
        } else {
            assert(adjacent(way[(n - 1) - 1], way[n - 1]));
            assert(passable(mask, w, h, way[n - 2]));
        }
    }
    assert(enclosed(mask, w, h, x, y));
    assert(in_grid(w, h, x, y));
}

/// A pixel on the edge is no hole, a solid one is none, and one beside an open pixel that is no
/// hole is none either; everything is marked as a hole or not at all.
pub proof fn open_pixels_are_no_holes(
    mask: Seq<u8>,
    w: int,
    h: int,
    holes: Seq<u8>,
    x: int,
    y: int,
    xx: int,
    yy: int,
)
    requires
        marks_holes(mask, w, h, holes),
        in_grid(w, h, x, y),
        in_grid(w, h, xx, yy),
    ensures
        holes[cell(w, x, y)] == 255 || holes[cell(w, x, y)] == 0,
        mask[cell(w, x, y)] >= 128 ==> holes[cell(w, x, y)] == 0,
        x == 0 || y == 0 || x == w - 1 || y == h - 1 ==> holes[cell(w, x, y)] == 0,
        distance_squared(x, y, xx, yy) == 1 && mask[cell(w, x, y)] < 128 && mask[cell(w, xx, yy)]
            < 128 ==> holes[cell(w, x, y)] == holes[cell(w, xx, yy)],
{
    if passable(mask, w, h, (x, y)) && on_border(w, h, (x, y)) {
        lemma_border_is_outside(mask, w, h, (x, y));
    }
    if distance_squared(x, y, xx, yy) == 1 && mask[cell(w, x, y)] < 128 && mask[cell(w, xx, yy)]
        < 128 {
        lemma_neighbours(x, y, xx, yy);
        if outside(mask, w, h, (x, y)) {
            lemma_outside_spreads(mask, w, h, (x, y), (xx, yy));
        }
        if outside(mask, w, h, (xx, yy)) {
            lemma_outside_spreads(mask, w, h, (xx, yy), (x, y));
        }
    }
}

proof fn lemma_neighbours(x: int, y: int, xx: int, yy: int)
    requires
        distance_squared(x, y, xx, yy) == 1,
    ensures
        adjacent((x, y), (xx, yy)),
        adjacent((xx, yy), (x, y)),
{
    let (a, b) = (xx - x, yy - y);
    assert((a == 0 && (b == 1 || b == -1)) || (b == 0 && (a == 1 || a == -1))) by (nonlinear_arith)
        requires
            a * a + b * b == 1,
    ;
}

/// The pixels of a mask are those of the thickened image inside its box, in the same order; nothing
/// with coverage is cropped away.
pub proof fn mask_is_the_image_in_its_box(
    full: Seq<u8>,
    w: int,
    h: int,
    grown: Seq<u8>,
    holes: Seq<u8>,
    b: (usize, usize, usize, usize),
    m: Mask,
    x: int,
    y: int,
)
    requires
        w * h <= full.len(),
        is_glyph(full, w, h, grown, holes, b, m),
        in_grid(w, h, x, y),
    ensures
        in_grid(m.w as int, m.h as int, x - b.0, y - b.1) ==> m.cov@[cell(
            m.w as int,
            x - b.0,
            y - b.1,
        )] == grown[cell(w, x, y)],
        grown[cell(w, x, y)] != 0 ==> in_grid(m.w as int, m.h as int, x - b.0, y - b.1),
        in_grid(m.w as int, m.h as int, x - b.0, y - b.1) ==> m.holes@[cell(
            m.w as int,
            x - b.0,
            y - b.1,
        )] == (if grown[cell(w, x, y)] >= 128 {
            0
        } else {
            holes[cell(w, x, y)]
        }),
{
    lemma_bounds_inside(grown, w, h, b);
    lemma_cropped_pixel(grown, w, h, b, m.h as int, x - b.0, y - b.1);
    let kept = kept_holes(holes, grown);
    lemma_cropped_pixel(kept, w, h, b, m.h as int, x - b.0, y - b.1);
    lemma_cell_in_range(w, h, x, y);
}

/// The strokes of a mask are three pixels wider on every side than those of the outline: a pixel of
/// the thickened image has the greatest coverage within that distance.
pub proof fn strokes_are_three_pixels_wider(
    full: Seq<u8>,
    w: int,
    h: int,
    grown: Seq<u8>,
    holes: Seq<u8>,
    b: (usize, usize, usize, usize),
    m: Mask,
    x: int,
    y: int,
    xx: int,
    yy: int,
)
    requires
        is_glyph(full, w, h, grown, holes, b, m),
        in_grid(w, h, x, y),
        in_grid(w, h, xx, yy),
    ensures
        distance_squared(x, y, xx, yy) <= 9 ==> grown[cell(w, x, y)] >= full[cell(w, xx, yy)],
        grown[cell(w, x, y)] > 0 ==> exists|p: int, q: int|
            in_grid(w, h, p, q) && distance_squared(x, y, p, q) <= 9 && #[trigger] full[cell(
                w,
                p,
                q,
            )] == grown[cell(w, x, y)],
{
    assert(3 * 3 == 9) by (nonlinear_arith);
    strokes_grow_by_the_radius(full, w, h, 3, grown, x, y, xx, yy);
}

/// The holes of a mask are those of the outline as it was drawn, where the thickened strokes leave
/// them open: a pixel of the outline between four solid ones is a hole of the mask unless a stroke
/// has grown over it, and a solid pixel or one on the edge is none.
pub proof fn holes_are_those_of_the_outline(
    full: Seq<u8>,
    w: int,
    h: int,
    grown: Seq<u8>,
    holes: Seq<u8>,
    b: (usize, usize, usize, usize),
    m: Mask,
    x: int,
    y: int,
)
    requires
        w * h <= full.len(),
        is_glyph(full, w, h, grown, holes, b, m),
        in_grid(w, h, x, y),
        in_grid(m.w as int, m.h as int, x - b.0, y - b.1),
    ensures
        ({
            let hole = m.holes@[cell(m.w as int, x - b.0, y - b.1)];
            &&& hole == 0 || hole == 255
            &&& 0 < x < w - 1 && 0 < y < h - 1 && full[cell(w, x, y)] < 128 && full[cell(
                w,
                x - 1,
                y,
            )] >= 128 && full[cell(w, x + 1, y)] >= 128 && full[cell(w, x, y - 1)] >= 128
                && full[cell(w, x, y + 1)] >= 128 && grown[cell(w, x, y)] < 128 ==> hole == 255
            &&& full[cell(w, x, y)] >= 128 ==> hole == 0
            &&& x == 0 || y == 0 || x == w - 1 || y == h - 1 ==> hole == 0
            &&& grown[cell(w, x, y)] >= 128 ==> hole == 0
        }),
{
    mask_is_the_image_in_its_box(full, w, h, grown, holes, b, m, x, y);
    open_pixels_are_no_holes(full, w, h, holes, x, y, x, y);
    if 0 < x < w - 1 && 0 < y < h - 1 && full[cell(w, x, y)] < 128 && full[cell(w, x - 1, y)] >= 128
        && full[cell(w, x + 1, y)] >= 128 && full[cell(w, x, y - 1)] >= 128 && full[cell(
        w,
        x,
        y + 1,
    )] >= 128 {
        walled_pixel_is_a_hole(full, w, h, holes, x, y);
    }
}

} // verus!
