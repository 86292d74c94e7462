//! Operations on coverage masks: growing strokes, finding enclosed holes, cropping.
use vstd::prelude::*;

use crate::grid::{cell, in_grid, lemma_cell_in_range, lemma_cell_unique};

verus! {

/// Coverage at or above this counts as solid for hole detection.
pub const SOLID: u8 = 128;

/// The pixel is in the image and not solid.
pub open spec fn passable(mask: Seq<u8>, w: int, h: int, p: (int, int)) -> bool {
    in_grid(w, h, p.0, p.1) && mask[cell(w, p.0, p.1)] < SOLID
}

/// The pixel is on the edge of the image.
pub open spec fn on_border(w: int, h: int, p: (int, int)) -> bool {
    p.0 == 0 || p.0 == w - 1 || p.1 == 0 || p.1 == h - 1
}

/// The pixels share a side.
pub open spec fn adjacent(p: (int, int), q: (int, int)) -> bool {
    ||| p.1 == q.1 && (p.0 == q.0 + 1 || q.0 == p.0 + 1)
    ||| p.0 == q.0 && (p.1 == q.1 + 1 || q.1 == p.1 + 1)
}

/// `way` leads from the border through pixels that are not solid, each next to the one before.
pub open spec fn way_in(mask: Seq<u8>, w: int, h: int, way: Seq<(int, int)>) -> bool {
    &&& way.len() > 0
    &&& on_border(w, h, way[0])
    &&& forall|k: int| 0 <= k < way.len() ==> passable(mask, w, h, #[trigger] way[k])
    &&& forall|k: int| 0 < k < way.len() ==> adjacent(way[k - 1], #[trigger] way[k])
}

/// The pixel can be reached from the border without crossing solid pixels.
pub open spec fn outside(mask: Seq<u8>, w: int, h: int, p: (int, int)) -> bool {
    exists|way: Seq<(int, int)>| #[trigger] way_in(mask, w, h, way) && way.last() == p
}

/// The pixel is an enclosed hole: not solid and not reachable from the border.
pub open spec fn enclosed(mask: Seq<u8>, w: int, h: int, x: int, y: int) -> bool {
    passable(mask, w, h, (x, y)) && !outside(mask, w, h, (x, y))
}

/// `holes` marks the enclosed holes of the mask with 255 and everything else with 0.
pub open spec fn marks_holes(mask: Seq<u8>, w: int, h: int, holes: Seq<u8>) -> bool {
    &&& holes.len() == w * h
    &&& forall|x: int, y: int|
        in_grid(w, h, x, y) ==> #[trigger] holes[cell(w, x, y)] == (if enclosed(mask, w, h, x, y) {
            255u8
        } else {
            0u8
        })
}

/// The pixel has been marked in `seen`.
spec fn marked(seen: Seq<bool>, w: int, h: int, p: (int, int)) -> bool {
    in_grid(w, h, p.0, p.1) && seen[cell(w, p.0, p.1)]
}

/// How many entries are false.
spec fn unmarked(seen: Seq<bool>) -> nat
    decreases seen.len(),
{
    if seen.len() == 0 {
        0
    } else {
        unmarked(seen.drop_last()) + (if seen.last() {
            0nat
        } else {
            1nat
        })
    }
}

proof fn lemma_mark_one(seen: Seq<bool>, i: int)
    requires
        0 <= i < seen.len(),
        !seen[i],
    ensures
        unmarked(seen.update(i, true)) + 1 == unmarked(seen),
    decreases seen.len(),
{
    let after = seen.update(i, true);
    if i == seen.len() - 1 {
        assert(after.drop_last() =~= seen.drop_last());
    } else {
        assert(after.drop_last() =~= seen.drop_last().update(i, true));
        lemma_mark_one(seen.drop_last(), i);
    }
}

/// All that is marked is outside.
spec fn sound(mask: Seq<u8>, w: int, h: int, seen: Seq<bool>) -> bool {
    forall|p: (int, int)| #[trigger] marked(seen, w, h, p) ==> outside(mask, w, h, p)
}

/// A pixel on the way already known, and what is next to it, is outside too.
pub(crate) proof fn lemma_outside_spreads(mask: Seq<u8>, w: int, h: int, p: (int, int), q: (int, int))
    requires
        outside(mask, w, h, p),
        adjacent(p, q),
        passable(mask, w, h, q),
    ensures
        outside(mask, w, h, q),
{
    let way = choose|way: Seq<(int, int)>| #[trigger] way_in(mask, w, h, way) && way.last() == p;
    let longer = way.push(q);
    assert forall|k: int| 0 < k < longer.len() implies adjacent(
        longer[k - 1],
        #[trigger] longer[k],
    ) by {
        if k < way.len() {
            assert(adjacent(way[k - 1], way[k]));
        }
    }
    assert(way_in(mask, w, h, longer));
}

pub(crate) proof fn lemma_border_is_outside(mask: Seq<u8>, w: int, h: int, p: (int, int))
    requires
        on_border(w, h, p),
        passable(mask, w, h, p),
    ensures
        outside(mask, w, h, p),
{
    assert(way_in(mask, w, h, seq![p]));
    assert(seq![p].last() == p);
}

/// The pixel waits on the stack.
spec fn waiting(stack: Seq<(usize, usize)>, p: (int, int)) -> bool {
    exists|k: int|
        0 <= k < stack.len() && (#[trigger] stack[k]).0 as int == p.0 && stack[k].1 as int == p.1
}

/// Everything passable next to the pixel is marked.
spec fn spread(mask: Seq<u8>, w: int, h: int, seen: Seq<bool>, p: (int, int)) -> bool {
    forall|q: (int, int)|
        #![trigger marked(seen, w, h, q)]
        adjacent(p, q) && passable(mask, w, h, q) ==> marked(seen, w, h, q)
}

/// Each marked pixel waits on the stack or has spread, except perhaps `hand`.
spec fn settled(
    mask: Seq<u8>,
    w: int,
    h: int,
    seen: Seq<bool>,
    stack: Seq<(usize, usize)>,
    hand: Option<(int, int)>,
) -> bool {
    &&& forall|p: (int, int)| #[trigger]
        marked(seen, w, h, p) ==> {
            ||| hand == Some(p)
            ||| waiting(stack, p)
            ||| spread(mask, w, h, seen, p)
        }
    &&& forall|k: int|
        0 <= k < stack.len() ==> marked(
            seen,
            w,
            h,
            ((#[trigger] stack[k]).0 as int, stack[k].1 as int),
        )
}

/// What is marked after a visit of `v`: what was marked before, and `v` if it is passable.
spec fn visited(
    mask: Seq<u8>,
    w: int,
    h: int,
    before: Seq<bool>,
    after: Seq<bool>,
    v: (int, int),
) -> bool {
    forall|p: (int, int)| #[trigger]
        marked(after, w, h, p) == (marked(before, w, h, p) || (p == v && passable(mask, w, h, p)))
}

proof fn lemma_visit_settles(
    mask: Seq<u8>,
    w: int,
    h: int,
    seen: Seq<bool>,
    stack: Seq<(usize, usize)>,
    seen2: Seq<bool>,
    stack2: Seq<(usize, usize)>,
    v: (usize, usize),
    hand: Option<(int, int)>,
)
    requires
        settled(mask, w, h, seen, stack, hand),
        sound(mask, w, h, seen),
        visited(mask, w, h, seen, seen2, (v.0 as int, v.1 as int)),
        stack2 == stack || (stack2 == stack.push(v) && marked(
            seen2,
            w,
            h,
            (v.0 as int, v.1 as int),
        )),
        marked(seen2, w, h, (v.0 as int, v.1 as int)) && !marked(
            seen,
            w,
            h,
            (v.0 as int, v.1 as int),
        ) ==> stack2 == stack.push(v),
        passable(mask, w, h, (v.0 as int, v.1 as int)) ==> outside(
            mask,
            w,
            h,
            (v.0 as int, v.1 as int),
        ),
    ensures
        settled(mask, w, h, seen2, stack2, hand),
        sound(mask, w, h, seen2),
{
    let vv = (v.0 as int, v.1 as int);
    assert forall|p: (int, int)| #[trigger] marked(seen2, w, h, p) implies {
        ||| hand == Some(p)
        ||| waiting(stack2, p)
        ||| spread(mask, w, h, seen2, p)
    } by {
        if marked(seen, w, h, p) {
            if waiting(stack, p) {
                let k = choose|k: int|
                    0 <= k < stack.len() && (#[trigger] stack[k]).0 as int == p.0
                        && stack[k].1 as int == p.1;
                assert(stack2[k] == stack[k]);
            } else if spread(mask, w, h, seen, p) {
                assert forall|q: (int, int)|
                    #![trigger marked(seen2, w, h, q)]
                    adjacent(p, q) && passable(mask, w, h, q) implies marked(
                    seen2,
                    w,
                    h,
                    q,
                ) by {
                    assert(marked(seen, w, h, q));
                }
            }
        } else {
            assert(p == vv);
            assert(stack2[stack.len() as int] == v);
        }
    }
    assert forall|k: int| 0 <= k < stack2.len() implies marked(
        seen2,
        w,
        h,
        ((#[trigger] stack2[k]).0 as int, stack2[k].1 as int),
    ) by {
        if k < stack.len() {
            assert(stack2[k] == stack[k]);
            assert(marked(seen, w, h, (stack[k].0 as int, stack[k].1 as int)));
        }
    }
}

/// Marks and remembers a pixel unless it is solid or already marked.
fn visit(
    mask: &[u8],
    w: usize,
    h: usize,
    seen: &mut Vec<bool>,
    stack: &mut Vec<(usize, usize)>,
    x: usize,
    y: usize,
    Ghost(hand): Ghost<Option<(int, int)>>,
)
    requires
        x < w,
        y < h,
        w * h <= mask@.len(),
        old(seen)@.len() == w * h,
        settled(mask@, w as int, h as int, old(seen)@, old(stack)@, hand),
        sound(mask@, w as int, h as int, old(seen)@),
        passable(mask@, w as int, h as int, (x as int, y as int)) ==> outside(
            mask@,
            w as int,
            h as int,
            (x as int, y as int),
        ),
    ensures
        final(seen)@.len() == w * h,
        settled(mask@, w as int, h as int, final(seen)@, final(stack)@, hand),
        sound(mask@, w as int, h as int, final(seen)@),
        visited(mask@, w as int, h as int, old(seen)@, final(seen)@, (x as int, y as int)),
        if passable(mask@, w as int, h as int, (x as int, y as int)) && !marked(
            old(seen)@,
            w as int,
            h as int,
            (x as int, y as int),
        ) {
            final(stack)@ == old(stack)@.push((x, y)) && unmarked(final(seen)@) < unmarked(
                old(seen)@,
            )
        } else {
            final(stack)@ == old(stack)@ && final(seen)@ == old(seen)@
        },
{
    proof {
        lemma_cell_in_range(w as int, h as int, x as int, y as int);
    }
    assert(mask.len() == mask@.len());
    let i: usize = y * w + x;
    if seen[i] || mask[i] >= SOLID {
        return;
    }
    proof {
        lemma_mark_one(seen@, i as int);
        assert forall|p: (int, int)|
            #![trigger marked(seen@.update(i as int, true), w as int, h as int, p)]
            marked(seen@.update(i as int, true), w as int, h as int, p) == (marked(
                seen@,
                w as int,
                h as int,
                p,
            ) || (p == (x as int, y as int) && passable(mask@, w as int, h as int, p))) by {
            if in_grid(w as int, h as int, p.0, p.1) {
                lemma_cell_in_range(w as int, h as int, p.0, p.1);
                if cell(w as int, p.0, p.1) == i {
                    lemma_cell_unique(w as int, h as int, x as int, y as int, p.0, p.1);
                }
            }
        }
    }
    let ghost seen0 = seen@;
    let ghost stack0 = stack@;
    seen[i] = true;
    stack.push((x, y));
    proof {
        lemma_visit_settles(
            mask@,
            w as int,
            h as int,
            seen0,
            stack0,
            seen@,
            stack@,
            (x, y),
            hand,
        );
    }
}

/// Once nothing waits, everything outside has been marked.
proof fn lemma_fill_complete(
    mask: Seq<u8>,
    w: int,
    h: int,
    seen: Seq<bool>,
    way: Seq<(int, int)>,
    k: int,
)
    requires
        settled(mask, w, h, seen, seq![], None),
        forall|p: (int, int)|
            on_border(w, h, p) && passable(mask, w, h, p) ==> #[trigger] marked(seen, w, h, p),
        way_in(mask, w, h, way),
        0 <= k < way.len(),
    ensures
        marked(seen, w, h, way[k]),
    decreases k,
{
    assert(passable(mask, w, h, way[k]));
    if k == 0 {
        assert(marked(seen, w, h, way[0]));
    } else {
        lemma_fill_complete(mask, w, h, seen, way, k - 1);
        assert(adjacent(way[k - 1], way[k]));
        assert(!waiting(seq![], way[k - 1]));
        assert(spread(mask, w, h, seen, way[k - 1]));
    }
}

/// Flood-fills "outside" from the border through low-coverage pixels; whatever low-coverage
/// pixels remain are enclosed holes (255 = hole).
pub fn find_holes(mask: &[u8], w: usize, h: usize) -> (holes: Vec<u8>)
    requires
        w * h <= mask@.len(),
    ensures
        marks_holes(mask@, w as int, h as int, holes@),
{
    assert(mask.len() == mask@.len());
    let ghost m = mask@;
    let ghost gw = w as int;
    let ghost gh = h as int;
    let n: usize = w * h;
    let mut seen: Vec<bool> = vec![false;n];
    let mut stack: Vec<(usize, usize)> = Vec::new();
    proof {
        assert forall|p: (int, int)| !#[trigger] marked(seen@, gw, gh, p) by {
            if in_grid(gw, gh, p.0, p.1) {
                lemma_cell_in_range(gw, gh, p.0, p.1);
            }
        }
    }
    if w > 0 && h > 0 {
        let mut x: usize = 0;
        while x < w
            invariant
                x <= w,
                h > 0,
                m == mask@,
                gw == w,
                gh == h,
                w * h <= mask@.len(),
                seen@.len() == w * h,
                settled(m, gw, gh, seen@, stack@, None),
                sound(m, gw, gh, seen@),
                forall|p: (int, int)|
                    p.0 < x && (p.1 == 0 || p.1 == gh - 1) && passable(m, gw, gh, p)
                        ==> #[trigger] marked(seen@, gw, gh, p),
            decreases w - x,
        {
            proof {
                if passable(m, gw, gh, (x as int, 0)) {
                    lemma_border_is_outside(m, gw, gh, (x as int, 0));
                }
                if passable(m, gw, gh, (x as int, gh - 1)) {
                    lemma_border_is_outside(m, gw, gh, (x as int, gh - 1));
                }
            }
            visit(mask, w, h, &mut seen, &mut stack, x, 0, Ghost(None));
            visit(mask, w, h, &mut seen, &mut stack, x, h - 1, Ghost(None));
            x += 1;
        }
        let mut y: usize = 0;
        while y < h
            invariant
                y <= h,
                w > 0,
                m == mask@,
                gw == w,
                gh == h,
                w * h <= mask@.len(),
                seen@.len() == w * h,
                settled(m, gw, gh, seen@, stack@, None),
                sound(m, gw, gh, seen@),
                forall|p: (int, int)|
                    (p.1 == 0 || p.1 == gh - 1) && passable(m, gw, gh, p) ==> #[trigger] marked(
                        seen@,
                        gw,
                        gh,
                        p,
                    ),
                forall|p: (int, int)|
                    p.1 < y && (p.0 == 0 || p.0 == gw - 1) && passable(m, gw, gh, p)
                        ==> #[trigger] marked(seen@, gw, gh, p),
            decreases h - y,
        {
            proof {
                if passable(m, gw, gh, (0, y as int)) {
                    lemma_border_is_outside(m, gw, gh, (0, y as int));
                }
                if passable(m, gw, gh, (gw - 1, y as int)) {
                    lemma_border_is_outside(m, gw, gh, (gw - 1, y as int));
                }
            }
            visit(mask, w, h, &mut seen, &mut stack, 0, y, Ghost(None));
            visit(mask, w, h, &mut seen, &mut stack, w - 1, y, Ghost(None));
            y += 1;
        }
    }
    while stack.len() > 0
        invariant
            m == mask@,
            gw == w,
            gh == h,
            w * h <= mask@.len(),
            seen@.len() == w * h,
            settled(m, gw, gh, seen@, stack@, None),
            sound(m, gw, gh, seen@),
            forall|p: (int, int)|
                on_border(gw, gh, p) && passable(m, gw, gh, p) ==> #[trigger] marked(
                    seen@,
                    gw,
                    gh,
                    p,
                ),
        decreases unmarked(seen@), stack@.len(),
    {
        let ghost stack0 = stack@;
        if let Some((x, y)) = stack.pop() {
            let ghost c = (x as int, y as int);
            proof {
                assert(marked(seen@, gw, gh, (stack0.last().0 as int, stack0.last().1 as int)));
                assert forall|p: (int, int)| #[trigger] marked(seen@, gw, gh, p) implies {
                    ||| p == c
                    ||| waiting(stack@, p)
                    ||| spread(m, gw, gh, seen@, p)
                } by {
                    if p != c && waiting(stack0, p) {
                        let k = choose|k: int|
                            0 <= k < stack0.len() && (#[trigger] stack0[k]).0 as int == p.0
                                && stack0[k].1 as int == p.1;
                        assert(stack@[k] == stack0[k]);
                    }
                }
                assert forall|k: int| 0 <= k < stack@.len() implies marked(
                    seen@,
                    gw,
                    gh,
                    ((#[trigger] stack@[k]).0 as int, stack@[k].1 as int),
                ) by {
                    assert(stack@[k] == stack0[k]);
                }
                assert(settled(m, gw, gh, seen@, stack@, Some(c)));
                assert forall|q: (int, int)|
                    adjacent(c, q) && #[trigger] passable(m, gw, gh, q) implies outside(
                    m,
                    gw,
                    gh,
                    q,
                ) by {
                    lemma_outside_spreads(m, gw, gh, c, q);
                }
            }
            if x > 0 {
                visit(mask, w, h, &mut seen, &mut stack, x - 1, y, Ghost(Some(c)));
            }
            if x + 1 < w {
                visit(mask, w, h, &mut seen, &mut stack, x + 1, y, Ghost(Some(c)));
            }
            if y > 0 {
                visit(mask, w, h, &mut seen, &mut stack, x, y - 1, Ghost(Some(c)));
            }
            if y + 1 < h {
                visit(mask, w, h, &mut seen, &mut stack, x, y + 1, Ghost(Some(c)));
            }
            assert(spread(m, gw, gh, seen@, c));
        }
    }
    let mut holes: Vec<u8> = Vec::new();
    let mut i: usize = 0;
    while i < n
        invariant
            i <= n == w * h,
            w * h <= mask@.len(),
            m == mask@,
            seen@.len() == w * h,
            holes@.len() == i,
            forall|k: int|
                0 <= k < i ==> #[trigger] holes@[k] == (if !seen@[k] && m[k] < SOLID {
                    255u8
                } else {
                    0u8
                }),
        decreases n - i,
    {
        assert(mask.len() == mask@.len());
        holes.push(
            if !seen[i] && mask[i] < SOLID {
                255
            } else {
                0
            },
        );
        i += 1;
    }
    proof {
        assert forall|x: int, y: int| in_grid(gw, gh, x, y) implies #[trigger] holes@[cell(gw, x, y)]
            == (if enclosed(m, gw, gh, x, y) {
            255u8
        } else {
            0u8
        }) by {
            lemma_cell_in_range(gw, gh, x, y);
            assert(stack@ =~= seq![]);
            if marked(seen@, gw, gh, (x, y)) {
                assert(outside(m, gw, gh, (x, y)));
            } else if outside(m, gw, gh, (x, y)) {
                let way = choose|way: Seq<(int, int)>| #[trigger]
                    way_in(m, gw, gh, way) && way.last() == (x, y);
                lemma_fill_complete(m, gw, gh, seen@, way, way.len() - 1);
            }
        }
    }
    holes
}

/// `(xx, yy)` lies in the disc of radius `r` around `(x, y)`.
pub open spec fn near(r: int, x: int, y: int, xx: int, yy: int) -> bool {
    r >= 0 && (xx - x) * (xx - x) + (yy - y) * (yy - y) <= r * r
}

/// `m` is the greatest coverage in the disc of radius `r` around `(x, y)`, or 0 if the disc is
/// empty.
pub open spec fn greatest_near(
    mask: Seq<u8>,
    w: int,
    h: int,
    r: int,
    x: int,
    y: int,
    m: u8,
) -> bool {
    &&& forall|xx: int, yy: int|
        in_grid(w, h, xx, yy) && near(r, x, y, xx, yy) ==> #[trigger] mask[cell(w, xx, yy)] <= m
    &&& m == 0 || exists|xx: int, yy: int|
        in_grid(w, h, xx, yy) && near(r, x, y, xx, yy) && #[trigger] mask[cell(w, xx, yy)] == m
}

/// `out` is the mask with every pixel replaced by the greatest coverage around it.
pub open spec fn is_dilation(mask: Seq<u8>, w: int, h: int, r: int, out: Seq<u8>) -> bool {
    &&& out.len() == mask.len()
    &&& forall|x: int, y: int|
        in_grid(w, h, x, y) ==> greatest_near(
            mask,
            w,
            h,
            r,
            x,
            y,
            #[trigger] out[cell(w, x, y)],
        )
    &&& forall|i: int| w * h <= i < out.len() ==> out[i] == 0
}

proof fn lemma_near_bounds(r: int, x: int, y: int)
    ensures
        forall|xx: int, yy: int| #[trigger]
            near(r, x, y, xx, yy) ==> -r <= xx - x <= r && -r <= yy - y <= r,
{
    assert forall|xx: int, yy: int| #[trigger] near(r, x, y, xx, yy) implies -r <= xx - x <= r && -r
        <= yy - y <= r by {
        let dx = xx - x;
        let dy = yy - y;
        assert(dx * dx >= 0 && dy * dy >= 0) by (nonlinear_arith);
        assert(-r <= dx <= r) by (nonlinear_arith)
            requires
                r >= 0,
                dx * dx <= r * r,
        ;
        assert(-r <= dy <= r) by (nonlinear_arith)
            requires
                r >= 0,
                dy * dy <= r * r,
        ;
    }
}

/// The greatest coverage in the disc around one pixel.
fn disc_max(mask: &[u8], w: usize, h: usize, r: i32, x: usize, y: usize) -> (m: u8)
    requires
        w * h <= mask@.len(),
        x < w,
        y < h,
    ensures
        greatest_near(mask@, w as int, h as int, r as int, x as int, y as int, m),
{
    assert(mask.len() == mask@.len());
    let ghost gw = w as int;
    let ghost gh = h as int;
    proof {
        lemma_near_bounds(r as int, x as int, y as int);
    }
    let mut m: u8 = 0;
    let n: i64 = r as i64;
    let mut dy: i64 = -n;
    while dy <= n
        invariant
            w * h <= mask@.len() == mask.len(),
            n == r,
            gw == w,
            gh == h,
            x < w,
            y < h,
            -r <= dy <= r + 1 || (dy == -r && r < 0),
            forall|xx: int, yy: int|
                in_grid(gw, gh, xx, yy) && near(r as int, x as int, y as int, xx, yy) && yy - y < dy
                    ==> #[trigger] mask@[cell(gw, xx, yy)] <= m,
            m == 0 || exists|xx: int, yy: int|
                in_grid(gw, gh, xx, yy) && near(r as int, x as int, y as int, xx, yy)
                    && #[trigger] mask@[cell(gw, xx, yy)] == m,
        decreases r + 1 - dy,
    {
        proof {
            lemma_near_bounds(r as int, x as int, y as int);
        }
        let mut dx: i64 = -n;
        while dx <= n
            invariant
                w * h <= mask@.len() == mask.len(),
                n == r,
                gw == w,
                gh == h,
                x < w,
                y < h,
                -r <= dy <= r,
                -r <= dx <= r + 1,
                forall|xx: int, yy: int|
                    in_grid(gw, gh, xx, yy) && near(r as int, x as int, y as int, xx, yy) && (yy - y
                        < dy || (yy - y == dy && xx - x < dx)) ==> #[trigger] mask@[cell(
                        gw,
                        xx,
                        yy,
                    )] <= m,
                m == 0 || exists|xx: int, yy: int|
                    in_grid(gw, gh, xx, yy) && near(r as int, x as int, y as int, xx, yy)
                        && #[trigger] mask@[cell(gw, xx, yy)] == m,
            decreases r + 1 - dx,
        {
            let xx: i128 = x as i128 + dx as i128;
            let yy: i128 = y as i128 + dy as i128;
            assert(0 <= dx * dx <= 0x3FFF_FFFF_0000_0001 && 0 <= dy * dy <= 0x3FFF_FFFF_0000_0001
                && 0 <= n * n <= 0x3FFF_FFFF_0000_0001) by (nonlinear_arith)
                requires
                    -0x7FFF_FFFF <= dx <= 0x7FFF_FFFF,
                    -0x7FFF_FFFF <= dy <= 0x7FFF_FFFF,
                    -0x7FFF_FFFF <= n <= 0x7FFF_FFFF,
            ;
            if dx * dx + dy * dy <= n * n && 0 <= xx && 0 <= yy && xx < w as i128 && yy < h as i128 {
                proof {
                    lemma_cell_in_range(gw, gh, xx as int, yy as int);
                    assert(near(r as int, x as int, y as int, xx as int, yy as int));
                }
                let v: u8 = mask[yy as usize * w + xx as usize];
                assert(v == mask@[cell(gw, xx as int, yy as int)]);
                if v > m {
                    m = v;
                }
            }
            dx += 1;
        }
        dy += 1;
    }
    m
}

/// Grows coverage by taking the maximum over a disc of radius `r`.
pub fn dilate(mask: &[u8], w: usize, h: usize, r: i32) -> (out: Vec<u8>)
    requires
        w * h <= mask@.len(),
    ensures
        is_dilation(mask@, w as int, h as int, r as int, out@),
{
    assert(mask.len() == mask@.len());
    let ghost gw = w as int;
    let ghost gh = h as int;
    let mut out: Vec<u8> = vec![0u8;mask.len()];
    let mut y: usize = 0;
    while y < h
        invariant
            y <= h,
            gw == w,
            gh == h,
            w * h <= mask@.len(),
                out@.len() == mask@.len(),
            forall|xx: int, yy: int|
                in_grid(gw, gh, xx, yy) && yy < y ==> greatest_near(
                    mask@,
                    gw,
                    gh,
                    r as int,
                    xx,
                    yy,
                    #[trigger] out@[cell(gw, xx, yy)],
                ),
            forall|i: int| w * h <= i < out@.len() ==> out@[i] == 0,
        decreases h - y,
    {
        let mut x: usize = 0;
        while x < w
            invariant
                x <= w,
                y < h,
                gw == w,
                gh == h,
                w * h <= mask@.len(),
                        out@.len() == mask@.len(),
                forall|xx: int, yy: int|
                    in_grid(gw, gh, xx, yy) && (yy < y || (yy == y && xx < x)) ==> greatest_near(
                        mask@,
                        gw,
                        gh,
                        r as int,
                        xx,
                        yy,
                        #[trigger] out@[cell(gw, xx, yy)],
                    ),
                forall|i: int| w * h <= i < out@.len() ==> out@[i] == 0,
            decreases w - x,
        {
            assert(mask.len() == mask@.len());
            proof {
                lemma_cell_in_range(gw, gh, x as int, y as int);
            }
            let ghost before = out@;
            let m: u8 = disc_max(mask, w, h, r, x, y);
            let i: usize = y * w + x;
            out[i] = m;
            proof {
                assert forall|xx: int, yy: int|
                    in_grid(gw, gh, xx, yy) && (yy < y || (yy == y && xx < x
                        + 1)) implies greatest_near(
                    mask@,
                    gw,
                    gh,
                    r as int,
                    xx,
                    yy,
                    #[trigger] out@[cell(gw, xx, yy)],
                ) by {
                    lemma_cell_in_range(gw, gh, xx, yy);
                    if cell(gw, xx, yy) == i {
                        lemma_cell_unique(gw, gh, x as int, y as int, xx, yy);
                    } else {
                        assert(out@[cell(gw, xx, yy)] == before[cell(gw, xx, yy)]);
                    }
                }
            }
            x += 1;
        }
        y += 1;
    }
    out
}

/// All pixels with coverage lie in columns `b.0..b.2` and rows `b.1..b.3`, and each of the four
/// sides touches one.
pub open spec fn bounds(
    mask: Seq<u8>,
    w: int,
    h: int,
    b: (usize, usize, usize, usize),
) -> bool {
    &&& forall|x: int, y: int|
        in_grid(w, h, x, y) && #[trigger] mask[cell(w, x, y)] != 0 ==> b.0 <= x < b.2 && b.1 <= y
            < b.3
    &&& exists|y: int| in_grid(w, h, b.0 as int, y) && #[trigger] mask[cell(w, b.0 as int, y)] != 0
    &&& exists|x: int| in_grid(w, h, x, b.1 as int) && #[trigger] mask[cell(w, x, b.1 as int)] != 0
    &&& exists|y: int| in_grid(w, h, b.2 - 1, y) && #[trigger] mask[cell(w, b.2 - 1, y)] != 0
    &&& exists|x: int| in_grid(w, h, x, b.3 - 1) && #[trigger] mask[cell(w, x, b.3 - 1)] != 0
}

/// Bounding box `(x0, y0, x1, y1)` (the maxima exclusive) of all non-zero pixels.
pub fn bounding_box(mask: &[u8], w: usize, h: usize) -> (r: Option<(usize, usize, usize, usize)>)
    requires
        w * h <= mask@.len(),
    ensures
        match r {
            Some(b) => bounds(mask@, w as int, h as int, b),
            None => forall|x: int, y: int|
                in_grid(w as int, h as int, x, y) ==> #[trigger] mask@[cell(w as int, x, y)] == 0,
        },
{
    let ghost m = mask@;
    let ghost gw = w as int;
    let ghost gh = h as int;
    let mut bb: Option<(usize, usize, usize, usize)> = None;
    let mut y: usize = 0;
    while y < h
        invariant
            y <= h,
            m == mask@,
            gw == w,
            gh == h,
            w * h <= mask@.len(),
            match bb {
                Some(b) => bounds_so_far(m, gw, gh, b, 0, y as int),
                None => none_so_far(m, gw, gh, 0, y as int),
            },
        decreases h - y,
    {
        let mut x: usize = 0;
        while x < w
            invariant
                x <= w,
                y < h,
                m == mask@,
                gw == w,
                gh == h,
                w * h <= mask@.len(),
                match bb {
                    Some(b) => bounds_so_far(m, gw, gh, b, x as int, y as int),
                    None => none_so_far(m, gw, gh, x as int, y as int),
                },
            decreases w - x,
        {
            assert(mask.len() == mask@.len());
            proof {
                lemma_cell_in_range(gw, gh, x as int, y as int);
            }
            let i: usize = y * w + x;
            assert(i == cell(gw, x as int, y as int));
            if mask[i] != 0 {
                bb = Some(
                    match bb {
                        None => (x, y, x + 1, y + 1),
                        Some((x0, y0, x1, y1)) => (
                            if x < x0 {
                                x
                            } else {
                                x0
                            },
                            if y < y0 {
                                y
                            } else {
                                y0
                            },
                            if x1 < x + 1 {
                                x + 1
                            } else {
                                x1
                            },
                            if y1 < y + 1 {
                                y + 1
                            } else {
                                y1
                            },
                        ),
                    },
                );
                proof {
                    let b = bb->0;
                    assert(b.0 == x ==> m[cell(gw, b.0 as int, y as int)] != 0);
                    assert(b.1 == y ==> m[cell(gw, x as int, b.1 as int)] != 0);
                    assert(b.2 == x + 1 ==> m[cell(gw, b.2 - 1, y as int)] != 0);
                    assert(b.3 == y + 1 ==> m[cell(gw, x as int, b.3 - 1)] != 0);
                }
            }
            x += 1;
        }
        y += 1;
    }
    bb
}

/// `(x, y)` comes before `(x1, y1)` row by row.
spec fn scanned(x: int, y: int, x1: int, y1: int) -> bool {
    y < y1 || (y == y1 && x < x1)
}

spec fn none_so_far(m: Seq<u8>, w: int, h: int, x1: int, y1: int) -> bool {
    forall|x: int, y: int|
        in_grid(w, h, x, y) && scanned(x, y, x1, y1) ==> #[trigger] m[cell(w, x, y)] == 0
}

spec fn bounds_so_far(
    m: Seq<u8>,
    w: int,
    h: int,
    b: (usize, usize, usize, usize),
    x1: int,
    y1: int,
) -> bool {
    &&& forall|x: int, y: int|
        in_grid(w, h, x, y) && scanned(x, y, x1, y1) && #[trigger] m[cell(w, x, y)] != 0 ==> b.0
            <= x < b.2 && b.1 <= y < b.3
    &&& exists|y: int| in_grid(w, h, b.0 as int, y) && #[trigger] m[cell(w, b.0 as int, y)] != 0
    &&& exists|x: int| in_grid(w, h, x, b.1 as int) && #[trigger] m[cell(w, x, b.1 as int)] != 0
    &&& exists|y: int| in_grid(w, h, b.2 - 1, y) && #[trigger] m[cell(w, b.2 - 1, y)] != 0
    &&& exists|x: int| in_grid(w, h, x, b.3 - 1) && #[trigger] m[cell(w, x, b.3 - 1)] != 0
}

/// Dilation only grows coverage, and a larger radius never gives less of it.
pub proof fn dilation_grows(mask: Seq<u8>, w: int, h: int, r: int, out: Seq<u8>, r2: int, out2: Seq<u8>)
    requires
        0 <= r <= r2,
        is_dilation(mask, w, h, r, out),
        is_dilation(mask, w, h, r2, out2),
    ensures
        forall|x: int, y: int|
            #![trigger out[cell(w, x, y)]]
            in_grid(w, h, x, y) ==> mask[cell(w, x, y)] <= out[cell(w, x, y)] <= out2[cell(
                w,
                x,
                y,
            )],
{
    assert(r * r <= r2 * r2) by (nonlinear_arith)
        requires
            0 <= r <= r2,
    ;
    assert forall|x: int, y: int|
        #![trigger out[cell(w, x, y)]]
        in_grid(w, h, x, y) implies mask[cell(w, x, y)] <= out[cell(w, x, y)] <= out2[cell(
        w,
        x,
        y,
    )] by {
        let i = cell(w, x, y);
        assert(greatest_near(mask, w, h, r, x, y, out[i]));
        assert(greatest_near(mask, w, h, r2, x, y, out2[i]));
        assert(near(r, x, y, x, y)) by {
            assert(0 <= r * r) by (nonlinear_arith);
        }
        if out[i] != 0 {
            let (xx, yy) = choose|xx: int, yy: int|
                in_grid(w, h, xx, yy) && near(r, x, y, xx, yy) && #[trigger] mask[cell(w, xx, yy)]
                    == out[i];
            assert(near(r2, x, y, xx, yy));
            assert(mask[cell(w, xx, yy)] <= out2[i]);
        }
    }
}

/// No hole lies on the edge of the image, next to an outside pixel, or on solid coverage.
pub proof fn holes_are_walled_in(mask: Seq<u8>, w: int, h: int, holes: Seq<u8>, x: int, y: int)
    requires
        marks_holes(mask, w, h, holes),
        in_grid(w, h, x, y),
        holes[cell(w, x, y)] == 255,
    ensures
        mask[cell(w, x, y)] < SOLID,
        !on_border(w, h, (x, y)),
        forall|q: (int, int)|
            adjacent((x, y), q) && #[trigger] passable(mask, w, h, q) ==> holes[cell(w, q.0, q.1)]
                == 255,
{
    assert(enclosed(mask, w, h, x, y));
    if on_border(w, h, (x, y)) {
        lemma_border_is_outside(mask, w, h, (x, y));
    }
    assert forall|q: (int, int)|
        adjacent((x, y), q) && #[trigger] passable(mask, w, h, q) implies holes[cell(w, q.0, q.1)]
        == 255 by {
        if outside(mask, w, h, q) {
            lemma_outside_spreads(mask, w, h, q, (x, y));
        }
    }
}

} // verus!
