//! Tray icon: a Tux silhouette coloured by state, drawn from a coverage mask and scaled to the
//! taskbar's icon size.
use vstd::arithmetic::power2::pow2;
use vstd::prelude::*;

use crate::double::error::rounding_twice_is_rounding_once;
use crate::double::exact::{
    lemma_amount_ordered, lemma_thresholds, product_is_exact, quotient_of_wholes,
};
use crate::double::{half_up, product, quotient, whole, Double, END, START};
use crate::grid::{cell, in_grid, lemma_cell_in_range, lemma_cell_unique};
use crate::resample::{averaged, resample};
use crate::settings::Settings;
use crate::status::Status;
use crate::tux::Mask;

pub mod levels;
pub mod shape;

verus! {

/// Load levels (the higher of CPU and memory share of the host): green below the orange
/// threshold, orange from there on, red above the red threshold; gray = WSL2 is off.
#[derive(Clone, Copy, Debug, PartialEq, Eq, Structural)]
pub enum Level {
    Off,
    Normal,
    Warn,
    High,
}

/// CPU or memory share is more than `pct` percent.
pub open spec fn load_exceeds(st: Status, pct: nat) -> bool {
    st.mem_pct.exceeds(pct) || (st.cpu matches Some(c) && c.exceeds(pct))
}

/// CPU or memory share is `pct` percent or more.
pub open spec fn load_reaches(st: Status, pct: nat) -> bool {
    st.mem_pct.reaches(pct) || (st.cpu matches Some(c) && c.reaches(pct))
}

/// The level of a status under given thresholds.
pub open spec fn level_of(st: Status, s: Settings) -> Level {
    if !st.running {
        Level::Off
    } else if load_exceeds(st, s.high as nat) {
        Level::High
    } else if load_reaches(st, s.warn as nat) {
        Level::Warn
    } else {
        Level::Normal
    }
}

/// The colour of a level: red, green, blue.
pub open spec fn colour(lv: Level) -> Seq<u8> {
    match lv {
        Level::Off => seq![150u8, 150u8, 150u8],
        Level::Normal => seq![52u8, 199u8, 89u8],
        Level::Warn => seq![255u8, 149u8, 0u8],
        Level::High => seq![255u8, 59u8, 48u8],
    }
}

/// How alarming a level is.
pub open spec fn severity(lv: Level) -> int {
    match lv {
        Level::Off => 0,
        Level::Normal => 1,
        Level::Warn => 2,
        Level::High => 3,
    }
}

impl Level {
    /// The level under the default thresholds (orange from 50 %, red above 75 %).
    pub fn for_status(st: &Status) -> (lv: Level)
        requires
            st.wf(),
        ensures
            lv == level_of(*st, Settings { warn: 50, high: 75 }),
    {
        Level::for_settings(st, &Settings::default())
    }

    /// The level under the user's thresholds.
    pub fn for_settings(st: &Status, s: &Settings) -> (lv: Level)
        requires
            st.wf(),
        ensures
            lv == level_of(*st, *s),
    {
        if !st.running {
            return Level::Off;
        }
        let (cpu_high, cpu_warn) = match st.cpu {
            Some(c) => (c.is_above(s.high), c.is_at_least(s.warn)),
            None => (false, false),
        };
        if cpu_high || st.mem_pct.is_above(s.high) {
            Level::High
        } else if cpu_warn || st.mem_pct.is_at_least(s.warn) {
            Level::Warn
        } else {
            Level::Normal
        }
    }

    /// Red, green, blue.
    pub fn rgb(self) -> (c: [u8; 3])
        ensures
            c@ == colour(self),
    {
        match self {
            Level::Off => [150, 150, 150],
            Level::Normal => [52, 199, 89],
            Level::Warn => [255, 149, 0],
            Level::High => [255, 59, 48],
        }
    }
}

/// A higher load never gives a lower level.
pub proof fn level_follows_load(a: Status, b: Status, s: Settings)
    requires
        a.wf(),
        b.wf(),
        a.running ==> b.running,
        !b.mem_pct.less(a.mem_pct),
        a.cpu matches Some(ca) ==> (b.cpu matches Some(cb) && !cb.less(ca)),
    ensures
        severity(level_of(a, s)) <= severity(level_of(b, s)),
{
    lemma_at_least(a.mem_pct, b.mem_pct, s.high as nat);
    lemma_at_least(a.mem_pct, b.mem_pct, s.warn as nat);
    if a.cpu is Some {
        lemma_at_least(a.cpu->0, b.cpu->0, s.high as nat);
        lemma_at_least(a.cpu->0, b.cpu->0, s.warn as nat);
    }
}

proof fn lemma_at_least(a: Double, b: Double, pct: nat)
    requires
        a.wf(),
        b.wf(),
        !b.less(a),
    ensures
        a.exceeds(pct) ==> b.exceeds(pct),
        a.reaches(pct) ==> b.reaches(pct),
{
    lemma_amount_ordered(a, b);
    lemma_thresholds(a, pct);
    lemma_thresholds(b, pct);
}

/// With valid thresholds, the levels change where the settings say: gray when off, and otherwise
/// red exactly above `high`, green exactly below `warn`.
pub proof fn level_matches_thresholds(st: Status, s: Settings)
    requires
        st.wf(),
        s.valid(),
    ensures
        level_of(st, s) == Level::Off <==> !st.running,
        level_of(st, s) == Level::High <==> st.running && load_exceeds(st, s.high as nat),
        level_of(st, s) == Level::Normal <==> st.running && !load_reaches(st, s.warn as nat),
{
    assert forall|x: Double|
        #![trigger x.wf()]
        x.wf() && x.exceeds(s.high as nat) implies x.reaches(s.warn as nat) by {
        lemma_thresholds(x, s.high as nat);
        lemma_thresholds(x, s.warn as nat);
        let g = pow2(4000) as int;
        assert(s.warn * g <= s.high * g) by (nonlinear_arith)
            requires
                s.warn <= s.high,
                g >= 0,
        ;
    }
    assert(st.mem_pct.wf());
    if st.cpu is Some {
        assert((st.cpu->0).wf());
    }
}

/// Alpha (0-255) of Tux's belly/face areas, so the silhouette reads as a solid shape instead of a
/// thin outline on dark taskbars.
pub const HOLLOW_ALPHA: u32 = 110;

/// `n / d` to the nearest whole number, halves up.
pub open spec fn nearest(n: int, d: int) -> int {
    (2 * n + d) / (2 * d)
}

/// Width and height of a `mw` by `mh` glyph fitted into a square, keeping its aspect ratio.
pub open spec fn fitted(sz: int, mw: int, mh: int) -> (int, int) {
    if mw == 0 || mh == 0 {
        (0, 0)
    } else if nearest(sz * mw, mh) > sz {
        (sz, nearest(sz * mh, mw))
    } else {
        (nearest(sz * mw, mh), sz)
    }
}

/// Alpha of the icon pixel in column `px` of row `py`: the glyph centred in the square, its holes
/// filled with `HOLLOW_ALPHA`.
pub open spec fn alpha(m: Mask, sz: int, px: int, py: int) -> int {
    let (gw, gh) = fitted(sz, m.w as int, m.h as int);
    let x = px - (sz - gw) / 2;
    let y = py - (sz - gh) / 2;
    if in_grid(gw, gh, x, y) {
        let cov = averaged(m.cov@, m.w as int, m.h as int, gw, gh, x, y);
        let hole = averaged(m.holes@, m.w as int, m.h as int, gw, gh, x, y) * HOLLOW_ALPHA / 255;
        if cov < hole {
            hole
        } else {
            cov
        }
    } else {
        0
    }
}

/// Channel `ch` (blue, green, red, alpha) of a pixel of colour `c` and alpha `a`, premultiplied.
pub open spec fn premultiplied(c: Seq<u8>, a: int, ch: int) -> int {
    if ch == 3 {
        a
    } else {
        c[2 - ch] * a / 255
    }
}

/// Where channel `ch` of a pixel is stored.
pub open spec fn place(sz: int, px: int, py: int, ch: int) -> int {
    4 * cell(sz, px, py) + ch
}

/// `pix` shows the icon (BGRA premultiplied), and nothing behind its last pixel.
pub open spec fn is_icon(pix: Seq<u8>, m: Mask, sz: int, lv: Level) -> bool {
    &&& forall|px: int, py: int, ch: int|
        in_grid(sz, sz, px, py) && 0 <= ch < 4 ==> #[trigger] pix[place(sz, px, py, ch)]
            == premultiplied(colour(lv), alpha(m, sz, px, py), ch)
    &&& forall|i: int| 4 * (sz * sz) <= i < pix.len() ==> pix[i] == 0
}

/// The fitted glyph does not leave the square.
proof fn lemma_fitted_inside(sz: int, mw: int, mh: int)
    requires
        0 <= sz,
        0 <= mw,
        0 <= mh,
    ensures
        0 <= fitted(sz, mw, mh).0 <= sz,
        0 <= fitted(sz, mw, mh).1 <= sz,
{
    if mw > 0 && mh > 0 {
        let g = nearest(sz * mw, mh);
        let t = sz * mw;
        assert(0 <= t) by (nonlinear_arith)
            requires
                0 <= sz,
                0 <= mw,
                t == sz * mw,
        ;
        assert(0 <= (2 * t + mh) / (2 * mh)) by (nonlinear_arith)
            requires
                0 <= t,
                0 < mh,
        ;
        if g > sz {
            assert(mh < mw) by (nonlinear_arith)
                requires
                    (2 * (sz * mw) + mh) / (2 * mh) > sz,
                    0 <= sz,
                    0 < mh,
            ;
            let u = sz * mh;
            assert(0 <= u <= sz * mw) by (nonlinear_arith)
                requires
                    0 <= sz,
                    0 <= mh < mw,
                    u == sz * mh,
            ;
            assert(0 <= (2 * u + mw) / (2 * mw) <= sz) by (nonlinear_arith)
                requires
                    0 <= u <= sz * mw,
                    0 < mw,
            ;
        }
    }
}

/// The glyph uses the whole height or the whole width of the icon, and stays inside it.
pub proof fn fitted_glyph_fills_square(sz: int, mw: int, mh: int)
    requires
        0 <= sz,
        0 < mw,
        0 < mh,
    ensures
        0 <= fitted(sz, mw, mh).0 <= sz,
        0 <= fitted(sz, mw, mh).1 <= sz,
        fitted(sz, mw, mh).0 == sz || fitted(sz, mw, mh).1 == sz,
{
    lemma_fitted_inside(sz, mw, mh);
}

/// Fitting in double precision gives the same size: the products are exact, and rounding the
/// quotient twice is rounding it once.
pub proof fn fitting_agrees_with_doubles(sz: nat, mw: nat, mh: nat)
    requires
        0 < sz,
        0 < mw,
        0 < mh < END,
        sz * mw < START,
    ensures
        half_up(quotient(product(whole(sz), whole(mw)), whole(mh))) == nearest(
            (sz * mw) as int,
            mh as int,
        ),
{
    let n = sz * mw;
    assert(n > 0) by (nonlinear_arith)
        requires
            n == sz * mw,
            sz > 0,
            mw > 0,
    ;
    product_is_exact(sz, mw);
    quotient_of_wholes(n, mh);
    rounding_twice_is_rounding_once(n, mh);
}

/// Computes `nearest(a * b, d)`.
fn scaled(a: usize, b: usize, d: usize) -> (r: u128)
    requires
        b <= 0xFFFF,
        0 < d <= 0xFFFF,
    ensures
        r == nearest(a * b, d as int),
{
    assert(0 <= a * b <= 0xFFFF_FFFF_FFFF_FFFF * 0xFFFF) by (nonlinear_arith)
        requires
            0 <= a <= 0xFFFF_FFFF_FFFF_FFFF,
            0 <= b <= 0xFFFF,
    ;
    let p: u128 = a as u128 * b as u128;
    (2 * p + d as u128) / (2 * (d as u128))
}

/// Computes `fitted`.
fn fit(sz: usize, mw: usize, mh: usize) -> (r: (usize, usize))
    requires
        mw <= 0xFFFF,
        mh <= 0xFFFF,
    ensures
        (r.0 as int, r.1 as int) == fitted(sz as int, mw as int, mh as int),
        r.0 <= sz,
        r.1 <= sz,
{
    proof {
        lemma_fitted_inside(sz as int, mw as int, mh as int);
    }
    if mw == 0 || mh == 0 {
        return (0, 0);
    }
    let gw: u128 = scaled(sz, mw, mh);
    if gw > sz as u128 {
        let gh: u128 = scaled(sz, mh, mw);
        (sz, gh as usize)
    } else {
        (gw as usize, sz)
    }
}

proof fn lemma_place_unique(
    sz: int,
    px: int,
    py: int,
    ch: int,
    px2: int,
    py2: int,
    ch2: int,
)
    requires
        in_grid(sz, sz, px, py),
        in_grid(sz, sz, px2, py2),
        0 <= ch < 4,
        0 <= ch2 < 4,
    ensures
        0 <= place(sz, px, py, ch) < 4 * (sz * sz),
        place(sz, px, py, ch) == place(sz, px2, py2, ch2) ==> px == px2 && py == py2 && ch == ch2,
{
    lemma_cell_in_range(sz, sz, px, py);
    if place(sz, px, py, ch) == place(sz, px2, py2, ch2) {
        assert(cell(sz, px, py) == cell(sz, px2, py2) && ch == ch2);
        lemma_cell_unique(sz, sz, px, py, px2, py2);
    }
}

/// The glyph's pixels before `(x1, y1)` are drawn at offset `(x0, y0)`, everything else is clear.
spec fn drawn_so_far(
    pix: Seq<u8>,
    m: Mask,
    sz: int,
    lv: Level,
    x0: int,
    y0: int,
    gw: int,
    gh: int,
    x1: int,
    y1: int,
) -> bool {
    &&& forall|px: int, py: int, ch: int|
        in_grid(sz, sz, px, py) && 0 <= ch < 4 ==> #[trigger] pix[place(sz, px, py, ch)] == (
        if in_grid(gw, gh, px - x0, py - y0) && (py - y0 < y1 || (py - y0 == y1 && px - x0 < x1)) {
            premultiplied(colour(lv), alpha(m, sz, px, py), ch)
        } else {
            0
        })
    &&& forall|i: int| 4 * (sz * sz) <= i < pix.len() ==> pix[i] == 0
}

/// Clears all bytes.
fn clear(pix: &mut [u8])
    ensures
        final(pix)@.len() == old(pix)@.len(),
        forall|i: int| 0 <= i < final(pix)@.len() ==> final(pix)@[i] == 0,
{
    let n: usize = pix.len();
    let mut i: usize = 0;
    while i < n
        invariant
            i <= n == pix@.len(),
            n == old(pix)@.len(),
            forall|k: int| 0 <= k < i ==> pix@[k] == 0,
        decreases n - i,
    {
        pix[i] = 0;
        i += 1;
    }
}

/// One premultiplied channel.
fn shade(c: u8, a: u8) -> (r: u8)
    ensures
        r == c * a / 255,
{
    assert(0 <= c * a <= 255 * 255 && 0 <= c * a / 255 <= 255) by (nonlinear_arith)
        requires
            0 <= c <= 255,
            0 <= a <= 255,
    ;
    (c as u32 * a as u32 / 255) as u8
}

/// Sets one pixel to colour `c` with alpha `a`.
fn put(pix: &mut [u8], sz: usize, x: usize, y: usize, c: [u8; 3], a: u8)
    requires
        x < sz,
        y < sz,
        4 * (sz * sz) <= old(pix)@.len(),
    ensures
        final(pix)@.len() == old(pix)@.len(),
        forall|ch: int|
            0 <= ch < 4 ==> #[trigger] final(pix)@[place(sz as int, x as int, y as int, ch)]
                == premultiplied(c@, a as int, ch),
        forall|i: int|
            0 <= i < final(pix)@.len() && !(place(sz as int, x as int, y as int, 0) <= i <= place(
                sz as int,
                x as int,
                y as int,
                3,
            )) ==> final(pix)@[i] == old(pix)@[i],
{
    assert(pix.len() == pix@.len());
    proof {
        lemma_place_unique(sz as int, x as int, y as int, 3, x as int, y as int, 3);
        lemma_cell_in_range(sz as int, sz as int, x as int, y as int);
    }
    let i: usize = (y * sz + x) * 4;
    pix[i] = shade(c[2], a);
    pix[i + 1] = shade(c[1], a);
    pix[i + 2] = shade(c[0], a);
    pix[i + 3] = a;
    proof {
        assert forall|ch: int| 0 <= ch < 4 implies #[trigger] pix@[place(
            sz as int,
            x as int,
            y as int,
            ch,
        )] == premultiplied(c@, a as int, ch) by {
            assert(place(sz as int, x as int, y as int, ch) == i + ch);
        }
    }
}

/// Paints the icon into `pix` (BGRA premultiplied, `sz * sz` pixels).
pub fn draw_icon(pix: &mut [u8], sz: usize, lv: Level, m: &Mask)
    requires
        m.wf(),
        4 * (sz * sz) <= old(pix)@.len(),
    ensures
        final(pix)@.len() == old(pix)@.len(),
        is_icon(final(pix)@, *m, sz as int, lv),
{
    let n: usize = pix.len();
    clear(pix);
    let c: [u8; 3] = lv.rgb();
    let (gw, gh) = fit(sz, m.w, m.h);
    let ghost gsz = sz as int;
    let ghost ggw = gw as int;
    let ghost ggh = gh as int;
    proof {
        assert(0 <= gw * gh <= sz * sz) by (nonlinear_arith)
            requires
                0 <= gw <= sz,
                0 <= gh <= sz,
        ;
    }
    let cov: Vec<u8> = resample(m.cov.as_slice(), m.w, m.h, gw, gh);
    let holes: Vec<u8> = resample(m.holes.as_slice(), m.w, m.h, gw, gh);
    let x0: usize = (sz - gw) / 2;
    let y0: usize = (sz - gh) / 2;
    proof {
        assert forall|px: int, py: int, ch: int|
            in_grid(gsz, gsz, px, py) && 0 <= ch < 4 implies #[trigger] pix@[place(gsz, px, py, ch)]
            == 0 by {
            lemma_place_unique(gsz, px, py, ch, px, py, ch);
        }
    }
    let mut y: usize = 0;
    while y < gh
        invariant
            y <= gh,
            gsz == sz,
            ggw == gw,
            ggh == gh,
            gw <= sz,
            gh <= sz,
            m.wf(),
            (ggw, ggh) == fitted(gsz, m.w as int, m.h as int),
            x0 == (sz - gw) / 2,
            y0 == (sz - gh) / 2,
            c@ == colour(lv),
            n == pix@.len(),
            4 * (sz * sz) <= pix@.len(),
            cov@.len() == gw * gh,
            holes@.len() == gw * gh,
            forall|gx: int, gy: int|
                in_grid(ggw, ggh, gx, gy) ==> #[trigger] cov@[cell(ggw, gx, gy)] == averaged(
                    m.cov@,
                    m.w as int,
                    m.h as int,
                    ggw,
                    ggh,
                    gx,
                    gy,
                ),
            forall|gx: int, gy: int|
                in_grid(ggw, ggh, gx, gy) ==> #[trigger] holes@[cell(ggw, gx, gy)] == averaged(
                    m.holes@,
                    m.w as int,
                    m.h as int,
                    ggw,
                    ggh,
                    gx,
                    gy,
                ),
            drawn_so_far(pix@, *m, gsz, lv, x0 as int, y0 as int, ggw, ggh, 0, y as int),
        decreases gh - y,
    {
        let mut x: usize = 0;
        while x < gw
            invariant
                x <= gw,
                y < gh,
                gsz == sz,
                ggw == gw,
                ggh == gh,
                gw <= sz,
                gh <= sz,
                m.wf(),
                (ggw, ggh) == fitted(gsz, m.w as int, m.h as int),
                x0 == (sz - gw) / 2,
                y0 == (sz - gh) / 2,
                c@ == colour(lv),
                n == pix@.len(),
                4 * (sz * sz) <= pix@.len(),
                cov@.len() == gw * gh,
                holes@.len() == gw * gh,
                forall|gx: int, gy: int|
                    in_grid(ggw, ggh, gx, gy) ==> #[trigger] cov@[cell(ggw, gx, gy)] == averaged(
                        m.cov@,
                        m.w as int,
                        m.h as int,
                        ggw,
                        ggh,
                        gx,
                        gy,
                    ),
                forall|gx: int, gy: int|
                    in_grid(ggw, ggh, gx, gy) ==> #[trigger] holes@[cell(ggw, gx, gy)] == averaged(
                        m.holes@,
                        m.w as int,
                        m.h as int,
                        ggw,
                        ggh,
                        gx,
                        gy,
                    ),
                drawn_so_far(pix@, *m, gsz, lv, x0 as int, y0 as int, ggw, ggh, x as int, y as int),
            decreases gw - x,
        {
            proof {
                lemma_cell_in_range(ggw, ggh, x as int, y as int);
            }
            assert(cov.len() == cov@.len());
            let i: usize = y * gw + x;
            assert(i == cell(ggw, x as int, y as int));
            let hole: u32 = holes[i] as u32 * HOLLOW_ALPHA / 255;
            let a: u8 = if (cov[i] as u32) < hole {
                hole as u8
            } else {
                cov[i]
            };
            let ghost before = pix@;
            let ghost px0 = x0 + x;
            let ghost py0 = y0 + y;
            assert(a == alpha(*m, gsz, px0, py0));
            if a > 0 {
                put(pix, sz, x0 + x, y0 + y, c, a);
            } else {
                assert forall|ch: int| 0 <= ch < 4 implies premultiplied(c@, 0, ch) == 0 by {
                    let v = c@[2 - ch] as int;
                    assert(v * 0 == 0) by (nonlinear_arith);
                }
            }
            proof {
                assert forall|px: int, py: int, ch: int|
                    in_grid(gsz, gsz, px, py) && 0 <= ch < 4 implies #[trigger] pix@[place(
                    gsz,
                    px,
                    py,
                    ch,
                )] == (if in_grid(ggw, ggh, px - x0, py - y0) && (py - y0 < y || (py - y0 == y && px
                    - x0 < x + 1)) {
                    premultiplied(colour(lv), alpha(*m, gsz, px, py), ch)
                } else {
                    0
                }) by {
                    assert(before[place(gsz, px, py, ch)] == (if in_grid(ggw, ggh, px - x0, py - y0)
                        && (py - y0 < y || (py - y0 == y && px - x0 < x)) {
                        premultiplied(colour(lv), alpha(*m, gsz, px, py), ch)
                    } else {
                        0
                    }));
                    lemma_place_unique(gsz, px, py, ch, px0, py0, 0);
                    lemma_place_unique(gsz, px, py, ch, px0, py0, 1);
                    lemma_place_unique(gsz, px, py, ch, px0, py0, 2);
                    lemma_place_unique(gsz, px, py, ch, px0, py0, 3);
                }
                lemma_place_unique(gsz, px0, py0, 3, px0, py0, 3);
            }
            x += 1;
        }
        y += 1;
    }
    proof {
        assert forall|px: int, py: int, ch: int|
            in_grid(gsz, gsz, px, py) && 0 <= ch < 4 implies #[trigger] pix@[place(gsz, px, py, ch)]
            == premultiplied(colour(lv), alpha(*m, gsz, px, py), ch) by {
            if !in_grid(ggw, ggh, px - x0, py - y0) {
                let v = colour(lv)[2 - ch] as int;
                assert(v * 0 == 0) by (nonlinear_arith);
            }
        }
    }
}

/// A premultiplied channel `c` with alpha `a`, made straight again (modulo 256 where it is not
/// premultiplied at all).
pub open spec fn straight(c: int, a: int) -> int {
    if a == 0 {
        0
    } else {
        c * 255 / a % 256
    }
}

/// Byte `i` of the straight RGBA image of the BGRA pixels `pix`; 0 where `pix` has no whole pixel.
pub open spec fn rgba_byte(pix: Seq<u8>, i: int) -> int {
    let k = i - i % 4;
    if k + 4 > pix.len() {
        0
    } else if i % 4 == 3 {
        pix[i] as int
    } else {
        straight(pix[k + 2 - i % 4] as int, pix[k + 3] as int)
    }
}

/// `out` is the straight RGBA image of the first `sz * sz` pixels of `pix`.
pub open spec fn is_export(out: Seq<u8>, sz: int, pix: Seq<u8>) -> bool {
    &&& out.len() == 4 * (sz * sz)
    &&& forall|i: int| 0 <= i < out.len() ==> #[trigger] out[i] == rgba_byte(pix, i)
}

/// Computes `straight`.
fn unpremultiply(c: u8, a: u8) -> (r: u8)
    ensures
        r == straight(c as int, a as int),
{
    if a == 0 {
        0
    } else {
        assert(0 <= c * 255 / a as int <= c * 255) by (nonlinear_arith)
            requires
                0 < a,
                0 <= c,
        ;
        (c as u32 * 255 / a as u32 % 256) as u8
    }
}

/// Converts premultiplied BGRA to straight-alpha RGBA rows.
pub fn to_rgba(sz: usize, pix: &[u8]) -> (out: Vec<u8>)
    requires
        4 * (sz * sz) <= isize::MAX || 4 * (sz * sz) <= pix@.len(),
    ensures
        is_export(out@, sz as int, pix@),
{
    let len: usize = pix.len();
    let n: usize = sz * sz;
    let mut out: Vec<u8> = Vec::with_capacity(4 * n);
    let mut k: usize = 0;
    while k < n
        invariant
            k <= n,
            n == sz * sz,
            4 * n <= usize::MAX,
            len == pix@.len(),
            out@.len() == 4 * k,
            forall|i: int| 0 <= i < out@.len() ==> #[trigger] out@[i] == rgba_byte(pix@, i),
        decreases n - k,
    {
        let i: usize = 4 * k;
        if len >= 4 && i <= len - 4 {
            let a: u8 = pix[i + 3];
            out.push(unpremultiply(pix[i + 2], a));
            out.push(unpremultiply(pix[i + 1], a));
            out.push(unpremultiply(pix[i], a));
            out.push(a);
        } else {
            out.push(0);
            out.push(0);
            out.push(0);
            out.push(0);
        }
        k += 1;
    }
    out
}

proof fn lemma_straight_recovers(c: int, a: int)
    requires
        0 <= c <= 255,
        0 < a <= 255,
    ensures
        ({
            let s = straight(c * a / 255, a);
            &&& 0 <= s <= c
            &&& c <= s + (253 + a) / a
            &&& a == 255 ==> s == c
        }),
{
    let p = c * a / 255;
    assert(0 <= p && p * 255 <= c * a && c * a < p * 255 + 255) by (nonlinear_arith)
        requires
            p == c * a / 255,
            0 <= c,
            0 < a,
    ;
    let s = p * 255 / a;
    assert(0 <= s && s * a <= p * 255 && p * 255 < s * a + a) by (nonlinear_arith)
        requires
            s == p * 255 / a,
            0 <= p,
            0 < a,
    ;
    assert(s <= c) by (nonlinear_arith)
        requires
            s * a <= c * a,
            0 < a,
    ;
    assert((c - s) * a < 254 + a) by (nonlinear_arith)
        requires
            c * a < p * 255 + 255,
            p * 255 < s * a + a,
    ;
    let d = c - s;
    let q = (253 + a) / a;
    assert(d <= q) by (nonlinear_arith)
        requires
            d * a < 254 + a,
            q == (253 + a) / a,
            0 < a,
    ;
    if a == 255 {
        assert(p == c);
    }
}

proof fn lemma_export_shows_level(
    pix: Seq<u8>,
    m: Mask,
    sz: int,
    lv: Level,
    px: int,
    py: int,
    ch: int,
)
    requires
        is_icon(pix, m, sz, lv),
        4 * (sz * sz) <= pix.len(),
        in_grid(sz, sz, px, py),
        0 <= ch < 3,
    ensures
        shows_level(
            rgba_byte(pix, place(sz, px, py, ch)),
            rgba_byte(pix, place(sz, px, py, 3)),
            alpha(m, sz, px, py),
            colour(lv)[ch] as int,
        ),
        0 <= place(sz, px, py, ch) < 4 * (sz * sz),
        0 <= place(sz, px, py, 3) < 4 * (sz * sz),
{
    let a = alpha(m, sz, px, py);
    let c = colour(lv)[ch] as int;
    lemma_place_unique(sz, px, py, 3, px, py, 3);
    lemma_place_unique(sz, px, py, ch, px, py, ch);
    lemma_place_unique(sz, px, py, 2 - ch, px, py, 0);
    lemma_cell_in_range(sz, sz, px, py);
    assert(pix[place(sz, px, py, 3)] == premultiplied(colour(lv), a, 3));
    assert(pix[place(sz, px, py, 2 - ch)] == premultiplied(colour(lv), a, 2 - ch));
    assert(premultiplied(colour(lv), a, 2 - ch) == c * a / 255);
    if a > 0 {
        lemma_straight_recovers(c, a);
    }
}

/// An exported channel `s` with alpha `t` stands for the colour `c` drawn with alpha `a`: the alpha
/// is kept, a clear pixel is black, an opaque one has the colour itself, and any other falls short
/// of it by no more than `254 / a`, rounded up.
pub open spec fn shows_level(s: int, t: int, a: int, c: int) -> bool {
    &&& t == a
    &&& a == 0 ==> s == 0
    &&& a == 255 ==> s == c
    &&& a > 0 ==> 0 <= s <= c <= s + (253 + a) / a
}

/// Exporting a drawn icon keeps every alpha value and gives back the level's colour, as
/// `shows_level` says of each pixel.
pub proof fn exported_icon_shows_level(
    out: Seq<u8>,
    pix: Seq<u8>,
    m: Mask,
    sz: int,
    lv: Level,
)
    requires
        is_icon(pix, m, sz, lv),
        4 * (sz * sz) <= pix.len(),
        is_export(out, sz, pix),
    ensures
        out.len() == 4 * (sz * sz),
        forall|px: int, py: int, ch: int|
            in_grid(sz, sz, px, py) && 0 <= ch < 3 ==> shows_level(
                #[trigger] out[place(sz, px, py, ch)] as int,
                out[place(sz, px, py, 3)] as int,
                alpha(m, sz, px, py),
                colour(lv)[ch] as int,
            ),
{
    assert forall|px: int, py: int, ch: int|
        in_grid(sz, sz, px, py) && 0 <= ch < 3 implies shows_level(
        #[trigger] out[place(sz, px, py, ch)] as int,
        out[place(sz, px, py, 3)] as int,
        alpha(m, sz, px, py),
        colour(lv)[ch] as int,
    ) by {
        lemma_export_shows_level(pix, m, sz, lv, px, py, ch);
    }
}

/// A drawn icon is premultiplied: no colour channel exceeds the pixel's alpha.
pub proof fn icon_is_premultiplied(
    pix: Seq<u8>,
    m: Mask,
    sz: int,
    lv: Level,
    px: int,
    py: int,
    ch: int,
)
    requires
        is_icon(pix, m, sz, lv),
        4 * (sz * sz) <= pix.len(),
        in_grid(sz, sz, px, py),
        0 <= ch < 3,
    ensures
        pix[place(sz, px, py, ch)] <= pix[place(sz, px, py, 3)],
{
    let a = alpha(m, sz, px, py);
    let c = colour(lv)[2 - ch] as int;
    assert(pix[place(sz, px, py, 3)] == premultiplied(colour(lv), a, 3));
    assert(pix[place(sz, px, py, ch)] == premultiplied(colour(lv), a, ch));
    assert(c * a / 255 <= a) by (nonlinear_arith)
        requires
            0 <= c <= 255,
            0 <= a,
    ;
}

} // verus!
