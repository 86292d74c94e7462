//! Averages stay within the range of what is averaged.
use vstd::arithmetic::power2::{
    lemma2_to64, lemma2_to64_rest, lemma_pow2_adds, lemma_pow2_pos, lemma_pow2_strictly_increases,
    pow2,
};
use vstd::prelude::*;

use crate::double::error::{lemma_half_up, lemma_product_near, lemma_quotient_near, lemma_sum_near};
use crate::double::exact::{amount, lemma_amount_ordered, lemma_sum_grows};
use crate::double::{
    floor, half_up, lemma_bounds, lemma_exponent_below, lemma_nearest_wf, lemma_too_little, lower,
    product, quotient, sum, units, whole, zero, Double, END, LOWEST, START,
};
use crate::grid::{cell, in_grid};
use crate::resample::edges::{
    lemma_edges, lemma_floor, lemma_product_exponent, lemma_quotient_exponent, lemma_weight,
    lemma_whole_amount, lemma_zero_product, tame, SIDE,
};
use crate::resample::{
    area_mean, averaged, covered, edge, mean_byte, no_mean, row_mean, weight, with_value, Mean,
};

verus! {

/// `p` is no more than `q`, but for `c` parts in 2 to the 53rd.
pub open spec fn about_no_more(p: int, q: int, c: int) -> bool {
    p * END <= q * (END + c)
}

/// Adding up in double precision adds four parts to the error at most.
proof fn lemma_step(p: int, q: int, p1: int, q1: int, p2: int, q2: int, c: int)
    requires
        about_no_more(p, q, c),
        about_no_more(p1, q1, 4),
        0 <= q,
        0 <= q1,
        4 <= c <= 0x1000_0000_0000,
        p2 * END <= (p + p1) * (END + 1),
        (q + q1) * (END - 1) <= q2 * END,
    ensures
        about_no_more(p2, q2, c + 4),
{
    let u = END as int;
    let (a, b) = (p + p1, q + q1);
    assert(a * u <= b * (u + c)) by (nonlinear_arith)
        requires
            p * u <= q * (u + c),
            p1 * u <= q1 * (u + 4),
            a == p + p1,
            b == q + q1,
            q1 >= 0,
            c >= 4,
    ;
    let d = u + c;
    assert((p2 * u) * u <= (b * d) * (u + 1)) by (nonlinear_arith)
        requires
            p2 * u <= a * (u + 1),
            a * u <= b * d,
            u > 0,
    ;
    assert((p2 * u) * u * (u - 1) <= ((b * (u - 1)) * d) * (u + 1)) by (nonlinear_arith)
        requires
            (p2 * u) * u <= (b * d) * (u + 1),
            u > 1,
    ;
    assert(((b * (u - 1)) * d) * (u + 1) <= ((q2 * u) * d) * (u + 1)) by (nonlinear_arith)
        requires
            b * (u - 1) <= q2 * u,
            d > 0,
            u > 0,
    ;
    assert((p2 * u) * (u - 1) <= q2 * (d * (u + 1))) by (nonlinear_arith)
        requires
            (p2 * u) * u * (u - 1) <= ((q2 * u) * d) * (u + 1),
            u > 0,
    ;
    assert(q2 >= 0) by (nonlinear_arith)
        requires
            b * (u - 1) <= q2 * u,
            b >= 0,
            u > 1,
    ;
    assert(d * (u + 1) <= (u + c + 4) * (u - 1)) by (nonlinear_arith)
        requires
            d == u + c,
            c <= 0x1000_0000_0000,
            u == 0x20_0000_0000_0000,
    ;
    assert(q2 * (d * (u + 1)) <= q2 * ((u + c + 4) * (u - 1))) by (nonlinear_arith)
        requires
            d * (u + 1) <= (u + c + 4) * (u - 1),
            q2 >= 0,
    ;
    assert(p2 * u <= q2 * (u + c + 4)) by (nonlinear_arith)
        requires
            (p2 * u) * (u - 1) <= q2 * ((u + c + 4) * (u - 1)),
            u > 1,
    ;
}

/// The largest a single weight can be.
pub open spec fn most() -> nat {
    pow2(4300)
}

/// An upper bound for `j` weights together.
pub open spec fn bounded(a: int, j: int) -> bool {
    a * END <= (j * most()) * (END + 2 * j)
}

proof fn lemma_bounded_step(a: int, t: int, b: int, j: int)
    requires
        bounded(a, j),
        0 <= t <= most(),
        0 <= j <= 0x200_0000_0000,
        b * END <= (a + t) * (END + 1),
    ensures
        bounded(b, j + 1),
{
    let u = END as int;
    let m = most() as int;
    let k = j + 1;
    assert((a + t) * u <= (k * m) * (u + 2 * j)) by (nonlinear_arith)
        requires
            a * u <= (j * m) * (u + 2 * j),
            0 <= t <= m,
            k == j + 1,
            j >= 0,
            u > 0,
    ;
    let x = k * m;
    assert(x >= 0) by (nonlinear_arith)
        requires
            x == k * m,
            k >= 0,
            m >= 0,
    ;
    assert((b * u) * u <= (x * (u + 2 * j)) * (u + 1)) by (nonlinear_arith)
        requires
            b * u <= (a + t) * (u + 1),
            (a + t) * u <= x * (u + 2 * j),
            u > 0,
    ;
    assert((u + 2 * j) * (u + 1) <= (u + 2 * k) * u) by (nonlinear_arith)
        requires
            k == j + 1,
            0 <= j <= 0x200_0000_0000,
            u == 0x20_0000_0000_0000,
    ;
    assert((x * (u + 2 * j)) * (u + 1) <= (x * (u + 2 * k)) * u) by (nonlinear_arith)
        requires
            (u + 2 * j) * (u + 1) <= (u + 2 * k) * u,
            x >= 0,
    ;
    assert(b * u <= x * (u + 2 * k)) by (nonlinear_arith)
        requires
            (b * u) * u <= (x * (u + 2 * k)) * u,
            u > 0,
    ;
}

/// The exponent of what is bounded.
proof fn lemma_bounded_exponent(x: Double, j: int)
    requires
        x.wf(),
        x.m >= START,
        bounded(amount(x) as int, j),
        0 <= j <= 0x400_0000_0000,
    ensures
        x.e <= 300,
{
    if x.e > 300 {
        let u = END as int;
        let m = most() as int;
        let a = amount(x) as int;
        lemma_bounds();
        lemma2_to64_rest();
        lemma_pow2_pos(4300);
        assert(a * u <= (0x400_0000_0000 * m) * (2 * u)) by (nonlinear_arith)
            requires
                a * u <= (j * m) * (u + 2 * j),
                0 <= j <= 0x400_0000_0000,
                m > 0,
                u == 0x20_0000_0000_0000,
        ;
        lemma_pow2_adds(4300, 1);
        if x.e + 4000 > 4301 {
            lemma_pow2_strictly_increases(4301, (x.e + 4000) as nat);
        }
        let p = pow2((x.e + 4000) as nat) as int;
        assert(a >= START * (2 * m)) by (nonlinear_arith)
            requires
                a == x.m * p,
                x.m >= START,
                p >= 2 * m,
                m > 0,
        ;
        assert(false) by (nonlinear_arith)
            requires
                a >= START * (2 * m),
                a * u <= (0x400_0000_0000 * m) * (2 * u),
                m > 0,
                u > 0,
                START == 0x10_0000_0000_0000,
        ;
    }
}

/// Adding two moderate numbers.
proof fn lemma_sum_step(a: Double, b: Double)
    requires
        tame(a, -1000, 300),
        tame(b, -1000, 300),
    ensures
        sum(a, b).wf(),
        sum(a, b) == zero() || (sum(a, b).m >= START && -1000 <= sum(a, b).e <= 310),
        a != zero() || b != zero() ==> sum(a, b) != zero(),
        amount(sum(a, b)) * END <= (amount(a) + amount(b)) * (END + 1),
        (amount(a) + amount(b)) * (END - 1) <= amount(sum(a, b)) * END,
{
    lemma_sum_grows(a, b);
    lemma_zero_product(a);
    if a == zero() && b == zero() {
        let p = pow2(0);
        assert(0 * p == 0) by (nonlinear_arith);
        lemma_too_little(0, 1, LOWEST as int);
    } else {
        let e = lower(a.e as int, b.e as int);
        let n = units(a, e) + units(b, e);
        lemma_units_below(a, e);
        lemma_units_below(b, e);
        let k = (300 - e) as nat;
        lemma_pow2_adds(k, 1);
        lemma_bounds();
        assert(n * 1 == n) by (nonlinear_arith);
        let p = pow2(k) as int;
        assert(END * (1 * (p * 2)) == 2 * (END * p)) by (nonlinear_arith);
        lemma_exponent_below(n, 1, e, 0, k + 1);
        lemma_sum_near(a, b);
    }
}

proof fn lemma_units_below(a: Double, e: int)
    requires
        tame(a, -1000, 300),
        LOWEST <= e <= a.e,
        e <= 300,
    ensures
        units(a, e) < END * pow2((300 - e) as nat),
{
    let k = (300 - e) as nat;
    let i = (a.e - e) as nat;
    lemma_pow2_pos(k);
    lemma_pow2_pos(i);
    if i < k {
        lemma_pow2_strictly_increases(i, k);
    }
    let (m, p, q) = (a.m as int, pow2(i) as int, pow2(k) as int);
    assert(m * p < END * q) by (nonlinear_arith)
        requires
            0 <= m < END,
            0 < p <= q,
    ;
}

/// One weighted value, and its weight.
proof fn lemma_value(v: u8, wx: Double, wy: Double)
    requires
        tame(wx, -500, 60),
        tame(wy, -500, 60),
    ensures
        ({
            let t = product(product(whole(v as nat), wx), wy);
            let a = product(wx, wy);
            &&& tame(t, -1000, 300)
            &&& tame(a, -1000, 300)
            &&& wx != zero() && wy != zero() ==> a != zero()
            &&& about_no_more(amount(t) as int, (v * amount(a)) as int, 4)
            &&& about_no_more((v * amount(a)) as int, amount(t) as int, 4)
            &&& amount(t) <= most()
            &&& amount(a) <= most()
        }),
{
    let c = whole(v as nat);
    let pv = product(c, wx);
    let t = product(pv, wy);
    let a = product(wx, wy);
    lemma_whole_amount(v as nat);
    lemma_zero_product(wx);
    lemma_zero_product(wy);
    lemma_zero_product(c);
    lemma_nearest_wf(c.m as nat * wx.m as nat, 1, c.e + wx.e);
    lemma_zero_product(pv);
    lemma_pow2_pos(4300);
    assert(v * 0 == 0) by (nonlinear_arith);
    if wx != zero() && wy != zero() {
        lemma_product_exponent(wx, wy);
        lemma_amount_below(a);
        if v > 0 {
            lemma_product_exponent(c, wx);
            lemma_product_exponent(pv, wy);
            lemma_amount_below(t);
            lemma_product_near(c, wx);
            lemma_product_near(pv, wy);
            lemma_product_near(wx, wy);
            lemma_pow2_pos(4000);
            lemma_value_near(
                v as int,
                pow2(4000) as int,
                amount(wx) as int,
                amount(wy) as int,
                amount(pv) as int,
                amount(t) as int,
                amount(a) as int,
            );
        } else {
            assert(0 * amount(a) == 0) by (nonlinear_arith);
        }
    }
}

/// What is moderate does not amount to much.
proof fn lemma_amount_below(x: Double)
    requires
        x.wf(),
        x.e <= 240,
        x.m >= START,
    ensures
        amount(x) <= most(),
{
    lemma_bounds();
    let i = (x.e + 4000) as nat;
    lemma_pow2_pos(i);
    lemma_pow2_adds(i, 53);
    lemma_pow2_strictly_increases(i + 53, 4300);
    let (m, p) = (x.m as int, pow2(i) as int);
    assert(m * p <= END * p) by (nonlinear_arith)
        requires
            m <= END,
            p > 0,
    ;
    assert(p * END == END * p) by (nonlinear_arith);
}

/// Three roundings are four parts at most.
proof fn lemma_value_near(v: int, g: int, x: int, y: int, s: int, t: int, a: int)
    requires
        0 < v,
        0 < g,
        0 <= x,
        0 <= y,
        0 <= s,
        0 <= t,
        0 <= a,
        (s * g - (v * g) * x) * END <= (v * g) * x,
        ((v * g) * x - s * g) * END <= (v * g) * x,
        (t * g - s * y) * END <= s * y,
        (s * y - t * g) * END <= s * y,
        (a * g - x * y) * END <= x * y,
        (x * y - a * g) * END <= x * y,
    ensures
        about_no_more(t, v * a, 4),
        about_no_more(v * a, t, 4),
{
    let u = END as int;
    let w = v * x;
    assert((v * g) * x == w * g) by (nonlinear_arith)
        requires
            w == v * x,
    ;
    assert(s * u <= w * (u + 1) && w * (u - 1) <= s * u) by (nonlinear_arith)
        requires
            (s * g - w * g) * u <= w * g,
            (w * g - s * g) * u <= w * g,
            g > 0,
    ;
    let z = x * y;
    // t * g lies about s * y, which lies about v * z; a * g lies about z.
    assert((t * g) * u <= (s * y) * (u + 1) && (s * y) * (u - 1) <= (t * g) * u)
        by (nonlinear_arith)
        requires
            (t * g - s * y) * u <= s * y,
            (s * y - t * g) * u <= s * y,
    ;
    assert((a * g) * u <= z * (u + 1) && z * (u - 1) <= (a * g) * u) by (nonlinear_arith)
        requires
            (a * g - z) * u <= z,
            (z - a * g) * u <= z,
    ;
    assert((s * y) * u <= (v * z) * (u + 1) && (v * z) * (u - 1) <= (s * y) * u)
        by (nonlinear_arith)
        requires
            s * u <= w * (u + 1),
            w * (u - 1) <= s * u,
            w == v * x,
            z == x * y,
            y >= 0,
    ;
    let (tg, ag, sy, vz) = (t * g, a * g, s * y, v * z);
    let vag = v * ag;
    assert(vag * u <= vz * (u + 1) && vz * (u - 1) <= vag * u) by (nonlinear_arith)
        requires
            ag * u <= z * (u + 1),
            z * (u - 1) <= ag * u,
            vag == v * ag,
            vz == v * z,
            v > 0,
    ;
    assert(vz >= 0 && sy >= 0 && tg >= 0 && vag >= 0) by (nonlinear_arith)
        requires
            vz == v * z,
            z == x * y,
            sy == s * y,
            tg == t * g,
            vag == v * ag,
            ag == a * g,
            v > 0,
            g > 0,
            x >= 0,
            y >= 0,
            s >= 0,
            t >= 0,
            a >= 0,
    ;
    lemma_chain(tg, sy, vz, vag);
    lemma_chain_back(tg, sy, vz, vag);
    assert(vag == (v * a) * g) by (nonlinear_arith)
        requires
            vag == v * ag,
            ag == a * g,
    ;
    let va = v * a;
    assert(t * u <= va * (u + 4) && va * u <= t * (u + 4)) by (nonlinear_arith)
        requires
            tg * u <= vag * (u + 4),
            vag * u <= tg * (u + 4),
            tg == t * g,
            vag == va * g,
            g > 0,
    ;
}

proof fn lemma_chain(t: int, s: int, z: int, a: int)
    requires
        0 <= z,
        0 <= a,
        0 <= s,
        t * END <= s * (END + 1),
        s * END <= z * (END + 1),
        z * (END - 1) <= a * END,
    ensures
        t * END <= a * (END + 4),
{
    let u = END as int;
    assert((t * u) * u <= z * ((u + 1) * (u + 1))) by (nonlinear_arith)
        requires
            t * u <= s * (u + 1),
            s * u <= z * (u + 1),
            u > 0,
    ;
    let k = (u + 1) * (u + 1);
    assert(k > 0) by (nonlinear_arith)
        requires
            k == (u + 1) * (u + 1),
            u > 0,
    ;
    assert(((t * u) * u) * (u - 1) <= (a * u) * k) by (nonlinear_arith)
        requires
            (t * u) * u <= z * k,
            z * (u - 1) <= a * u,
            u > 1,
            k > 0,
    ;
    assert((t * u) * (u - 1) <= a * k) by (nonlinear_arith)
        requires
            ((t * u) * u) * (u - 1) <= (a * u) * k,
            u > 0,
    ;
    assert(k <= (u + 4) * (u - 1)) by (nonlinear_arith)
        requires
            k == (u + 1) * (u + 1),
            u == 0x20_0000_0000_0000,
    ;
    assert(a * k <= (a * (u + 4)) * (u - 1)) by (nonlinear_arith)
        requires
            k <= (u + 4) * (u - 1),
            a >= 0,
    ;
    assert(t * u <= a * (u + 4)) by (nonlinear_arith)
        requires
            (t * u) * (u - 1) <= (a * (u + 4)) * (u - 1),
            u > 1,
    ;
}

proof fn lemma_chain_back(t: int, s: int, z: int, a: int)
    requires
        0 <= z,
        0 <= t,
        0 <= s,
        s * (END - 1) <= t * END,
        z * (END - 1) <= s * END,
        a * END <= z * (END + 1),
    ensures
        a * END <= t * (END + 4),
{
    let u = END as int;
    let d = (u - 1) * (u - 1);
    assert(z * d <= t * (u * u)) by (nonlinear_arith)
        requires
            s * (u - 1) <= t * u,
            z * (u - 1) <= s * u,
            d == (u - 1) * (u - 1),
            u > 1,
    ;
    assert((a * u) * d <= (t * (u * u)) * (u + 1)) by (nonlinear_arith)
        requires
            a * u <= z * (u + 1),
            z * d <= t * (u * u),
            d >= 0,
            u > 0,
    ;
    assert((u * u) * (u + 1) <= (u + 4) * d) by (nonlinear_arith)
        requires
            d == (u - 1) * (u - 1),
            u == 0x20_0000_0000_0000,
    ;
    assert((t * (u * u)) * (u + 1) <= (t * (u + 4)) * d) by (nonlinear_arith)
        requires
            (u * u) * (u + 1) <= (u + 4) * d,
            t >= 0,
    ;
    assert(a * u <= t * (u + 4)) by (nonlinear_arith)
        requires
            (a * u) * d <= (t * (u + 4)) * d,
            d > 0,
    ;
}

/// A mean of `j` values between `lo` and `hi`, as far as adding up in double precision shows it.
pub open spec fn sound(m: Mean, j: int, lo: int, hi: int) -> bool {
    let (s, a) = (amount(m.sum) as int, amount(m.area) as int);
    &&& tame(m.sum, -1000, 300)
    &&& tame(m.area, -1000, 300)
    &&& about_no_more(s, hi * a, 4 * (j + 1))
    &&& about_no_more(lo * a, s, 4 * (j + 1))
    &&& bounded(s, j)
    &&& bounded(a, j)
}

/// One more value keeps a mean sound.
proof fn lemma_sound_step(m: Mean, j: int, lo: int, hi: int, v: u8, wx: Double, wy: Double)
    requires
        sound(m, j, lo, hi),
        0 <= j <= 0x100_0000_0000,
        0 <= lo <= v <= hi,
        tame(wx, -500, 60),
        tame(wy, -500, 60),
    ensures
        sound(with_value(m, v, wx, wy), j + 1, lo, hi),
        m.area != zero() ==> with_value(m, v, wx, wy).area != zero(),
        wx != zero() && wy != zero() ==> with_value(m, v, wx, wy).area != zero(),
{
    let t = product(product(whole(v as nat), wx), wy);
    let b = product(wx, wy);
    let n = with_value(m, v, wx, wy);
    lemma_value(v, wx, wy);
    lemma_sum_step(m.sum, t);
    lemma_sum_step(m.area, b);
    let (s, a, ta, ba, s2, a2) = (
        amount(m.sum) as int,
        amount(m.area) as int,
        amount(t) as int,
        amount(b) as int,
        amount(n.sum) as int,
        amount(n.area) as int,
    );
    let c = 4 * (j + 1);
    let u = END as int;
    let x = v as int;
    // From above.
    assert(0 <= hi * a && 0 <= hi * ba && ta * u <= (hi * ba) * (u + 4)) by (nonlinear_arith)
        requires
            ta * u <= (x * ba) * (u + 4),
            0 <= x <= hi,
            0 <= a,
            0 <= ba,
            u > 0,
    ;
    assert((hi * a + hi * ba) * (u - 1) <= (hi * a2) * u) by (nonlinear_arith)
        requires
            (a + ba) * (u - 1) <= a2 * u,
            hi >= 0,
    ;
    lemma_step(s, hi * a, ta, hi * ba, s2, hi * a2, c);
    // From below.
    assert((lo * ba) * u <= ta * (u + 4)) by (nonlinear_arith)
        requires
            (x * ba) * u <= ta * (u + 4),
            0 <= lo <= x,
            0 <= ba,
            u > 0,
    ;
    assert((lo * a2) * u <= (lo * a + lo * ba) * (u + 1)) by (nonlinear_arith)
        requires
            a2 * u <= (a + ba) * (u + 1),
            lo >= 0,
    ;
    lemma_step(lo * a, s, lo * ba, ta, lo * a2, s2, c);
    lemma_bounded_step(s, ta, s2, j);
    lemma_bounded_step(a, ba, a2, j);
    if n.sum != zero() {
        lemma_bounded_exponent(n.sum, j + 1);
    }
    if n.area != zero() {
        lemma_bounded_exponent(n.area, j + 1);
    }
}

/// A bound for fewer values is one for more.
proof fn lemma_sound_longer(m: Mean, i: int, j: int, lo: int, hi: int)
    requires
        sound(m, i, lo, hi),
        0 <= i <= j,
        0 <= lo,
        0 <= hi,
    ensures
        sound(m, j, lo, hi),
{
    let (s, a) = (amount(m.sum) as int, amount(m.area) as int);
    let u = END as int;
    let (c, d) = (4 * (i + 1), 4 * (j + 1));
    let h = hi * a;
    assert(h >= 0) by (nonlinear_arith)
        requires
            h == hi * a,
            hi >= 0,
            a >= 0,
    ;
    assert(h * (u + c) <= h * (u + d)) by (nonlinear_arith)
        requires
            c <= d,
            h >= 0,
    ;
    assert(s * (u + c) <= s * (u + d)) by (nonlinear_arith)
        requires
            c <= d,
            s >= 0,
    ;
    let m0 = most() as int;
    assert((i * m0) * (u + 2 * i) <= (j * m0) * (u + 2 * j)) by (nonlinear_arith)
        requires
            0 <= i <= j,
            m0 >= 0,
            u > 0,
    ;
}

/// Adding a row keeps a mean sound.
proof fn lemma_row_sound(
    src: Seq<u8>,
    sw: int,
    sh: int,
    left: Double,
    right: Double,
    wy: Double,
    sy: int,
    sx: int,
    m: Mean,
    j: int,
    lo: int,
    hi: int,
)
    requires
        0 < sw <= SIDE,
        0 <= sy < sh,
        floor(left) <= sx <= sw,
        tame(left, -200, 60),
        tame(right, -200, 60),
        right != zero(),
        left.less(right),
        tame(wy, -500, 60),
        0 <= lo <= hi,
        forall|x: int, y: int| in_grid(sw, sh, x, y) ==> lo <= #[trigger] src[cell(sw, x, y)] <= hi,
        sound(m, j, lo, hi),
        0 <= j,
        j + (sw - sx) <= 0x100_0000_0000,
    ensures
        ({
            let r = row_mean(src, sw, left, right, wy, sy, sx, m);
            &&& sound(r, j + (sw - sx), lo, hi)
            &&& m.area != zero() ==> r.area != zero()
            &&& sx == floor(left) && sx < sw && whole(sx as nat).less(right) && wy != zero()
                ==> r.area != zero()
        }),
    decreases sw - sx,
{
    if sx < sw && whole(sx as nat).less(right) {
        let wx = weight(left, right, sx);
        assert(in_grid(sw, sh, sx, sy));
        let v = src[cell(sw, sx, sy)];
        lemma_weight(left, right, sx);
        lemma_sound_step(m, j, lo, hi, v, wx, wy);
        let next = with_value(m, v, wx, wy);
        lemma_row_sound(src, sw, sh, left, right, wy, sy, sx + 1, next, j + 1, lo, hi);
    } else {
        lemma_sound_longer(m, j, j + (sw - sx), lo, hi);
    }
}

/// Adding all rows keeps a mean sound.
proof fn lemma_area_sound(
    src: Seq<u8>,
    sw: int,
    sh: int,
    left: Double,
    right: Double,
    top: Double,
    bottom: Double,
    sy: int,
    m: Mean,
    j: int,
    lo: int,
    hi: int,
)
    requires
        0 < sw <= SIDE,
        0 < sh <= SIDE,
        floor(left) < sw,
        floor(top) <= sy <= sh,
        tame(left, -200, 60),
        tame(right, -200, 60),
        right != zero(),
        left.less(right),
        whole(floor(left)).less(right),
        tame(top, -200, 60),
        tame(bottom, -200, 60),
        bottom != zero(),
        top.less(bottom),
        0 <= lo <= hi,
        forall|x: int, y: int| in_grid(sw, sh, x, y) ==> lo <= #[trigger] src[cell(sw, x, y)] <= hi,
        sound(m, j, lo, hi),
        0 <= j,
        j + (sh - sy) * sw <= 0x100_0000_0000,
    ensures
        ({
            let r = area_mean(src, sw, sh, left, right, top, bottom, sy, m);
            &&& sound(r, j + (sh - sy) * sw, lo, hi)
            &&& m.area != zero() ==> r.area != zero()
            &&& sy == floor(top) && sy < sh && whole(sy as nat).less(bottom) ==> r.area != zero()
        }),
    decreases sh - sy,
{
    assert((sh - sy) * sw >= 0) by (nonlinear_arith)
        requires
            sh - sy >= 0,
            sw > 0,
    ;
    if sy < sh && whole(sy as nat).less(bottom) {
        let wy = weight(top, bottom, sy);
        lemma_weight(top, bottom, sy);
        let from = floor(left) as int;
        assert((sh - sy) * sw == (sh - sy - 1) * sw + sw) by (nonlinear_arith);
        assert((sh - sy - 1) * sw >= 0) by (nonlinear_arith)
            requires
                sh - sy - 1 >= 0,
                sw > 0,
        ;
        lemma_row_sound(src, sw, sh, left, right, wy, sy, from, m, j, lo, hi);
        let next = row_mean(src, sw, left, right, wy, sy, from, m);
        lemma_sound_longer(next, j + (sw - from), j + sw, lo, hi);
        lemma_area_sound(
            src,
            sw,
            sh,
            left,
            right,
            top,
            bottom,
            sy + 1,
            next,
            j + sw,
            lo,
            hi,
        );
    } else {
        lemma_sound_longer(m, j, j + (sh - sy) * sw, lo, hi);
    }
}

/// A number and its exponent.
proof fn lemma_amount_exponent(x: Double)
    requires
        x.wf(),
        x.m >= START,
    ensures
        START * pow2((x.e + 4000) as nat) <= amount(x) < END * pow2((x.e + 4000) as nat),
        amount(x) > 0,
{
    let p = pow2((x.e + 4000) as nat) as int;
    lemma_pow2_pos((x.e + 4000) as nat);
    let m = x.m as int;
    assert(0 < START * p <= m * p < END * p) by (nonlinear_arith)
        requires
            START <= m < END,
            p > 0,
            START > 0,
    ;
}

/// How the exponents of two numbers follow from their ratio.
proof fn lemma_ratio(x: Double, y: Double)
    requires
        x.wf(),
        y.wf(),
        x.m >= START,
        y.m >= START,
        amount(x) <= 510 * amount(y),
    ensures
        x.e <= y.e + 10,
{
    if x.e > y.e + 10 {
        lemma_amount_exponent(x);
        lemma_amount_exponent(y);
        lemma_bounds();
        lemma2_to64();
        let j = (y.e + 4000) as nat;
        lemma_pow2_adds(j, 11);
        lemma_pow2_pos(j);
        if x.e > y.e + 11 {
            lemma_pow2_strictly_increases(j + 11, (x.e + 4000) as nat);
        }
        let (p, q) = (pow2((x.e + 4000) as nat) as int, pow2(j) as int);
        assert(p >= q * 2048);
        assert(START * p >= 2048 * (START * q)) by (nonlinear_arith)
            requires
                p >= q * 2048,
        ;
        assert(END * q == 2 * (START * q)) by (nonlinear_arith)
            requires
                END == 2 * START,
        ;
        assert(START * q > 0) by (nonlinear_arith)
            requires
                q > 0,
                START > 0,
        ;
    }
}

proof fn lemma_ratio_above(q: int, s: int, a: int, g: int, hi: int, c: int)
    requires
        a > 0,
        g > 0,
        0 <= hi <= 255,
        4 <= c <= 0x800_0000_0000,
        (q * a) * END <= (s * g) * (END + 1),
        s * END <= (hi * a) * (END + c),
    ensures
        2 * q < (2 * hi + 1) * g,
{
    let u = END as int;
    let d = (u + c) * (u + 1);
    assert((s * u) * (g * (u + 1)) <= ((hi * a) * (u + c)) * (g * (u + 1))) by (nonlinear_arith)
        requires
            s * u <= (hi * a) * (u + c),
            g > 0,
            u > 0,
    ;
    assert(((q * a) * u) * u <= (s * u) * (g * (u + 1))) by (nonlinear_arith)
        requires
            (q * a) * u <= (s * g) * (u + 1),
            u > 0,
    ;
    assert(((hi * a) * (u + c)) * (g * (u + 1)) == ((hi * g) * d) * a) by (nonlinear_arith)
        requires
            d == (u + c) * (u + 1),
    ;
    let uu = u * u;
    assert(((q * a) * u) * u == (q * uu) * a) by (nonlinear_arith)
        requires
            uu == u * u,
    ;
    assert(q * uu <= (hi * g) * d) by (nonlinear_arith)
        requires
            (q * uu) * a <= ((hi * g) * d) * a,
            a > 0,
    ;
    assert(2 * (hi * d) < (2 * hi + 1) * uu) by (nonlinear_arith)
        requires
            d == (u + c) * (u + 1),
            uu == u * u,
            0 <= hi <= 255,
            4 <= c <= 0x800_0000_0000,
            u == 0x20_0000_0000_0000,
    ;
    assert(2 * ((hi * g) * d) < ((2 * hi + 1) * g) * uu) by (nonlinear_arith)
        requires
            2 * (hi * d) < (2 * hi + 1) * uu,
            g > 0,
    ;
    assert(2 * q < (2 * hi + 1) * g) by (nonlinear_arith)
        requires
            2 * (q * uu) < ((2 * hi + 1) * g) * uu,
            uu > 0,
    ;
}

proof fn lemma_ratio_below(q: int, s: int, a: int, g: int, lo: int, c: int)
    requires
        a > 0,
        g > 0,
        1 <= lo <= 255,
        4 <= c <= 0x800_0000_0000,
        0 <= q,
        (s * g) * (END - 1) <= (q * a) * END,
        (lo * a) * END <= s * (END + c),
    ensures
        2 * q >= (2 * lo - 1) * g,
{
    let u = END as int;
    let k = u + c;
    assert(((lo * a) * u) * (g * (u - 1)) <= (s * k) * (g * (u - 1))) by (nonlinear_arith)
        requires
            (lo * a) * u <= s * k,
            g > 0,
            u > 1,
    ;
    assert((s * k) * (g * (u - 1)) <= ((q * a) * u) * k) by (nonlinear_arith)
        requires
            (s * g) * (u - 1) <= (q * a) * u,
            k > 0,
    ;
    let au = a * u;
    assert(((lo * a) * u) * (g * (u - 1)) == ((lo * g) * (u - 1)) * au && ((q * a) * u) * k == (q
        * k) * au) by (nonlinear_arith)
        requires
            au == a * u,
    ;
    assert(au > 0) by (nonlinear_arith)
        requires
            au == a * u,
            a > 0,
            u > 0,
    ;
    assert((lo * g) * (u - 1) <= q * k) by (nonlinear_arith)
        requires
            ((lo * g) * (u - 1)) * au <= (q * k) * au,
            au > 0,
    ;
    if 2 * q < (2 * lo - 1) * g {
        assert(2 * (q * k) < ((2 * lo - 1) * g) * k) by (nonlinear_arith)
            requires
                2 * q < (2 * lo - 1) * g,
                k > 0,
        ;
        assert((2 * lo - 1) * k <= 2 * (lo * (u - 1))) by (nonlinear_arith)
            requires
                k == u + c,
                1 <= lo <= 255,
                4 <= c <= 0x800_0000_0000,
                u == 0x20_0000_0000_0000,
        ;
        assert(((2 * lo - 1) * g) * k <= 2 * ((lo * g) * (u - 1))) by (nonlinear_arith)
            requires
                (2 * lo - 1) * k <= 2 * (lo * (u - 1)),
                g > 0,
        ;
    }
}

/// What is far below 1 rounds to 0.
proof fn lemma_rounds_to_nothing(x: Double)
    requires
        x.wf(),
        x.e <= -60,
    ensures
        half_up(x) == 0,
{
    let i = (x.e + 4000) as nat;
    lemma_bounds();
    lemma_pow2_pos(i);
    lemma_pow2_adds(i, 54);
    lemma_pow2_strictly_increases(i + 54, 4000);
    let (m, p) = (x.m as int, pow2(i) as int);
    assert(2 * (m * p) < p * (2 * END)) by (nonlinear_arith)
        requires
            m < END,
            p > 0,
    ;
    assert(pow2(i) * pow2(54) == p * (2 * END));
    assert(2 * amount(x) < pow2(4000));
    lemma_half_up(x, 0);
    assert((2 * 0 + 1) * pow2(4000) == pow2(4000)) by (nonlinear_arith);
}

/// A sound mean is a byte within its range.
proof fn lemma_byte_within(m: Mean, j: int, lo: int, hi: int)
    requires
        sound(m, j, lo, hi),
        m.area != zero(),
        0 <= j <= 0x100_0000_0000,
        0 <= lo <= hi <= 255,
    ensures
        lo <= mean_byte(m) <= hi,
{
    let (s, a) = (amount(m.sum) as int, amount(m.area) as int);
    let u = END as int;
    let c = 4 * (j + 1);
    let q = quotient(m.sum, m.area);
    let g = pow2(4000) as int;
    lemma_pow2_pos(4000);
    lemma_amount_exponent(m.area);
    assert(zero().less(m.area));
    if m.sum == zero() {
        lemma_too_little(0, m.area.m as nat, LOWEST - m.area.e);
        lemma_rounds_to_nothing(q);
        lemma_zero_product(m.area);
        assert(lo == 0) by (nonlinear_arith)
            requires
                (lo * a) * u <= 0 * (u + c),
                a > 0,
                u > 0,
                lo >= 0,
        ;
    } else {
        lemma_amount_exponent(m.sum);
        assert(s <= 510 * a) by (nonlinear_arith)
            requires
                s * u <= (hi * a) * (u + c),
                0 <= hi <= 255,
                c <= 0x800_0000_0000,
                a > 0,
                u == 0x20_0000_0000_0000,
        ;
        lemma_ratio(m.sum, m.area);
        if lo > 0 {
            assert(a <= 510 * s) by (nonlinear_arith)
                requires
                    (lo * a) * u <= s * (u + c),
                    lo >= 1,
                    c <= 0x800_0000_0000,
                    a > 0,
                    s > 0,
                    u == 0x20_0000_0000_0000,
            ;
            lemma_ratio(m.area, m.sum);
        }
        let e = m.sum.e - m.area.e;
        if e <= -200 {
            lemma_bounds();
            let (n, d) = (m.sum.m as nat, m.area.m as nat);
            assert(n * 1 == n && d * 1 == d) by (nonlinear_arith);
            lemma_exponent_below(n, d, e, 0, 0);
            lemma_nearest_wf(n, d, e);
            lemma_rounds_to_nothing(q);
        } else {
            lemma_quotient_exponent(m.sum, m.area);
            lemma_quotient_near(m.sum, m.area);
            let v = amount(q) as int;
            assert((v * a) * u <= (s * g) * (u + 1) && (s * g) * (u - 1) <= (v * a) * u)
                by (nonlinear_arith)
                requires
                    (v * a - s * g) * u <= s * g,
                    (s * g - v * a) * u <= s * g,
            ;
            lemma_ratio_above(v, s, a, g, hi, c);
            lemma_half_up(q, hi);
            if lo > 0 {
                lemma_ratio_below(v, s, a, g, lo, c);
                lemma_half_up(q, lo);
            }
        }
    }
}

/// A destination column reaches beyond the start of the source column in which it begins.
proof fn lemma_first_column(l: Double, r: Double)
    requires
        l.wf(),
        r.wf(),
        l.less(r),
        floor(l) < SIDE,
    ensures
        whole(floor(l)).less(r),
{
    let f = whole(floor(l));
    lemma_whole_amount(floor(l));
    lemma_floor(l);
    lemma_amount_ordered(l, r);
    if !f.less(r) {
        lemma_amount_ordered(r, f);
    }
}

/// Averaging never leaves the range of the source; in particular it preserves flat regions. (No
/// side is longer than `SIDE`.)
pub proof fn average_within_range(
    src: Seq<u8>,
    sw: int,
    sh: int,
    dw: int,
    dh: int,
    x: int,
    y: int,
    lo: int,
    hi: int,
)
    requires
        0 < sw <= SIDE,
        0 < sh <= SIDE,
        dw <= SIDE,
        dh <= SIDE,
        in_grid(dw, dh, x, y),
        forall|sx: int, sy: int|
            in_grid(sw, sh, sx, sy) ==> lo <= #[trigger] src[cell(sw, sx, sy)] <= hi,
    ensures
        lo <= averaged(src, sw, sh, dw, dh, x, y) <= hi,
{
    assert(in_grid(sw, sh, 0, 0));
    let v = src[cell(sw, 0, 0)];
    // Bytes lie between 0 and 255 in any case.
    let low = if lo < 0 {
        0
    } else {
        lo
    };
    let high = if hi > 255 {
        255
    } else {
        hi
    };
    assert forall|a: int, b: int| in_grid(sw, sh, a, b) implies low <= #[trigger] src[cell(sw, a, b)]
        <= high by {
        assert(lo <= src[cell(sw, a, b)] <= hi);
    }
    let (left, right) = (edge(sw, dw, x), edge(sw, dw, x + 1));
    let (top, bottom) = (edge(sh, dh, y), edge(sh, dh, y + 1));
    lemma_edges(sw, dw, x);
    lemma_edges(sh, dh, y);
    lemma_first_column(left, right);
    lemma_first_column(top, bottom);
    let from = floor(top) as int;
    let start = no_mean();
    lemma_zero_product(zero());
    assert(sound(start, 0, low, high)) by {
        assert(high * 0 == 0 && low * 0 == 0) by (nonlinear_arith);
        let m0 = most() as int;
        assert((0 * m0) * (END + 2 * 0) == 0) by (nonlinear_arith);
    }
    assert(0 <= (sh - from) * sw <= 0x100_0000_0000) by (nonlinear_arith)
        requires
            0 <= from < sh <= 0x10_0000,
            0 < sw <= 0x10_0000,
    ;
    lemma_area_sound(
        src,
        sw,
        sh,
        left,
        right,
        top,
        bottom,
        from,
        start,
        0,
        low,
        high,
    );
    lemma_byte_within(covered(src, sw, sh, dw, dh, x, y), (sh - from) * sw, low, high);
}

} // verus!
