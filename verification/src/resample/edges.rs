//! Where destination columns begin and end, and how much of each source column they cover.
use vstd::arithmetic::div_mod::lemma_fundamental_div_mod;
use vstd::arithmetic::power2::{lemma2_to64_rest, lemma_pow2_adds, lemma_pow2_pos, pow2};
use vstd::prelude::*;

use crate::double::error::{lemma_product_near, lemma_quotient_near};
use crate::double::exact::{
    amount, lemma_amount_ordered, lemma_units_at, lemma_units_of_whole, lemma_whole_exact,
};
use crate::double::order::{lemma_itself, lemma_monotone, lemma_units_monotone};
use crate::double::{
    floor, lemma_bounds, lemma_exponent_above, lemma_exponent_below, lemma_nearest_wf,
    lemma_shifted, lemma_too_little, lower, nearest, product, quotient, units, whole, zero, Double,
    BEYOND, END, LOWEST, START,
};
use crate::resample::{edge, larger, smaller, weight};

verus! {

/// No side is longer than this many pixels in what is proved of averages.
pub const SIDE: u64 = 0x10_0000;

/// 0, or a number whose exponent lies between `lo` and `hi`.
pub open spec fn tame(x: Double, lo: int, hi: int) -> bool {
    x == zero() || (x.wf() && lo <= x.e <= hi && x.m >= START)
}

/// A product with 0 is 0.
pub proof fn lemma_zero_product(x: Double)
    requires
        x.wf(),
    ensures
        product(zero(), x) == zero(),
        product(x, zero()) == zero(),
        amount(zero()) == 0,
{
    let m = x.m as nat;
    assert(0 * m == 0 && m * 0 == 0) by (nonlinear_arith);
    lemma_too_little(0, 1, LOWEST + x.e);
    lemma_too_little(0, 1, x.e + LOWEST);
    let p = pow2((LOWEST + 4000) as nat);
    assert(0 * p == 0) by (nonlinear_arith);
}

/// The exponent of a product.
pub proof fn lemma_product_exponent(a: Double, b: Double)
    requires
        a.wf(),
        b.wf(),
        a.m >= START,
        b.m >= START,
        LOWEST < a.e + b.e + 52,
        a.e + b.e + 54 < BEYOND,
    ensures
        product(a, b).wf(),
        product(a, b).m >= START,
        a.e + b.e + 52 <= product(a, b).e <= a.e + b.e + 54,
{
    let n = a.m as nat * b.m as nat;
    let e = a.e + b.e;
    lemma_bounds();
    lemma_nearest_wf(n, 1, e);
    assert(START * START <= n < END * END) by (nonlinear_arith)
        requires
            n == a.m * b.m,
            START <= a.m < END,
            START <= b.m < END,
    ;
    assert(n * 1 == n) by (nonlinear_arith);
    lemma_exponent_above(n, 1, e, 0, 52);
    lemma_exponent_below(n, 1, e, 0, 53);
}

/// The exponent of a quotient.
pub proof fn lemma_quotient_exponent(a: Double, b: Double)
    requires
        a.wf(),
        b.wf(),
        a.m >= START,
        b.m >= START,
        LOWEST < a.e - b.e - 54,
        a.e - b.e < BEYOND,
    ensures
        quotient(a, b).wf(),
        quotient(a, b).m >= START,
        a.e - b.e - 54 <= quotient(a, b).e <= a.e - b.e - 50,
{
    let (n, d) = (a.m as nat, b.m as nat);
    let e = a.e - b.e;
    lemma_bounds();
    lemma2_to64_rest();
    lemma_nearest_wf(n, d, e);
    assert(d * 1 == d) by (nonlinear_arith);
    lemma_exponent_above(n, d, e, 54, 0);
    lemma_exponent_below(n, d, e, 51, 0);
}

/// What a whole number amounts to.
pub proof fn lemma_whole_amount(n: nat)
    requires
        n < END,
    ensures
        whole(n).wf(),
        amount(whole(n)) == n * pow2(4000),
        n > 0 ==> -52 <= whole(n).e <= 0 && whole(n).m >= START,
        n == 0 ==> whole(n) == zero(),
{
    lemma_units_of_whole(n);
    lemma_units_at(n, -4000);
    lemma_too_little(0, 1, 0);
    if n > 0 {
        lemma_whole_exact(n);
    }
}

/// The whole part lies below, by less than 1.
pub proof fn lemma_floor(x: Double)
    requires
        x.wf(),
    ensures
        floor(x) * pow2(4000) <= amount(x),
        amount(x) < (floor(x) + 1) * pow2(4000),
{
    let m = x.m as int;
    let g = pow2(4000) as int;
    lemma_pow2_pos(4000);
    if x.e >= 0 {
        lemma_pow2_adds(x.e as nat, 4000);
        let p = pow2(x.e as nat) as int;
        assert(m * (p * g) == (m * p) * g) by (nonlinear_arith);
        let v = m * p;
        assert(v * g < (v + 1) * g) by (nonlinear_arith)
            requires
                g > 0,
        ;
    } else {
        let (i, j) = ((-x.e) as nat, (x.e + 4000) as nat);
        lemma_pow2_adds(i, j);
        lemma_pow2_pos(i);
        lemma_pow2_pos(j);
        let (p, q) = (pow2(i) as int, pow2(j) as int);
        lemma_fundamental_div_mod(m, p);
        let (v, r) = (m / p, m % p);
        assert(v * (p * q) <= m * q < (v + 1) * (p * q)) by (nonlinear_arith)
            requires
                m == p * v + r,
                0 <= r < p,
                q > 0,
        ;
    }
}

proof fn lemma_edge_order(x: int, f: int, l: int, r: int)
    requires
        0 <= x <= SIDE,
        f > 0,
        l * END <= (x * f) * (END + 1),
        ((x + 1) * f) * (END - 1) <= r * END,
    ensures
        l < r,
{
    assert((x * f) * (END + 1) == f * (x * (END + 1)) && ((x + 1) * f) * (END - 1) == f * ((x + 1) * (
    END - 1))) by (nonlinear_arith);
    assert(x * (END + 1) == x * END + x && (x + 1) * (END - 1) == x * END + END - x - 1)
        by (nonlinear_arith);
    assert(f * (x * (END + 1)) < f * ((x + 1) * (END - 1))) by (nonlinear_arith)
        requires
            f > 0,
            x * (END + 1) < (x + 1) * (END - 1),
    ;
    assert(l < r) by (nonlinear_arith)
        requires
            l * END < r * END,
            END > 0,
    ;
}

proof fn lemma_edge_inside(x: int, dw: int, w: int, f: int, l: int)
    requires
        0 <= x < dw <= SIDE,
        f > 0,
        w > 0,
        0 <= l,
        l * END <= (x * f) * (END + 1),
        (f * dw) * END <= w * (END + 1),
    ensures
        l < w,
{
    let u = END as int;
    let k = dw * (u * u);
    assert(l * k <= (x * (u + 1)) * ((f * dw) * u)) by (nonlinear_arith)
        requires
            l * u <= (x * f) * (u + 1),
            k == dw * (u * u),
            dw > 0,
            u > 0,
    ;
    assert((x * (u + 1)) * ((f * dw) * u) <= (x * (u + 1)) * (w * (u + 1))) by (nonlinear_arith)
        requires
            (f * dw) * u <= w * (u + 1),
            x >= 0,
            u > 0,
    ;
    let c = x * ((u + 1) * (u + 1));
    assert((x * (u + 1)) * (w * (u + 1)) == c * w) by (nonlinear_arith)
        requires
            c == x * ((u + 1) * (u + 1)),
    ;
    assert(c < k) by (nonlinear_arith)
        requires
            c == x * ((u + 1) * (u + 1)),
            k == dw * (u * u),
            0 <= x <= dw - 1,
            dw <= 0x10_0000,
            u == 0x20_0000_0000_0000,
    ;
    assert(l < w) by (nonlinear_arith)
        requires
            l * k <= c * w,
            0 <= c < k,
            w > 0,
            l >= 0,
    ;
}

/// Destination columns begin inside the source, each one before the next.
pub proof fn lemma_edges(sw: int, dw: int, x: int)
    requires
        0 < sw <= SIDE,
        0 <= x < dw <= SIDE,
    ensures
        ({
            let l = edge(sw, dw, x);
            let r = edge(sw, dw, x + 1);
            &&& l.wf() && r.wf()
            &&& l.less(r)
            &&& floor(l) < sw
            &&& tame(l, -200, 60)
            &&& tame(r, -200, 60) && r != zero()
        }),
{
    let (a, b) = (whole(sw as nat), whole(dw as nat));
    lemma_whole_amount(sw as nat);
    lemma_whole_amount(dw as nat);
    let f = quotient(a, b);
    lemma_quotient_exponent(a, b);
    lemma_quotient_near(a, b);
    let g = pow2(4000) as int;
    lemma_pow2_pos(4000);
    let fa = amount(f) as int;
    lemma_pow2_pos((f.e + 4000) as nat);
    assert(fa > 0) by (nonlinear_arith)
        requires
            fa == f.m * pow2((f.e + 4000) as nat),
            f.m > 0,
            pow2((f.e + 4000) as nat) > 0,
    ;
    lemma_edge_near(f, (x + 1) as nat);
    let l = edge(sw, dw, x);
    let r = edge(sw, dw, x + 1);
    if x > 0 {
        lemma_edge_near(f, x as nat);
    } else {
        lemma_whole_amount(0);
        lemma_zero_product(f);
        assert(0 * fa == 0) by (nonlinear_arith);
        assert(0 * (END + 1) == 0);
    }
    let (la, ra) = (amount(l) as int, amount(r) as int);
    lemma_edge_order(x, fa, la, ra);
    if !l.less(r) {
        lemma_amount_ordered(r, l);
    }
    // The scale, with the common unit taken out.
    assert((fa * dw) * END <= (sw * g) * (END + 1)) by (nonlinear_arith)
        requires
            (fa * (dw * g) - (sw * g) * g) * END <= (sw * g) * g,
            g > 0,
    ;
    let w = sw * g;
    assert(w > 0) by (nonlinear_arith)
        requires
            w == sw * g,
            sw > 0,
            g > 0,
    ;
    lemma_edge_inside(x, dw, w, fa, la);
    lemma_floor(l);
    let v = floor(l) as int;
    assert(v < sw) by (nonlinear_arith)
        requires
            v * g < sw * g,
            g > 0,
    ;
}

proof fn lemma_edge_near(f: Double, x: nat)
    requires
        0 < x <= SIDE,
        f.wf(),
        f.m >= START,
        -110 <= f.e <= 5,
    ensures
        ({
            let p = product(whole(x), f);
            &&& tame(p, -200, 60) && p != zero()
            &&& amount(p) * END <= (x * amount(f)) * (END + 1)
            &&& (x * amount(f)) * (END - 1) <= amount(p) * END
        }),
{
    lemma_whole_amount(x);
    lemma_product_exponent(whole(x), f);
    lemma_product_near(whole(x), f);
    let g = pow2(4000) as int;
    lemma_pow2_pos(4000);
    let (p, a, n) = (amount(product(whole(x), f)) as int, amount(f) as int, x as int);
    assert((n * g) * a == (n * a) * g) by (nonlinear_arith);
    let b = n * a;
    assert(p * END <= b * (END + 1) && b * (END - 1) <= p * END) by (nonlinear_arith)
        requires
            (p * g - b * g) * END <= b * g,
            (b * g - p * g) * END <= b * g,
            g > 0,
    ;
}

/// What one source column counts for: nothing or a moderate number, and something in the column
/// where the destination column begins.
pub proof fn lemma_weight(lo: Double, hi: Double, s: int)
    requires
        tame(lo, -200, 60),
        tame(hi, -200, 60),
        hi != zero(),
        lo.less(hi),
        floor(lo) <= s < SIDE,
        whole(s as nat).less(hi),
    ensures
        tame(weight(lo, hi, s), -500, 60),
        s == floor(lo) ==> weight(lo, hi, s) != zero(),
{
    let (b, c) = (whole(s as nat), whole((s + 1) as nat));
    lemma_whole_amount(s as nat);
    lemma_whole_amount((s + 1) as nat);
    lemma_floor(lo);
    let g = pow2(4000) as int;
    lemma_pow2_pos(4000);
    let (right, left) = (smaller(hi, c), larger(lo, b));
    // The left end comes before the right one.
    assert(b.less(c)) by {
        if !b.less(c) {
            lemma_amount_ordered(c, b);
            assert(s * g < (s + 1) * g) by (nonlinear_arith)
                requires
                    g > 0,
            ;
        }
    }
    assert(lo.less(c)) by {
        if !lo.less(c) {
            lemma_amount_ordered(c, lo);
            let v = floor(lo) as int;
            assert((v + 1) * g <= (s + 1) * g) by (nonlinear_arith)
                requires
                    v <= s,
                    g > 0,
            ;
        }
    }
    assert(left.less(right));
    let e = lower(right.e as int, left.e as int);
    assert(e == left.e);
    lemma_units_monotone(left, right, e);
    let n = (units(right, e) - units(left, e)) as nat;
    let w = weight(lo, hi, s);
    assert(w == nearest(n, 1, e));
    lemma_nearest_wf(n, 1, e);
    // No more than the right end.
    let k = (right.e - e) as nat;
    lemma_shifted(right.m as nat, 1, right.e as int, k);
    lemma_itself(right, 1);
    assert(1 * right.m as nat == right.m as nat) by (nonlinear_arith);
    lemma_monotone(n, 1, units(right, e), 1, e);
    lemma_bounds();
    if left == zero() {
        let p = pow2((left.e - e) as nat);
        assert(0 * p == 0) by (nonlinear_arith);
        assert(w == right);
    } else {
        assert(n * START >= START) by (nonlinear_arith)
            requires
                n >= 1,
        ;
        lemma_exponent_above(n, 1, e, 52, 0);
    }
}

} // verus!
