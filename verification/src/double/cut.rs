//! Laws of making doubles whole: cutting off and rounding.
use vstd::arithmetic::div_mod::{lemma_fundamental_div_mod, lemma_fundamental_div_mod_converse};
use vstd::arithmetic::power2::{lemma_pow2_adds, lemma_pow2_pos, pow2};
use vstd::prelude::*;

use crate::double::exact::{amount, lemma_amount_ordered, lemma_whole_exact};
use crate::double::{half_up, lemma_bounds, rounded, scaled, whole, Double, END};

verus! {

/// `s` times the number is rounded to a nearest whole number, and to the even one where two are
/// equally near. (Amounts count `pow2(4000)`ths.)
pub proof fn scaling_is_to_the_nearest(x: Double, s: nat)
    requires
        x.wf(),
    ensures
        ({
            let one = pow2(4000) as int;
            let off = 2 * (scaled(x, s) * one - s * amount(x));
            &&& -one <= off <= one
            &&& off == one || off == -one ==> scaled(x, s) % 2 == 0
        }),
{
    let g = pow2(4000) as int;
    let m = x.m as int;
    let t = s as int;
    lemma_pow2_pos(4000);
    if x.e >= 0 {
        lemma_pow2_adds(x.e as nat, 4000);
        let p = pow2(x.e as nat) as int;
        assert(m * t * p * g == t * (m * (p * g))) by (nonlinear_arith);
    } else {
        let (i, j) = ((-x.e) as nat, (x.e + 4000) as nat);
        lemma_pow2_adds(i, j);
        lemma_pow2_pos(i);
        lemma_pow2_pos(j);
        let (p, q) = (pow2(i) as int, pow2(j) as int);
        let n = m * t;
        assert(n >= 0) by (nonlinear_arith)
            requires
                m >= 0,
                t >= 0,
                n == m * t,
        ;
        lemma_fundamental_div_mod(n, p);
        let (v, r) = (n / p, n % p);
        let w = scaled(x, s) as int;
        assert(w == rounded(n as nat, p as nat));
        let near = 2 * (w * p - n);
        assert(p * v == v * p && (v + 1) * p == v * p + p) by (nonlinear_arith);
        assert(w == v || w == v + 1);
        assert(-p <= near <= p);
        assert((near == p || near == -p) ==> w % 2 == 0);
        let off = 2 * (w * g - t * (m * q));
        assert(off == near * q) by (nonlinear_arith)
            requires
                g == p * q,
                n == m * t,
                near == 2 * (w * p - n),
                off == 2 * (w * g - t * (m * q)),
        ;
        assert(-g <= off <= g) by (nonlinear_arith)
            requires
                off == near * q,
                -p <= near <= p,
                g == p * q,
                q > 0,
        ;
        assert(off == g ==> near == p) by (nonlinear_arith)
            requires
                off == near * q,
                g == p * q,
                q > 0,
        ;
        assert(off == -g ==> near == -p) by (nonlinear_arith)
            requires
                off == near * q,
                g == p * q,
                q > 0,
        ;
    }
}

/// A number that is no less is never shown as less.
pub proof fn scaling_is_monotone(a: Double, b: Double, s: nat)
    requires
        a.wf(),
        b.wf(),
        !b.less(a),
    ensures
        scaled(a, s) <= scaled(b, s),
{
    scaling_is_to_the_nearest(a, s);
    scaling_is_to_the_nearest(b, s);
    lemma_amount_ordered(a, b);
    let g = pow2(4000) as int;
    lemma_pow2_pos(4000);
    let (v, w) = (scaled(a, s) as int, scaled(b, s) as int);
    let (x, y) = (s * amount(a), s * amount(b));
    assert(x <= y) by (nonlinear_arith)
        requires
            x == s * amount(a),
            y == s * amount(b),
            amount(a) <= amount(b),
    ;
    if v > w {
        assert((v - w) * g == v * g - w * g) by (nonlinear_arith);
        assert(v - w >= 1 && (v - w) * g <= g);
        assert(v - w <= 1) by (nonlinear_arith)
            requires
                (v - w) * g <= g,
                g > 0,
        ;
        assert(1 * g == g);
        assert(v == w + 1);
        assert(2 * (v * g - x) == g);
        assert(2 * (w * g - y) == -g);
    }
}

/// Whole numbers are scaled exactly.
pub proof fn whole_numbers_scale_exactly(n: nat, s: nat)
    requires
        0 < n < END,
    ensures
        scaled(whole(n), s) == n * s,
{
    lemma_whole_exact(n);
    let x = whole(n);
    let (m, t, k) = (x.m as int, s as int, n as int);
    let p = pow2((-x.e) as nat) as int;
    lemma_pow2_pos((-x.e) as nat);
    if x.e == 0 {
        lemma_bounds();
        assert(p == 1);
        assert(m * t * 1 == m * t && k * 1 == k) by (nonlinear_arith);
    } else {
        assert(m * t == (k * t) * p + 0 && k * t >= 0) by (nonlinear_arith)
            requires
                m == k * p,
                k >= 0,
                t >= 0,
        ;
        lemma_fundamental_div_mod_converse(m * t, p, k * t, 0);
    }
}

/// Rounding with halves up is to a nearest whole number, and never down from a half.
pub proof fn halves_go_up(x: Double)
    requires
        x.wf(),
    ensures
        ({
            let one = pow2(4000) as int;
            -one < 2 * (half_up(x) * one - amount(x)) <= one
        }),
{
    let g = pow2(4000) as int;
    let m = x.m as int;
    lemma_pow2_pos(4000);
    if x.e >= 0 {
        lemma_pow2_adds(x.e as nat, 4000);
        let p = pow2(x.e as nat) as int;
        assert(m * p * g == m * (p * g)) by (nonlinear_arith);
    } else {
        let (i, j) = ((-x.e) as nat, (x.e + 4000) as nat);
        lemma_pow2_adds(i, j);
        lemma_pow2_pos(i);
        lemma_pow2_pos(j);
        let (p, q) = (pow2(i) as int, pow2(j) as int);
        lemma_fundamental_div_mod(2 * m + p, 2 * p);
        let v = (2 * m + p) / (2 * p);
        assert(v == half_up(x));
        let near = 2 * (v * p - m);
        assert((2 * p) * v == 2 * (v * p)) by (nonlinear_arith);
        assert(-p < near <= p);
        let off = 2 * (v * g - m * q);
        assert(off == near * q && -g < off <= g) by (nonlinear_arith)
            requires
                g == p * q,
                near == 2 * (v * p - m),
                off == 2 * (v * g - m * q),
                -p < near <= p,
                q > 0,
        ;
    }
}

} // verus!
