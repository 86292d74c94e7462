//! A larger number has no smaller nearest double.
use vstd::arithmetic::div_mod::{
    lemma_div_is_ordered, lemma_fundamental_div_mod, lemma_fundamental_div_mod_converse,
};
use vstd::arithmetic::power2::{lemma_pow2_adds, lemma_pow2_pos, lemma_pow2_unfold, pow2};
use vstd::prelude::*;

use crate::double::exact::lemma_common;
use crate::double::{
    lemma_bounds, lemma_nearest_above, lemma_nearest_wf, lemma_rounded_bounds, lemma_shifted,
    nearest, product, quotient, rounded, steps, too_coarse, too_fine, units, whole, Double,
    BEYOND, END, LOWEST, START,
};

verus! {

proof fn lemma_rounded_monotone(a: nat, b: nat, d: nat)
    requires
        d > 0,
        a <= b,
    ensures
        rounded(a, d) <= rounded(b, d),
{
    lemma_div_is_ordered(a as int, b as int, d as int);
    lemma_fundamental_div_mod(a as int, d as int);
    lemma_fundamental_div_mod(b as int, d as int);
}

/// What needs no more digits than a mantissa has stays below the next exponent, or reaches its
/// first number.
proof fn lemma_no_more(n: nat, d: nat, e: int)
    requires
        d > 0,
        n < END * d,
        LOWEST <= e,
    ensures
        nearest(n, d, e).e <= e || nearest(n, d, e) == (Double { m: START, e: (e + 1) as i32 }),
    decreases steps(n, d, e),
{
    if too_coarse(n, d, e) {
        lemma_no_more(2 * n, d, e - 1);
    } else {
        lemma_rounded_bounds(n, d, 0, END as nat);
    }
}

proof fn lemma_monotone_over(a: nat, b: nat, d: nat, e: int)
    requires
        d > 0,
        a <= b,
    ensures
        !nearest(b, d, e).less(nearest(a, d, e)),
    decreases steps(b, d, e),
{
    if too_fine(b, d, e) {
        if too_fine(a, d, e) {
            lemma_monotone_over(a, b, 2 * d, e + 1);
        } else {
            lemma_nearest_wf(b, d, e);
            lemma_nearest_wf(a, d, e);
            lemma_no_more(a, d, e);
            lemma_nearest_above(b, 2 * d, e + 1, if e + 1 <= BEYOND {
                e + 1
            } else {
                BEYOND as int
            });
        }
    } else if too_coarse(b, d, e) {
        lemma_monotone_over(2 * a, 2 * b, d, e - 1);
    } else if too_coarse(a, d, e) {
        lemma_nearest_wf(b, d, e);
        lemma_nearest_wf(a, d, e);
        lemma_no_more(2 * a, d, e - 1);
        lemma_nearest_above(b, d, e, if e <= BEYOND {
            e
        } else {
            BEYOND as int
        });
    } else {
        lemma_rounded_monotone(a, b, d);
        lemma_rounded_bounds(a, d, 0, END as nat);
        lemma_rounded_bounds(b, d, 0, END as nat);
    }
}

/// A larger quotient has no smaller nearest double.
pub proof fn lemma_monotone(a: nat, c: nat, b: nat, d: nat, e: int)
    requires
        c > 0,
        d > 0,
        a * d <= b * c,
    ensures
        !nearest(b, d, e).less(nearest(a, c, e)),
{
    lemma_common(a, c, e, d);
    lemma_common(b, d, e, c);
    assert(d * a == a * d && c * b == b * c && d * c == c * d) by (nonlinear_arith);
    lemma_monotone_over(d * a, c * b, d * c, e);
}

/// Whole numbers keep their order.
pub proof fn whole_is_monotone(a: nat, b: nat)
    requires
        a <= b,
    ensures
        !whole(b).less(whole(a)),
{
    lemma_monotone_over(a, b, 1, 0);
}

/// Doubles in common units keep their order.
pub proof fn lemma_units_monotone(a: Double, b: Double, e: int)
    requires
        a.wf(),
        b.wf(),
        !b.less(a),
        e <= a.e,
    ensures
        units(a, e) <= units(b, e),
        a.less(b) ==> units(a, e) < units(b, e),
{
    let i = (a.e - e) as nat;
    let (m, n) = (a.m as int, b.m as int);
    let p = pow2(i) as int;
    lemma_pow2_pos(i);
    if a.e == b.e {
        assert(m * p <= n * p && (m < n ==> m * p < n * p)) by (nonlinear_arith)
            requires
                m <= n,
                p > 0,
        ;
    } else {
        let k = (b.e - a.e) as nat;
        lemma_pow2_adds(i, k);
        lemma_bounds();
        lemma_pow2_pos((k - 1) as nat);
        lemma_pow2_unfold(k);
        let q = pow2(k) as int;
        assert(m * p < n * (p * q)) by (nonlinear_arith)
            requires
                m < END,
                n >= START,
                q >= 2,
                p > 0,
                END == 2 * START,
        ;
    }
}

/// A double is the nearest to itself.
pub proof fn lemma_itself(x: Double, d: nat)
    requires
        x.wf(),
        d > 0,
    ensures
        nearest(d * x.m as nat, d, x.e as int) == x,
{
    lemma_common(x.m as nat, 1, x.e as int, d);
    assert(d * 1 == d) by (nonlinear_arith);
    lemma_fundamental_div_mod_converse(x.m as int, 1, x.m as int, 0);
}

/// Products keep the order of a factor.
pub proof fn product_is_monotone(a: Double, b: Double, c: Double)
    requires
        a.wf(),
        b.wf(),
        c.wf(),
        !b.less(a),
    ensures
        !product(b, c).less(product(a, c)),
        !product(c, b).less(product(c, a)),
{
    let e = a.e as int;
    lemma_units_monotone(a, b, e);
    lemma_bounds();
    let m = c.m as nat;
    let (x, y) = (units(a, e), units(b, e));
    assert(x * m <= y * m) by (nonlinear_arith)
        requires
            x <= y,
    ;
    assert(x == a.m) by {
        assert(a.m * 1 == a.m) by (nonlinear_arith);
    }
    let k = (b.e - e) as nat;
    let p = pow2(k);
    let n = b.m as nat;
    assert((n * m) * p == (n * p) * m) by (nonlinear_arith);
    lemma_shifted(n * m, 1, b.e + c.e, k);
    lemma_monotone_over(x * m, y * m, 1, e + c.e);
    assert(m * a.m == a.m * m && m * n == n * m) by (nonlinear_arith);
}

/// Quotients keep the order of the dividend.
pub proof fn quotient_is_monotone(a: Double, b: Double, c: Double)
    requires
        a.wf(),
        b.wf(),
        c.wf(),
        c.m > 0,
        !b.less(a),
    ensures
        !quotient(b, c).less(quotient(a, c)),
{
    let e = a.e as int;
    lemma_units_monotone(a, b, e);
    lemma_bounds();
    assert(a.m * 1 == a.m) by (nonlinear_arith);
    let k = (b.e - e) as nat;
    lemma_shifted(b.m as nat, c.m as nat, b.e - c.e, k);
    lemma_monotone_over(units(a, e), units(b, e), c.m as nat, e - c.e);
}

} // verus!
