//! How far the nearest double is from what it stands for.
use vstd::arithmetic::div_mod::{lemma_fundamental_div_mod};
use vstd::arithmetic::power2::{lemma_pow2_adds, lemma_pow2_pos, lemma_pow2_unfold, pow2};
use vstd::prelude::*;

use crate::double::exact::{amount, lemma_common, lemma_exact_from};
use crate::double::{
    half_up, lemma_bounds, lemma_divided, lemma_exponent_above, lemma_exponent_below, lemma_nearest_wf,
    lemma_rounded, lemma_rounded_bounds, lower, nearest, product, quotient, rounded,
    steps, sum, too_coarse, too_fine, units, Double, BEYOND, END, LOWEST, START,
};

verus! {

/// `a` is off `b` by no more than one part in 2 to the 53rd.
pub open spec fn near(a: nat, b: nat) -> bool {
    (a - b) * END <= b && (b - a) * END <= b
}

/// `n` in units of 2 to the `-4000`th, with exponent `e`.
pub open spec fn grains(n: nat, e: int) -> nat {
    n * pow2((e + 4000) as nat)
}

/// The nearest double is off by no more than one part in 2 to the 53rd.
pub proof fn lemma_near(n: nat, d: nat, e: int)
    requires
        d > 0,
        e >= -4000,
        LOWEST < nearest(n, d, e).e < BEYOND,
    ensures
        near(amount(nearest(n, d, e)) * d, grains(n, e)),
    decreases steps(n, d, e),
{
    let x = nearest(n, d, e);
    let a = amount(x) as int;
    let g = pow2((e + 4000) as nat) as int;
    if too_fine(n, d, e) {
        lemma_near(n, 2 * d, e + 1);
        lemma_pow2_unfold((e + 4001) as nat);
        let k = d as int;
        assert(n * (2 * g) == 2 * (n * g) && a * (2 * k) == 2 * (a * k)) by (nonlinear_arith);
    } else if too_coarse(n, d, e) {
        lemma_near(2 * n, d, e - 1);
        lemma_pow2_unfold((e + 4000) as nat);
        let h = pow2((e + 3999) as nat) as int;
        assert((2 * n) * h == n * (2 * h)) by (nonlinear_arith);
    } else {
        let m = rounded(n, d) as int;
        lemma_rounded(n, d);
        lemma_rounded_bounds(n, d, 0, END as nat);
        assert(a == m * g) by {
            if m >= END {
                lemma_pow2_unfold((e + 4001) as nat);
                assert(START * (2 * g) == END * g) by (nonlinear_arith)
                    requires
                        END == 2 * START,
                ;
            }
        }
        assert(n >= START * d) by {
            if n < START * d {
                lemma_rounded_bounds(n, d, 0, START as nat);
            }
        }
        let (k, v) = (d as int, n as int);
        let diff = m * k - v;
        assert(diff * END <= v && (0 - diff) * END <= v) by (nonlinear_arith)
            requires
                2 * diff <= k,
                0 - 2 * diff <= k,
                v >= START * k,
                END == 2 * START,
        ;
        lemma_pow2_pos((e + 4000) as nat);
        assert((m * g) * k - v * g == diff * g) by (nonlinear_arith)
            requires
                diff == m * k - v,
        ;
        assert((diff * g) * END <= v * g && (0 - diff * g) * END <= v * g) by (nonlinear_arith)
            requires
                diff * END <= v,
                (0 - diff) * END <= v,
                g > 0,
        ;
    }
}

/// The product of two numbers is near.
pub proof fn lemma_product_near(a: Double, b: Double)
    requires
        a.wf(),
        b.wf(),
        LOWEST < product(a, b).e < BEYOND,
    ensures
        near(amount(product(a, b)) * pow2(4000), amount(a) * amount(b)),
{
    let n = a.m as nat * b.m as nat;
    let e = a.e + b.e;
    lemma_near(n, 1, e);
    let (i, j) = ((a.e + 4000) as nat, (b.e + 4000) as nat);
    lemma_pow2_adds(i, j);
    lemma_pow2_adds((e + 4000) as nat, 4000);
    lemma_pow2_pos(4000);
    let (p, q, g, r) = (
        pow2(i) as int,
        pow2(j) as int,
        pow2(4000) as int,
        pow2((e + 4000) as nat) as int,
    );
    let (x, y, z) = (a.m as int, b.m as int, amount(product(a, b)) as int);
    assert((x * p) * (y * q) == (x * y) * (p * q)) by (nonlinear_arith);
    assert((x * y) * (r * g) == ((x * y) * r) * g) by (nonlinear_arith);
    let w = (x * y) * r;
    assert(z * 1 == z) by (nonlinear_arith);
    assert((z * g - w * g) * END <= w * g && (w * g - z * g) * END <= w * g) by (nonlinear_arith)
        requires
            (z - w) * END <= w,
            (w - z) * END <= w,
            g > 0,
    ;
}

/// The sum of two numbers is near.
pub proof fn lemma_sum_near(a: Double, b: Double)
    requires
        a.wf(),
        b.wf(),
        LOWEST < sum(a, b).e < BEYOND,
    ensures
        near(amount(sum(a, b)), amount(a) + amount(b)),
{
    let e = lower(a.e as int, b.e as int);
    lemma_near(units(a, e) + units(b, e), 1, e);
    lemma_units_grains(a, e);
    lemma_units_grains(b, e);
    let g = pow2((e + 4000) as nat) as int;
    let (x, y) = (units(a, e) as int, units(b, e) as int);
    assert((x + y) * g == x * g + y * g) by (nonlinear_arith);
    assert(amount(sum(a, b)) * 1 == amount(sum(a, b))) by (nonlinear_arith);
}

proof fn lemma_units_grains(a: Double, e: int)
    requires
        a.wf(),
        LOWEST <= e <= a.e,
    ensures
        grains(units(a, e), e) == amount(a),
{
    let (i, j) = ((a.e - e) as nat, (e + 4000) as nat);
    lemma_pow2_adds(i, j);
    let (m, p, q) = (a.m as int, pow2(i) as int, pow2(j) as int);
    assert((m * p) * q == m * (p * q)) by (nonlinear_arith);
}

/// The quotient of two numbers is near.
pub proof fn lemma_quotient_near(a: Double, b: Double)
    requires
        a.wf(),
        b.wf(),
        b.m > 0,
        LOWEST < quotient(a, b).e < BEYOND,
    ensures
        near(amount(quotient(a, b)) * amount(b), amount(a) * pow2(4000)),
{
    let e = a.e - b.e;
    lemma_near(a.m as nat, b.m as nat, e);
    let (i, j) = ((e + 4000) as nat, (b.e + 4000) as nat);
    lemma_pow2_adds(i, j);
    lemma_pow2_adds((a.e + 4000) as nat, 4000);
    lemma_pow2_pos(j);
    let (p, q, r, g) = (
        pow2(i) as int,
        pow2(j) as int,
        pow2((a.e + 4000) as nat) as int,
        pow2(4000) as int,
    );
    let (x, y, z) = (a.m as int, b.m as int, amount(quotient(a, b)) as int);
    assert(z * (y * q) == (z * y) * q) by (nonlinear_arith);
    assert((x * r) * g == x * (r * g) && (x * p) * q == x * (p * q)) by (nonlinear_arith);
    let (v, w) = (z * y, x * p);
    assert((v * q - w * q) * END <= w * q && (w * q - v * q) * END <= w * q) by (nonlinear_arith)
        requires
            (v - w) * END <= w,
            (w - v) * END <= w,
            q > 0,
    ;
}

/// What rounding a double to a whole number means.
pub proof fn lemma_half_up(x: Double, k: int)
    requires
        x.wf(),
        k >= 0,
    ensures
        2 * amount(x) < (2 * k + 1) * pow2(4000) ==> half_up(x) <= k,
        2 * amount(x) >= (2 * k - 1) * pow2(4000) ==> half_up(x) >= k,
{
    let m = x.m as int;
    let g = pow2(4000) as int;
    lemma_pow2_pos(4000);
    if x.e >= 0 {
        let v = m * pow2(x.e as nat);
        lemma_pow2_adds(x.e as nat, 4000);
        let p = pow2(x.e as nat) as int;
        assert(m * (p * g) == (m * p) * g) by (nonlinear_arith);
        assert(2 * (v * g) < (2 * k + 1) * g ==> v <= k) by (nonlinear_arith)
            requires
                g > 0,
        ;
        assert(2 * (v * g) >= (2 * k - 1) * g ==> v >= k) by (nonlinear_arith)
            requires
                g > 0,
        ;
    } else {
        let (i, j) = ((-x.e) as nat, (x.e + 4000) as nat);
        lemma_pow2_adds(i, j);
        lemma_pow2_pos(i);
        lemma_pow2_pos(j);
        let (p, q) = (pow2(i) as int, pow2(j) as int);
        let h = (2 * m + p) / (2 * p);
        lemma_fundamental_div_mod(2 * m + p, 2 * p);
        let r = (2 * m + p) % (2 * p);
        if 2 * (m * q) < (2 * k + 1) * g {
            assert(2 * m < (2 * k + 1) * p) by (nonlinear_arith)
                requires
                    2 * (m * q) < (2 * k + 1) * (p * q),
                    q > 0,
            ;
            assert(h <= k) by (nonlinear_arith)
                requires
                    2 * m < (2 * k + 1) * p,
                    2 * m + p == (2 * p) * h + r,
                    r >= 0,
                    p > 0,
            ;
        }
        if 2 * (m * q) >= (2 * k - 1) * g {
            assert(2 * m >= (2 * k - 1) * p) by (nonlinear_arith)
                requires
                    2 * (m * q) >= (2 * k - 1) * (p * q),
                    q > 0,
            ;
            assert(h >= k) by (nonlinear_arith)
                requires
                    2 * m >= (2 * k - 1) * p,
                    2 * m + p == (2 * p) * h + r,
                    r < 2 * p,
                    p > 0,
            ;
        }
    }
}

/// Rounding the nearest double of a fraction to a whole number is rounding the fraction, as long as
/// the numerator is less than 2 to the 52nd.
pub proof fn rounding_twice_is_rounding_once(n: nat, d: nat)
    requires
        0 < n < START,
        0 < d < END,
    ensures
        half_up(nearest(n, d, 0)) == (2 * n + d) / (2 * d),
{
    let x = nearest(n, d, 0);
    let (v, k) = (n as int, d as int);
    lemma_nearest_wf(n, d, 0);
    lemma_bounds();
    lemma_pow2_adds(52, 53);
    lemma_pow2_pos(4000);
    assert(n * pow2(105) >= START * (d * pow2(0))) by {
        assert(v * (START * END) >= START * (k * 1)) by (nonlinear_arith)
            requires
                v >= 1,
                k <= END,
        ;
    }
    lemma_exponent_above(n, d, 0, 105, 0);
    assert(n * pow2(0) < END * (d * pow2(0))) by {
        assert(v * 1 < END * (k * 1)) by (nonlinear_arith)
            requires
                v < START,
                k >= 1,
                START <= END,
        ;
    }
    lemma_exponent_below(n, d, 0, 0, 0);
    lemma_near(n, d, 0);
    let a = amount(x) as int;
    let g = pow2(4000) as int;
    lemma_fundamental_div_mod(2 * v + k, 2 * k);
    let h = (2 * v + k) / (2 * k);
    let r = (2 * v + k) % (2 * k);
    assert(h >= 0 && (2 * h - 1) * k <= 2 * v && 2 * v + 1 <= (2 * h + 1) * k) by (nonlinear_arith)
        requires
            2 * v + k == (2 * k) * h + r,
            0 <= r < 2 * k,
            k > 0,
            v > 0,
    ;
    // The error is less than half of what separates the fraction from a half.
    assert(2 * (a * k - v * g) < g && 2 * (v * g - a * k) < g) by (nonlinear_arith)
        requires
            (a * k - v * g) * END <= v * g,
            (v * g - a * k) * END <= v * g,
            v < START,
            END == 2 * START,
            START > 0,
            g > 0,
    ;
    assert(2 * a < (2 * h + 1) * g) by (nonlinear_arith)
        requires
            2 * (a * k - v * g) < g,
            2 * v + 1 <= (2 * h + 1) * k,
            g > 0,
            k > 0,
    ;
    lemma_half_up(x, h);
    if (2 * h - 1) * k < 2 * v {
        assert(2 * a >= (2 * h - 1) * g) by (nonlinear_arith)
            requires
                2 * (v * g - a * k) < g,
                2 * v >= (2 * h - 1) * k + 1,
                g > 0,
                k > 0,
        ;
    } else {
        lemma_half_is_exact(n, d, h);
    }
}

/// A fraction that ends in a half is a double.
proof fn lemma_half_is_exact(n: nat, d: nat, h: int)
    requires
        0 < n < START,
        0 < d < END,
        (2 * h - 1) * d == 2 * n,
    ensures
        2 * amount(nearest(n, d, 0)) == (2 * h - 1) * pow2(4000),
{
    let (v, k) = (n as int, d as int);
    assert(0 < 2 * h - 1 < END) by (nonlinear_arith)
        requires
            (2 * h - 1) * k == 2 * v,
            0 < v < START,
            k >= 1,
            END == 2 * START,
    ;
    let odd = (2 * h - 1) as nat;
    lemma_common(n, d, 0, 2);
    assert(2 * n == d * odd) by (nonlinear_arith)
        requires
            (2 * h - 1) * k == 2 * v,
            odd == 2 * h - 1,
            k == d,
            v == n,
    ;
    lemma_common(odd, 2, 0, d);
    assert(d * 2 == 2 * d) by (nonlinear_arith);
    lemma_divided(odd, 1, -1, 1);
    lemma_bounds();
    assert(nearest(n, d, 0) == nearest(odd, 1, -1));
    lemma_exact_from(odd, -1);
    let x = nearest(odd, 1, -1);
    let (i, j) = ((-1 - x.e) as nat, (x.e + 4000) as nat);
    lemma_nearest_wf(odd, 1, -1);
    lemma_pow2_adds(i, j);
    lemma_pow2_unfold(4000);
    let (p, q) = (pow2(i) as int, pow2(j) as int);
    let half = pow2(3999) as int;
    assert(p * q == half);
    assert(2 * ((odd * p) * q) == odd * (2 * (p * q))) by (nonlinear_arith);
}

} // verus!
