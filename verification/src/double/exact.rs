//! Where double-precision arithmetic is exact, and how doubles are ordered.
use vstd::arithmetic::div_mod::{lemma_fundamental_div_mod, lemma_fundamental_div_mod_converse};
use vstd::arithmetic::power2::{lemma_pow2_adds, lemma_pow2_pos, lemma_pow2_unfold, pow2};
use vstd::prelude::*;

use crate::double::{
    difference, half_up, lemma_bounds, lemma_divided, lemma_exponent_above, lemma_nearest_wf,
    lemma_shifted, lower, nearest, product, quotient, rounded, steps, sum, too_coarse, too_fine,
    units, whole, Double, END, LOWEST, START,
};

verus! {

proof fn lemma_rounded_common(n: nat, d: nat, c: nat)
    requires
        d > 0,
        c > 0,
    ensures
        c * d > 0,
        rounded(c * n, c * d) == rounded(n, d),
{
    lemma_fundamental_div_mod(n as int, d as int);
    let (q, r, k, f) = (n as int / d as int, n as int % d as int, d as int, c as int);
    assert(f * k > 0 && 0 <= f * r < f * k) by (nonlinear_arith)
        requires
            f > 0,
            k > 0,
            0 <= r < k,
    ;
    assert(f * n == q * (f * k) + f * r) by (nonlinear_arith)
        requires
            n == k * q + r,
    ;
    lemma_fundamental_div_mod_converse(f * n, f * k, q, f * r);
    assert(2 * (f * r) < f * k <==> 2 * r < k) by (nonlinear_arith)
        requires
            f > 0,
    ;
    assert(2 * (f * r) == f * k <==> 2 * r == k) by (nonlinear_arith)
        requires
            f > 0,
    ;
}

/// A common factor changes nothing.
pub proof fn lemma_common(n: nat, d: nat, e: int, c: nat)
    requires
        d > 0,
        c > 0,
    ensures
        c * d > 0,
        nearest(c * n, c * d, e) == nearest(n, d, e),
    decreases steps(n, d, e),
{
    lemma_rounded_common(n, d, c);
    let (a, k, f) = (n as int, d as int, c as int);
    assert(f * a >= END * (f * k) <==> a >= END * k) by (nonlinear_arith)
        requires
            f > 0,
    ;
    assert(f * a < START * (f * k) <==> a < START * k) by (nonlinear_arith)
        requires
            f > 0,
    ;
    assert(f * (2 * k) == 2 * (f * k) && f * (2 * a) == 2 * (f * a)) by (nonlinear_arith);
    if too_fine(n, d, e) {
        lemma_common(n, 2 * d, e + 1, c);
    } else if too_coarse(n, d, e) {
        lemma_common(2 * n, d, e - 1, c);
    }
}

/// A whole number with few digits keeps them.
pub proof fn lemma_exact_from(n: nat, e: int)
    requires
        0 < n < END,
        LOWEST <= e <= 0,
    ensures
        ({
            let x = nearest(n, 1, e);
            x.e <= e && x.m == n * pow2((e - x.e) as nat)
        }),
    decreases steps(n, 1, e),
{
    if too_coarse(n, 1, e) {
        lemma_exact_from(2 * n, e - 1);
        let k = (e - 1 - nearest(n, 1, e).e) as nat;
        lemma_pow2_unfold(k + 1);
        let p = pow2(k) as int;
        assert((2 * n) * p == n * (2 * p)) by (nonlinear_arith);
    } else {
        lemma_bounds();
        lemma_fundamental_div_mod_converse(n as int, 1, n as int, 0);
        assert(n * 1 == n) by (nonlinear_arith);
    }
}

/// A whole number below 2 to the 53rd is a double.
pub proof fn lemma_whole_exact(n: nat)
    requires
        0 < n < END,
    ensures
        whole(n).wf(),
        -52 <= whole(n).e <= 0,
        whole(n).m == n * pow2((-whole(n).e) as nat),
        whole(n).m > 0,
{
    lemma_nearest_wf(n, 1, 0);
    lemma_exact_from(n, 0);
    lemma_bounds();
    assert(n * pow2(52) >= START * (1 * pow2(0))) by {
        assert(n * START >= START) by (nonlinear_arith)
            requires
                n >= 1,
        ;
    }
    lemma_exponent_above(n, 1, 0, 52, 0);
}

/// Products of whole numbers below 2 to the 53rd are exact.
pub proof fn product_is_exact(a: nat, b: nat)
    requires
        0 < a,
        0 < b,
        a * b < END,
    ensures
        product(whole(a), whole(b)) == whole(a * b),
{
    assert(a < END && b < END) by (nonlinear_arith)
        requires
            0 < a,
            0 < b,
            a * b < END,
    ;
    lemma_whole_exact(a);
    lemma_whole_exact(b);
    let (i, j) = ((-whole(a).e) as nat, (-whole(b).e) as nat);
    lemma_pow2_adds(i, j);
    let (p, q) = (pow2(i) as int, pow2(j) as int);
    assert((a * p) * (b * q) == (a * b) * (p * q)) by (nonlinear_arith);
    lemma_shifted(a * b, 1, 0, i + j);
}

/// Sums of whole numbers below 2 to the 53rd are exact.
pub proof fn sum_is_exact(a: nat, b: nat)
    requires
        a + b < END,
    ensures
        sum(whole(a), whole(b)) == whole(a + b),
{
    lemma_units_of_whole(a);
    lemma_units_of_whole(b);
    let e = lower(whole(a).e as int, whole(b).e as int);
    lemma_units_at(a, e);
    lemma_units_at(b, e);
    let k = (-e) as nat;
    let p = pow2(k) as int;
    assert(a * p + b * p == (a + b) * p) by (nonlinear_arith);
    lemma_shifted(a + b, 1, 0, k);
}

pub proof fn lemma_units_of_whole(n: nat)
    requires
        n < END,
    ensures
        LOWEST <= whole(n).e <= 0,
        whole(n).wf(),
{
    lemma_nearest_wf(n, 1, 0);
    if n > 0 {
        lemma_whole_exact(n);
    } else {
        lemma_zero(0);
    }
}

pub proof fn lemma_zero(e: int)
    requires
        LOWEST <= e,
    ensures
        nearest(0, 1, e) == (Double { m: 0, e: LOWEST }),
    decreases e - LOWEST,
{
    if e > LOWEST {
        lemma_zero(e - 1);
    } else {
        lemma_fundamental_div_mod_converse(0, 1, 0, 0);
    }
}

pub proof fn lemma_units_at(n: nat, e: int)
    requires
        n < END,
        e <= whole(n).e,
    ensures
        units(whole(n), e) == n * pow2((-e) as nat),
{
    lemma_units_of_whole(n);
    let x = whole(n);
    let (i, j) = ((-x.e) as nat, (x.e - e) as nat);
    lemma_pow2_adds(i, j);
    if n > 0 {
        lemma_whole_exact(n);
        let (p, q) = (pow2(i) as int, pow2(j) as int);
        assert((n * p) * q == n * (p * q)) by (nonlinear_arith);
    } else {
        lemma_zero(0);
        let (p, q) = (pow2(j) as int, pow2((-e) as nat) as int);
        assert(0 * p == 0 && 0 * q == 0) by (nonlinear_arith);
    }
}

/// Differences of whole numbers are exact.
pub proof fn difference_is_exact(a: nat, b: nat)
    requires
        b <= a < END,
    ensures
        difference(whole(a), whole(b)) == whole((a - b) as nat),
{
    lemma_units_of_whole(a);
    lemma_units_of_whole(b);
    let e = lower(whole(a).e as int, whole(b).e as int);
    lemma_units_at(a, e);
    lemma_units_at(b, e);
    let k = (-e) as nat;
    let p = pow2(k) as int;
    lemma_pow2_pos(k);
    assert(a * p - b * p == (a - b) * p && a * p >= b * p) by (nonlinear_arith)
        requires
            a >= b,
            p > 0,
    ;
    lemma_shifted((a - b) as nat, 1, 0, k);
}

/// Where the division of whole numbers below 2 to the 53rd comes out even, it is exact; otherwise
/// it is rounded once.
pub proof fn quotient_of_wholes(a: nat, b: nat)
    requires
        0 < a < END,
        0 < b < END,
    ensures
        quotient(whole(a), whole(b)) == nearest(a, b, 0),
{
    lemma_whole_exact(a);
    lemma_whole_exact(b);
    let (i, j) = ((-whole(a).e) as nat, (-whole(b).e) as nat);
    lemma_shifted(a, b, 0, i);
    lemma_divided(a * pow2(i), b, 0 - i, j);
}

/// A product of whole numbers divided by one of them is the other.
pub proof fn quotient_is_exact(a: nat, b: nat)
    requires
        0 < a,
        0 < b,
        a * b < END,
    ensures
        quotient(whole(a * b), whole(b)) == whole(a),
{
    assert(a < END && b < END && a * b > 0) by (nonlinear_arith)
        requires
            0 < a,
            0 < b,
            a * b < END,
    ;
    quotient_of_wholes(a * b, b);
    lemma_common(a, 1, 0, b);
    assert(b * a == a * b && b * 1 == b) by (nonlinear_arith);
}

/// A whole number is its own nearest.
pub proof fn whole_is_kept(n: nat)
    requires
        n < END,
    ensures
        half_up(whole(n)) == n,
{
    lemma_units_of_whole(n);
    let x = whole(n);
    let p = pow2((-x.e) as nat) as int;
    lemma_pow2_pos((-x.e) as nat);
    if n > 0 {
        lemma_whole_exact(n);
        if x.e == 0 {
            lemma_bounds();
            assert(x.m * 1 == x.m && n * 1 == n) by (nonlinear_arith);
        } else {
            assert(2 * (n * p) + p == n * (2 * p) + p) by (nonlinear_arith);
            lemma_fundamental_div_mod_converse(2 * (n * p) + p, 2 * p, n as int, p);
        }
    } else {
        lemma_zero(0);
        assert(0 * (2 * p) == 0) by (nonlinear_arith);
        lemma_fundamental_div_mod_converse(p, 2 * p, 0, p);
    }
}

/// A sum has no lower exponent than what was added.
pub proof fn lemma_sum_grows(a: Double, b: Double)
    requires
        a.wf(),
        b.wf(),
    ensures
        sum(a, b).wf(),
        a.m >= START ==> sum(a, b).e >= a.e,
        b.m >= START ==> sum(a, b).e >= b.e,
{
    let e = lower(a.e as int, b.e as int);
    let n = units(a, e) + units(b, e);
    lemma_nearest_wf(n, 1, e);
    lemma_bounds();
    assert(n * 1 == n) by (nonlinear_arith);
    if a.m >= START {
        let k = (a.e - e) as nat;
        let (m, p) = (a.m as int, pow2(k) as int);
        assert(START * (1 * p) <= m * p) by (nonlinear_arith)
            requires
                START <= m,
                p >= 0,
        ;
        lemma_exponent_above(n, 1, e, 0, k);
    }
    if b.m >= START {
        let k = (b.e - e) as nat;
        let (m, p) = (b.m as int, pow2(k) as int);
        assert(START * (1 * p) <= m * p) by (nonlinear_arith)
            requires
                START <= m,
                p >= 0,
        ;
        lemma_exponent_above(n, 1, e, 0, k);
    }
}

/// The number in units so small that every double is a whole number of them.
pub open spec fn amount(x: Double) -> nat {
    x.m as nat * pow2((x.e + 4000) as nat)
}

/// A number that is no less amounts to no less.
pub proof fn lemma_amount_ordered(a: Double, b: Double)
    requires
        a.wf(),
        b.wf(),
        !b.less(a),
    ensures
        amount(a) <= amount(b),
        a.less(b) ==> amount(a) < amount(b),
{
    let i = (a.e + 4000) as nat;
    let (m, n) = (a.m as int, b.m as int);
    let p = pow2(i) as int;
    lemma_pow2_pos(i);
    if a.e == b.e {
        assert(m * p <= n * p) by (nonlinear_arith)
            requires
                m <= n,
                p > 0,
        ;
        assert(m < n ==> m * p < n * p) by (nonlinear_arith)
            requires
                p > 0,
        ;
    } else {
        let k = (b.e - a.e) as nat;
        lemma_pow2_adds(i, k);
        lemma_bounds();
        lemma_pow2_pos((k - 1) as nat);
        lemma_pow2_unfold(k);
        let q = pow2(k) as int;
        assert(m * p < n * (p * q)) by (nonlinear_arith)
            requires
                m < END,
                n >= START,
                q >= 2,
                p > 0,
                END == 2 * START,
        ;
    }
}

/// Comparing with a whole number is comparing amounts.
pub proof fn lemma_thresholds(x: Double, n: nat)
    requires
        x.wf(),
    ensures
        x.exceeds(n) == (amount(x) > n * pow2(4000)),
        x.reaches(n) == (amount(x) >= n * pow2(4000)),
{
    let (m, v) = (x.m as int, n as int);
    if x.e >= 0 {
        lemma_pow2_adds(x.e as nat, 4000);
        let (p, q) = (pow2(x.e as nat) as int, pow2(4000) as int);
        lemma_pow2_pos(4000);
        assert(m * (p * q) == (m * p) * q) by (nonlinear_arith);
        let w = m * p;
        assert((w > v) == (w * q > v * q) && (w >= v) == (w * q >= v * q)) by (nonlinear_arith)
            requires
                q > 0,
        ;
    } else {
        let i = (-x.e) as nat;
        let j = (x.e + 4000) as nat;
        lemma_pow2_adds(i, j);
        let (p, q) = (pow2(i) as int, pow2(j) as int);
        lemma_pow2_pos(j);
        assert(v * (p * q) == (v * p) * q) by (nonlinear_arith);
        let w = v * p;
        assert((m > w) == (m * q > w * q) && (m >= w) == (m * q >= w * q)) by (nonlinear_arith)
            requires
                q > 0,
        ;
    }
}

} // verus!
