//! What lies behind the last digit that counts matters only as being there or not.
use vstd::arithmetic::div_mod::{lemma_fundamental_div_mod, lemma_fundamental_div_mod_converse};
use vstd::prelude::*;

use crate::double::{nearest, rounded, steps, too_coarse, too_fine, END, START};

verus! {

/// Twice the whole part of `n / d`, and one more if something is left.
pub open spec fn cut(n: nat, d: nat) -> nat {
    2 * (n / d) + (if n % d == 0 {
        0nat
    } else {
        1
    })
}

/// A number compares with whole ones as its cut compares with their doubles.
proof fn lemma_cut_compares(n: nat, d: nat, i: int)
    requires
        d > 0,
    ensures
        (n < i * d) == (cut(n, d) < 2 * i),
        (n == i * d) == (cut(n, d) == 2 * i),
{
    lemma_fundamental_div_mod(n as int, d as int);
    let (q, r, k) = (n as int / d as int, n as int % d as int, d as int);
    if i <= q {
        assert(i * k <= q * k && (i < q ==> i * k + k <= q * k)) by (nonlinear_arith)
            requires
                i <= q,
                k > 0,
        ;
    } else {
        assert(q * k + k <= i * k) by (nonlinear_arith)
            requires
                q + 1 <= i,
                k > 0,
        ;
    }
    assert(q * k == k * q) by (nonlinear_arith);
}

/// Rounding by comparison with the middle.
proof fn lemma_rounded_at(n: nat, d: nat, q: int)
    requires
        d > 0,
        0 <= q,
        q * d <= n < (q + 1) * d,
    ensures
        rounded(n, d) == (if 2 * n < (2 * q + 1) * d || (2 * n == (2 * q + 1) * d && q % 2 == 0) {
            q
        } else {
            q + 1
        }),
{
    let k = d as int;
    assert((q + 1) * k == q * k + k && (2 * q + 1) * k == 2 * (q * k) + k) by (nonlinear_arith);
    lemma_fundamental_div_mod_converse(n as int, k, q, n - q * k);
}

/// The nearest double is that of the cut.
proof fn lemma_cut_steps(n: nat, d: nat, i: nat, e: int)
    requires
        d > 0,
        i > 0,
        !too_coarse(n, d * (2 * i), e),
    ensures
        d * (2 * i) > 0,
        nearest(n, d * (2 * i), e) == nearest(cut(n, d), 4 * i, e),
    decreases steps(n, d * (2 * i), e),
{
    let c = cut(n, d);
    let big = d * (2 * i);
    let (k, h) = (d as int, i as int);
    assert(k * (2 * h) > 0) by (nonlinear_arith)
        requires
            k > 0,
            h > 0,
    ;
    assert((END * (2 * h)) * k == END * (k * (2 * h)) && (START * (2 * h)) * k == START * (k * (2
        * h))) by (nonlinear_arith);
    lemma_cut_compares(n, d, END * (2 * h));
    lemma_cut_compares(n, d, START * (2 * h));
    assert(too_fine(n, big, e) == too_fine(c, 4 * i, e));
    assert(too_coarse(n, big, e) == too_coarse(c, 4 * i, e));
    if too_fine(n, big, e) {
        assert(2 * (k * (2 * h)) == k * (2 * (2 * h))) by (nonlinear_arith);
        lemma_cut_steps(n, d, 2 * i, e + 1);
    } else {
        lemma_fundamental_div_mod(n as int, big as int);
        let q = n as int / big as int;
        let b = big as int;
        assert(q >= 0) by (nonlinear_arith)
            requires
                b > 0,
                n == b * q + n as int % b,
                0 <= n as int % b < b,
                n >= 0,
        ;
        assert(q * b <= n < (q + 1) * b) by (nonlinear_arith)
            requires
                n == b * q + n as int % b,
                0 <= n as int % b < b,
        ;
        lemma_rounded_at(n, big, q);
        assert((q * (2 * h)) * k == q * b && ((q + 1) * (2 * h)) * k == (q + 1) * b)
            by (nonlinear_arith)
            requires
                b == k * (2 * h),
        ;
        lemma_cut_compares(n, d, q * (2 * h));
        lemma_cut_compares(n, d, (q + 1) * (2 * h));
        assert(2 * (q * (2 * h)) == q * (4 * h) && 2 * ((q + 1) * (2 * h)) == (q + 1) * (4 * h))
            by (nonlinear_arith);
        lemma_rounded_at(c, 4 * i, q);
        let mid = (2 * q + 1) * h;
        lemma_cut_compares(n, d, mid);
        assert(2 * (mid * k) == (2 * q + 1) * b && 4 * mid == (2 * q + 1) * (4 * h))
            by (nonlinear_arith)
            requires
                b == k * (2 * h),
                mid == (2 * q + 1) * h,
        ;
    }
}

/// Where a quotient has more digits than count, the nearest double is that of its cut.
pub proof fn lemma_cut(n: nat, d: nat, e: int)
    requires
        d > 0,
        too_fine(n, d, e),
    ensures
        nearest(n, d, e) == nearest(cut(n, d), 2, e),
{
    assert(d * (2 * 1) == 2 * d) by (nonlinear_arith);
    lemma_cut_compares(n, d, END as int);
    lemma_cut_steps(n, d, 1, e + 1);
}

} // verus!
