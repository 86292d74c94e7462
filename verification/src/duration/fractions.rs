//! Laws of fractions: a part of a unit is that part of its nanoseconds.
use vstd::arithmetic::power2::{lemma2_to64, lemma_pow2_adds, lemma_pow2_pos, pow2};
use vstd::prelude::*;

use crate::digits::pow10;
use crate::double::error::{lemma_half_up, lemma_near, lemma_product_near};
use crate::double::exact::{amount, lemma_amount_ordered};
use crate::double::{
    half_up, lemma_bounds, lemma_exponent_above, lemma_exponent_below, lemma_nearest_wf,
    lemma_shifted, nearest, product, rounded, sum, units, whole, zero, Double, BEYOND, END, LOWEST,
    START,
};
use crate::resample::edges::{lemma_product_exponent, lemma_whole_amount};
use crate::text::reading::{is_digit, is_numeral, read_decimal};

use super::spelling::{
    lemma_fraction, lemma_one_term, lemma_pow10_positive, lemma_unit_letters,
};
use super::{
    duration_of, in_number, is_term, length, lemma_longest, scale, terms, total, unsigned, Term,
    LONGEST,
};

verus! {

/// Adding a number to nothing gives the number.
proof fn lemma_nothing_added(y: Double)
    requires
        y.wf(),
        y.m >= START,
        y.e < BEYOND,
    ensures
        sum(zero(), y) == y,
{
    let k = (y.e - LOWEST) as nat;
    let m = y.m as nat;
    lemma_shifted(m, 1, y.e as int, k);
    assert(0 * pow2(0) == 0) by (nonlinear_arith);
    assert(units(zero(), LOWEST as int) == 0);
    assert(rounded(m, 1) == m);
    assert(nearest(m, 1, y.e as int) == y);
}

/// `y` is as near to `r` as the two roundings of a product with a fraction leave it.
proof fn lemma_two_roundings(x: int, y: int, n: int, d: int, k: int, g: int, r: int)
    requires
        g > 0,
        d > 0,
        k > 0,
        n > 0,
        x >= 0,
        (x * d - n * g) * END <= n * g,
        (n * g - x * d) * END <= n * g,
        (y * g - x * (k * g)) * END <= x * (k * g),
        (x * (k * g) - y * g) * END <= x * (k * g),
        r * d == n * k,
        r >= 0,
        6 * r < END,
    ensures
        2 * y < (2 * r + 1) * g,
        2 * y >= (2 * r - 1) * g,
{
    let e = END as int;
    let (p, q, z) = (x * d, n * g, x * k);
    assert((y - z) * e <= z && (z - y) * e <= z) by (nonlinear_arith)
        requires
            (y * g - x * (k * g)) * e <= x * (k * g),
            (x * (k * g) - y * g) * e <= x * (k * g),
            z == x * k,
            g > 0,
    ;
    assert(p <= 2 * q) by (nonlinear_arith)
        requires
            (p - q) * e <= q,
            e >= 1,
            q >= 0,
            q == n * g,
    ;
    let w = y * d;
    let t = p * k;
    let u = q * k;
    assert(z * d == t) by (nonlinear_arith)
        requires
            z == x * k,
            p == x * d,
            t == p * k,
    ;
    assert((w - t) * e <= t && (t - w) * e <= t) by (nonlinear_arith)
        requires
            (y - z) * e <= z,
            (z - y) * e <= z,
            w == y * d,
            t == z * d,
            d > 0,
    ;
    assert((t - u) * e <= u && (u - t) * e <= u && t <= 2 * u) by (nonlinear_arith)
        requires
            (p - q) * e <= q,
            (q - p) * e <= q,
            p <= 2 * q,
            t == p * k,
            u == q * k,
            k > 0,
    ;
    assert((w - u) * e <= 3 * u && (u - w) * e <= 3 * u) by (nonlinear_arith)
        requires
            (w - t) * e <= t,
            (t - w) * e <= t,
            (t - u) * e <= u,
            (u - t) * e <= u,
            t <= 2 * u,
    ;
    let v = r * g;
    assert(u == v * d) by (nonlinear_arith)
        requires
            u == q * k,
            q == n * g,
            v == r * g,
            r * d == n * k,
    ;
    assert((y - v) * e <= 3 * v && (v - y) * e <= 3 * v) by (nonlinear_arith)
        requires
            (w - u) * e <= 3 * u,
            (u - w) * e <= 3 * u,
            w == y * d,
            u == v * d,
            d > 0,
    ;
    assert(6 * v < e * g) by (nonlinear_arith)
        requires
            6 * r < e,
            v == r * g,
            g > 0,
    ;
    assert(2 * (y - v) < g && 2 * (v - y) < g) by (nonlinear_arith)
        requires
            (y - v) * e <= 3 * v,
            (v - y) * e <= 3 * v,
            6 * v < e * g,
            e > 0,
    ;
    assert((2 * r + 1) * g == 2 * v + g && (2 * r - 1) * g == 2 * v - g) by (nonlinear_arith)
        requires
            v == r * g,
    ;
}

/// The double nearest to a fraction is an ordinary number.
proof fn lemma_fraction_range(n: nat, d: nat)
    requires
        0 < n < START,
        0 < d < END,
    ensures
        nearest(n, d, 0).wf(),
        nearest(n, d, 0).m >= START,
        -105 <= nearest(n, d, 0).e <= 1,
{
    let (v, k) = (n as int, d as int);
    lemma_nearest_wf(n, d, 0);
    lemma_bounds();
    lemma_pow2_adds(52, 53);
    assert(n * pow2(105) >= START * (d * pow2(0))) by {
        assert(v * (START * END) >= START * (k * 1)) by (nonlinear_arith)
            requires
                v >= 1,
                k <= END,
        ;
    }
    lemma_exponent_above(n, d, 0, 105, 0);
    assert(n * pow2(0) < END * (d * pow2(0))) by {
        assert(v * 1 < END * (k * 1)) by (nonlinear_arith)
            requires
                v < START,
                k >= 1,
                START <= END,
        ;
    }
    lemma_exponent_below(n, d, 0, 0, 0);
}

/// No duration that is short enough is refused.
proof fn lemma_short_enough(y: Double, r: int)
    requires
        y.wf(),
        0 <= r < END,
        2 * amount(y) < (2 * r + 1) * pow2(4000),
    ensures
        !whole(LONGEST as nat).less(y),
{
    let most = whole(LONGEST as nat);
    lemma_longest(y);
    if most.less(y) {
        lemma_bounds();
        lemma_amount_ordered(most, y);
        lemma_pow2_adds(11, 4000);
        lemma_pow2_pos(4000);
        lemma2_to64();
        let g = pow2(4000) as int;
        assert(pow2(11) == 2048);
        assert(START * (2048 * g) > END * (2 * g)) by (nonlinear_arith)
            requires
                END == 2 * START,
                START > 0,
                g > 0,
        ;
        assert((2 * r + 1) * g <= END * (2 * g)) by (nonlinear_arith)
            requires
                0 <= r < END,
                g > 0,
        ;
    }
}

/// A part of a unit that is a whole number of nanoseconds is exactly that many: digits with a point
/// among them stand for the number divided by ten for each digit behind the point, and that many
/// times the unit, as long as there are no more than 15 digits behind the point, the digits stand
/// for less than 2 to the 52nd, and the duration is less than 2 to the 50th nanoseconds.
pub proof fn fractions_are_exact(a: Seq<char>, b: Seq<char>, unit: Seq<char>, ns: nat)
    requires
        is_numeral(a),
        is_numeral(b),
        scale(unit) is Some,
        0 < read_decimal(a + b) < START,
        pow10(b.len()) < END,
        ns * pow10(b.len()) == read_decimal(a + b) * scale(unit)->0,
        8 * ns < END,
    ensures
        duration_of(a.push('.') + b + unit) == Some(ns),
{
    let number = a.push('.') + b;
    let s = number + unit;
    let t = Term { number, unit };
    let n = read_decimal(a + b);
    let d = pow10(b.len());
    let k = scale(unit)->0;
    lemma_fraction(a, b);
    lemma_unit_letters(unit);
    assert forall|i: int| 0 <= i < number.len() implies in_number(#[trigger] number[i]) by {
        if i < a.len() {
            assert(is_digit(a[i]));
        } else if i > a.len() {
            assert(is_digit(b[i - a.len() - 1]));
        }
    }
    lemma_one_term(number, unit);
    assert(s[0] == number[0] && in_number(number[0]));
    assert(unsigned(s) == s);
    assert(s.len() >= 2);
    if s == seq!['0'] {
        assert(s.len() == 1);
    }
    assert(terms(s, 0)[0] == t);
    if a.len() + b.len() == 0 {
        assert(a + b =~= seq![]);
    }
    assert(is_term(t));
    let ts = terms(s, 0);
    assert(ts.drop_last() =~= seq![]);
    let x = nearest(n, d, 0);
    let w = whole(k);
    let y = product(x, w);
    lemma_pow10_positive(b.len());
    lemma_fraction_range(n, d);
    lemma_whole_amount(k);
    lemma_product_exponent(x, w);
    assert(length(t) == y);
    lemma_nothing_added(y);
    assert(total(ts.drop_last()) == zero());
    assert(total(ts) == y);
    lemma_near(n, d, 0);
    lemma_product_near(x, w);
    lemma_pow2_pos(4000);
    let g = pow2(4000) as int;
    lemma_two_roundings(
        amount(x) as int,
        amount(y) as int,
        n as int,
        d as int,
        k as int,
        g,
        ns as int,
    );
    lemma_half_up(y, ns as int);
    lemma_short_enough(y, ns as int);
    assert(half_up(total(ts)) == ns);
}

} // verus!
