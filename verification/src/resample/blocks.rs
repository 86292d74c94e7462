//! Where the source is a whole number of times as large, the average is that of a block of pixels,
//! exactly.
use vstd::arithmetic::div_mod::lemma_fundamental_div_mod_converse;
use vstd::arithmetic::power2::{lemma_pow2_pos, pow2};
use vstd::prelude::*;

use crate::double::error::rounding_twice_is_rounding_once;
use crate::double::exact::{
    lemma_amount_ordered, lemma_units_at, product_is_exact, quotient_is_exact, quotient_of_wholes,
    sum_is_exact, whole_is_kept,
};
use crate::double::order::whole_is_monotone;
use crate::double::{
    difference, floor, lemma_shifted, lemma_too_little, lower, product, whole, zero, END, START,
};
use crate::grid::{cell, in_grid};
use crate::resample::edges::{lemma_floor, lemma_whole_amount, lemma_zero_product};
use crate::resample::{
    area_mean, averaged, edge, larger, row_mean, smaller, weight, with_value, Mean,
};

verus! {

/// The pixels of row `sy` from column `from` up to `to`, added up.
pub open spec fn row_total(src: Seq<u8>, sw: int, sy: int, from: int, to: int) -> nat
    decreases to - from,
{
    if from >= to {
        0
    } else {
        src[cell(sw, from, sy)] as nat + row_total(src, sw, sy, from + 1, to)
    }
}

/// The pixels of a block, added up: columns `left` up to `right`, rows `from` up to `to`.
pub open spec fn block_total(
    src: Seq<u8>,
    sw: int,
    left: int,
    right: int,
    from: int,
    to: int,
) -> nat
    decreases to - from,
{
    if from >= to {
        0
    } else {
        row_total(src, sw, from, left, right) + block_total(src, sw, left, right, from + 1, to)
    }
}

/// Products with 0 and 1 are exact too.
proof fn lemma_product(a: nat, b: nat)
    requires
        a < END,
        b < END,
        a * b < END,
    ensures
        product(whole(a), whole(b)) == whole(a * b),
{
    lemma_whole_amount(a);
    lemma_whole_amount(b);
    lemma_whole_amount(0);
    if a == 0 {
        assert(0 * b == 0) by (nonlinear_arith);
        lemma_zero_product(whole(b));
    } else if b == 0 {
        assert(a * 0 == 0) by (nonlinear_arith);
        lemma_zero_product(whole(a));
    } else {
        product_is_exact(a, b);
    }
}

/// Whole numbers keep their order strictly.
proof fn lemma_order(a: nat, b: nat)
    requires
        a < END,
        b < END,
    ensures
        whole(a).less(whole(b)) == (a < b),
        smaller(whole(a), whole(b)) == whole(if b < a {
            b
        } else {
            a
        }),
        larger(whole(a), whole(b)) == whole(if a < b {
            b
        } else {
            a
        }),
{
    lemma_whole_less(a, b);
    lemma_whole_less(b, a);
}

proof fn lemma_whole_less(a: nat, b: nat)
    requires
        a < END,
        b < END,
    ensures
        whole(a).less(whole(b)) == (a < b),
{
    let g = pow2(4000) as int;
    lemma_pow2_pos(4000);
    lemma_whole_amount(a);
    lemma_whole_amount(b);
    if a < b {
        if !whole(a).less(whole(b)) {
            lemma_amount_ordered(whole(b), whole(a));
            assert(a * g < b * g) by (nonlinear_arith)
                requires
                    a < b,
                    g > 0,
            ;
        }
    } else {
        whole_is_monotone(b, a);
    }
}

/// The next whole number is 1 more.
proof fn lemma_one_more(s: nat)
    requires
        s + 1 < END,
    ensures
        difference(whole(s + 1), whole(s)) == whole(1),
{
    lemma_whole_amount(s);
    lemma_whole_amount(s + 1);
    let (a, b) = (whole(s + 1), whole(s));
    let e = lower(a.e as int, b.e as int);
    lemma_units_at(s, e);
    lemma_units_at(s + 1, e);
    let k = (-e) as nat;
    let p = pow2(k) as int;
    assert((s + 1) * p - s * p == 1 * p) by (nonlinear_arith);
    lemma_pow2_pos(k);
    lemma_shifted(1, 1, 0, k);
}

/// The whole part of a whole number.
proof fn lemma_whole_floor(n: nat)
    requires
        n < END,
    ensures
        floor(whole(n)) == n,
{
    lemma_whole_amount(n);
    lemma_floor(whole(n));
    lemma_pow2_pos(4000);
    let (v, g) = (floor(whole(n)) as int, pow2(4000) as int);
    assert(v == n) by (nonlinear_arith)
        requires
            v * g <= n * g,
            n * g < (v + 1) * g,
            g > 0,
    ;
}

/// Columns of a whole number of source columns begin at whole numbers.
proof fn lemma_whole_edge(k: nat, dw: nat, x: nat)
    requires
        0 < k,
        0 < dw,
        x <= dw,
        k * dw < END,
    ensures
        edge((k * dw) as int, dw as int, x as int) == whole(x * k),
        x * k <= k * dw,
{
    quotient_is_exact(k, dw);
    assert(x * k <= k * dw && k <= k * dw && dw <= k * dw) by (nonlinear_arith)
        requires
            x <= dw,
            0 < k,
            0 < dw,
    ;
    lemma_product(x, k);
}

/// Each source column inside counts fully.
proof fn lemma_whole_weight(from: nat, to: nat, s: nat)
    requires
        from <= s < to < END,
    ensures
        weight(whole(from), whole(to), s as int) == whole(1),
{
    lemma_order(to, s + 1);
    lemma_order(from, s);
    lemma_one_more(s);
}

/// A mean of whole numbers.
pub open spec fn whole_mean(s: nat, a: nat) -> Mean {
    Mean { sum: whole(s), area: whole(a) }
}

proof fn lemma_row_block(
    src: Seq<u8>,
    sw: int,
    from: nat,
    to: nat,
    sy: int,
    sx: nat,
    s: nat,
    a: nat,
)
    requires
        from <= sx <= to <= sw,
        to < START,
        s <= 255 * a,
        255 * (a + (to - sx)) < START,
    ensures
        row_mean(src, sw, whole(from), whole(to), whole(1), sy, sx as int, whole_mean(s, a))
            == whole_mean(
            s + row_total(src, sw, sy, sx as int, to as int),
            (a + (to - sx)) as nat,
        ),
        s + row_total(src, sw, sy, sx as int, to as int) <= 255 * (a + (to - sx)),
    decreases to - sx,
{
    lemma_order(sx, to);
    if sx < to {
        lemma_whole_weight(from, to, sx);
        let v = src[cell(sw, sx as int, sy)] as nat;
        assert(v * 1 == v && 1 * 1 == 1nat) by (nonlinear_arith);
        lemma_product(v, 1);
        lemma_product(1, 1);
        sum_is_exact(s, v);
        sum_is_exact(a, 1);
        assert(with_value(whole_mean(s, a), src[cell(sw, sx as int, sy)], whole(1), whole(1))
            == whole_mean(s + v, a + 1));
        lemma_row_block(src, sw, from, to, sy, sx + 1, s + v, a + 1);
    }
}

proof fn lemma_area_block(
    src: Seq<u8>,
    sw: int,
    sh: int,
    left: nat,
    right: nat,
    top: nat,
    bottom: nat,
    sy: nat,
    s: nat,
    a: nat,
)
    requires
        left < right <= sw,
        right < START,
        top <= sy <= bottom <= sh,
        bottom < START,
        s <= 255 * a,
        255 * (a + (right - left) * (bottom - sy)) < START,
    ensures
        area_mean(
            src,
            sw,
            sh,
            whole(left),
            whole(right),
            whole(top),
            whole(bottom),
            sy as int,
            whole_mean(s, a),
        ) == whole_mean(
            s + block_total(src, sw, left as int, right as int, sy as int, bottom as int),
            (a + (right - left) * (bottom - sy)) as nat,
        ),
    decreases bottom - sy,
{
    lemma_order(sy, bottom);
    let w = right - left;
    if sy < bottom {
        lemma_whole_weight(top, bottom, sy);
        lemma_whole_floor(left);
        assert(w * (bottom - sy) == w + w * (bottom - sy - 1)) by (nonlinear_arith);
        assert(w * (bottom - sy - 1) >= 0) by (nonlinear_arith)
            requires
                w >= 0,
                bottom - sy - 1 >= 0,
        ;
        lemma_row_block(src, sw, left, right, sy as int, left, s, a);
        let s2 = s + row_total(src, sw, sy as int, left as int, right as int);
        lemma_area_block(
            src,
            sw,
            sh,
            left,
            right,
            top,
            bottom,
            sy + 1,
            s2,
            (a + w) as nat,
        );
    } else {
        assert(w * (bottom - sy) == 0) by (nonlinear_arith)
            requires
                bottom - sy == 0,
        ;
    }
}

proof fn lemma_row_total_bound(src: Seq<u8>, sw: int, sy: int, from: int, to: int)
    requires
        from <= to,
    ensures
        row_total(src, sw, sy, from, to) <= 255 * (to - from),
    decreases to - from,
{
    if from < to {
        lemma_row_total_bound(src, sw, sy, from + 1, to);
    }
}

proof fn lemma_block_total_bound(
    src: Seq<u8>,
    sw: int,
    left: int,
    right: int,
    from: int,
    to: int,
)
    requires
        left <= right,
        from <= to,
    ensures
        block_total(src, sw, left, right, from, to) <= 255 * ((right - left) * (to - from)),
    decreases to - from,
{
    let w = right - left;
    if from < to {
        lemma_row_total_bound(src, sw, from, left, right);
        lemma_block_total_bound(src, sw, left, right, from + 1, to);
        assert(w * (to - from) == w + w * (to - from - 1)) by (nonlinear_arith);
    } else {
        assert(w * (to - from) == 0) by (nonlinear_arith)
            requires
                to - from == 0,
        ;
    }
}

/// Where the source is `k` times as wide and `l` times as high, every destination pixel is the
/// average of its `k` by `l` block, to the nearest whole number, halves up.
pub proof fn blocks_are_averaged(
    src: Seq<u8>,
    k: nat,
    l: nat,
    dw: nat,
    dh: nat,
    x: nat,
    y: nat,
)
    requires
        0 < k,
        0 < l,
        in_grid(dw as int, dh as int, x as int, y as int),
        k * dw < START,
        l * dh < START,
        255 * (k * l) < START,
    ensures
        ({
            let total = block_total(
                src,
                (k * dw) as int,
                (x * k) as int,
                (x * k + k) as int,
                (y * l) as int,
                (y * l + l) as int,
            );
            averaged(
                src,
                (k * dw) as int,
                (l * dh) as int,
                dw as int,
                dh as int,
                x as int,
                y as int,
            ) == (2 * total + k * l) / (2 * (k * l))
        }),
{
    let (sw, sh) = (k * dw, l * dh);
    lemma_whole_edge(k, dw, x);
    lemma_whole_edge(k, dw, x + 1);
    lemma_whole_edge(l, dh, y);
    lemma_whole_edge(l, dh, y + 1);
    assert((x + 1) * k == x * k + k && (y + 1) * l == y * l + l && k * l > 0) by (nonlinear_arith)
        requires
            k > 0,
            l > 0,
    ;
    let (left, top) = (x * k, y * l);
    let area = k * l;
    lemma_whole_floor(top);
    lemma_too_little(0, 1, 0);
    lemma_area_block(
        src,
        sw as int,
        sh as int,
        left,
        left + k,
        top,
        top + l,
        top,
        0,
        0,
    );
    let total = block_total(
        src,
        sw as int,
        left as int,
        (left + k) as int,
        top as int,
        (top + l) as int,
    );
    lemma_block_total_bound(
        src,
        sw as int,
        left as int,
        (left + k) as int,
        top as int,
        (top + l) as int,
    );
    lemma_order(0, area);
    let b = 2 * total + area;
    assert(0 <= b / (2 * area) <= 255) by (nonlinear_arith)
        requires
            b == 2 * total + area,
            total <= 255 * area,
            area > 0,
    ;
    if total > 0 {
        quotient_of_wholes(total, area);
        rounding_twice_is_rounding_once(total, area);
    } else {
        let w = whole(area);
        lemma_whole_amount(area);
        lemma_too_little(0, w.m as nat, zero().e - w.e);
        whole_is_kept(0);
        lemma_fundamental_div_mod_converse(
            area as int,
            2 * area as int,
            0,
            area as int,
        );
    }
}

} // verus!
