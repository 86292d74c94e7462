//! Natural numbers of any size as decimal digits, lowest digit first.
use vstd::arithmetic::div_mod::{lemma_fundamental_div_mod, lemma_fundamental_div_mod_converse};
use vstd::prelude::*;
use vstd::slice::*;

use crate::double::rest::lemma_cut;
use crate::double::{lemma_bounds, lemma_shifted, nearest, round, Double, END, LOWEST};

verus! {

/// 10 to the `n`th.
pub open spec fn pow10(n: nat) -> nat
    decreases n,
{
    if n == 0 {
        1
    } else {
        10 * pow10((n - 1) as nat)
    }
}

/// The number that the digits stand for, lowest digit first.
pub open spec fn value(d: Seq<u8>) -> nat
    decreases d.len(),
{
    if d.len() == 0 {
        0
    } else {
        value(d.drop_last()) + d.last() as nat * pow10((d.len() - 1) as nat)
    }
}

/// Every element is a digit.
pub open spec fn all_digits(d: Seq<u8>) -> bool {
    forall|i: int| 0 <= i < d.len() ==> #[trigger] d[i] <= 9
}

pub proof fn lemma_pow10_adds(a: nat, b: nat)
    ensures
        pow10(a + b) == pow10(a) * pow10(b),
        pow10(a) >= 1,
    decreases a,
{
    if a == 0 {
        assert(1 * pow10(b) == pow10(b)) by (nonlinear_arith);
    } else {
        lemma_pow10_adds((a - 1) as nat, b);
        let x = pow10((a - 1) as nat) as int;
        let y = pow10(b) as int;
        assert(10 * (x * y) == (10 * x) * y) by (nonlinear_arith);
        assert((a + b - 1) as nat == (a - 1) as nat + b);
    }
}

/// The value of the digits below `k` and of those from `k` on.
pub proof fn lemma_value_splits(d: Seq<u8>, k: int)
    requires
        0 <= k <= d.len(),
    ensures
        value(d) == value(d.take(k)) + pow10(k as nat) * value(d.skip(k)),
    decreases d.len(),
{
    if k == d.len() {
        assert(d.take(k) =~= d);
        assert(d.skip(k) =~= seq![]);
        assert(pow10(k as nat) * 0 == 0) by (nonlinear_arith);
    } else {
        lemma_value_splits(d.drop_last(), k);
        assert(d.drop_last().take(k) =~= d.take(k));
        assert(d.drop_last().skip(k) =~= d.skip(k).drop_last());
        let n = (d.len() - 1 - k) as nat;
        lemma_pow10_adds(k as nat, n);
        assert(d.skip(k).len() - 1 == n);
        let a = pow10(k as nat) as int;
        let b = value(d.skip(k).drop_last()) as int;
        let c = d.last() as int;
        let e = pow10(n) as int;
        assert(a * b + c * (a * e) == a * (b + c * e)) by (nonlinear_arith);
    }
}

/// Digits stand for less than the next power of ten.
pub proof fn lemma_value_bounded(d: Seq<u8>)
    requires
        all_digits(d),
    ensures
        value(d) < pow10(d.len()),
    decreases d.len(),
{
    if d.len() > 0 {
        assert(all_digits(d.drop_last())) by {
            assert forall|i: int| 0 <= i < d.drop_last().len() implies #[trigger] d.drop_last()[i]
                <= 9 by {
                assert(d.drop_last()[i] == d[i]);
            }
        }
        lemma_value_bounded(d.drop_last());
        let p = pow10((d.len() - 1) as nat) as int;
        let x = d.last() as int;
        assert(x <= 9);
        assert(x * p <= 9 * p) by (nonlinear_arith)
            requires
                x <= 9,
                p >= 0,
        ;
    }
}

/// A leading zero changes nothing.
proof fn lemma_leading_zero(d: Seq<u8>)
    ensures
        value(d.push(0)) == value(d),
{
    assert(d.push(0).drop_last() =~= d);
    assert(0 * pow10(d.len()) == 0) by (nonlinear_arith);
}

/// Changing the digit at `k` changes the number by that many `k`th powers of ten.
proof fn lemma_digit_changes(d: Seq<u8>, k: int, x: u8)
    requires
        0 <= k < d.len(),
    ensures
        value(d.update(k, x)) == value(d) + (x - d[k]) * pow10(k as nat),
    decreases d.len(),
{
    let e = d.update(k, x);
    let p = pow10((d.len() - 1) as nat) as int;
    if k == d.len() - 1 {
        assert(e.drop_last() =~= d.drop_last());
        let (a, b) = (d.last() as int, x as int);
        assert(b * p == a * p + (b - a) * p) by (nonlinear_arith);
    } else {
        lemma_digit_changes(d.drop_last(), k, x);
        assert(e.drop_last() =~= d.drop_last().update(k, x));
    }
}

/// Adds `x` to the digit at `pos` and returns what is carried to the next one.
fn add_at(acc: &mut Vec<u8>, pos: usize, x: u64) -> (carry: u64)
    requires
        all_digits(old(acc)@),
        pos <= old(acc)@.len(),
        x <= u64::MAX - 9,
    ensures
        all_digits(final(acc)@),
        pos < final(acc)@.len(),
        pos < old(acc)@.len() ==> final(acc)@.len() == old(acc)@.len(),
        pos == old(acc)@.len() ==> carry == x / 10,
        value(final(acc)@) + carry * pow10((pos + 1) as nat) == value(old(acc)@) + x * pow10(
            pos as nat,
        ),
        carry <= (x + 9) / 10,
{
    let ghost start = value(acc@);
    if pos == acc.len() {
        proof {
            lemma_leading_zero(acc@);
        }
        acc.push(0);
    }
    let ghost before = acc@;
    assert(before[pos as int] <= 9);
    let v: u64 = acc[pos] as u64 + x;
    let digit: u8 = (v % 10) as u8;
    let carry: u64 = v / 10;
    acc[pos] = digit;
    proof {
        lemma_digit_changes(before, pos as int, digit);
        assert(acc@ == before.update(pos as int, digit));
        let p = pow10(pos as nat) as int;
        let (a, b, c, y) = (before[pos as int] as int, digit as int, carry as int, x as int);
        assert(a + y == 10 * c + b);
        assert((b - a) * p + c * (10 * p) == y * p) by (nonlinear_arith)
            requires
                a + y == 10 * c + b,
        ;
    }
    carry
}

/// Adds `m` times the number `d`, shifted up by `shift` digits.
pub fn add_scaled(acc: &mut Vec<u8>, d: &[u8], m: u64, shift: usize)
    requires
        all_digits(old(acc)@),
        all_digits(d@),
        m <= 1_000_000_000_000_000,
    ensures
        all_digits(final(acc)@),
        value(final(acc)@) == value(old(acc)@) + m * value(d@) * pow10(shift as nat),
{
    let ghost start = value(acc@);
    while acc.len() < shift
        invariant
            all_digits(acc@),
            value(acc@) == start,
        decreases shift - acc@.len(),
    {
        proof {
            lemma_leading_zero(acc@);
        }
        acc.push(0);
    }
    let ghost unit = pow10(shift as nat);
    let mut pos: usize = shift;
    let mut i: usize = 0;
    let mut carry: u64 = 0;
    proof {
        assert(d@.take(0) =~= seq![]);
        assert(m * 0 * unit == 0) by (nonlinear_arith);
        assert(0 * pow10(pos as nat) == 0) by (nonlinear_arith);
    }
    while i < d.len()
        invariant
            all_digits(acc@),
            all_digits(d@),
            m <= 1_000_000_000_000_000,
            i <= d@.len(),
            pos == shift + i,
            pos <= acc@.len(),
            unit == pow10(shift as nat),
            carry <= m + 1,
            value(acc@) + carry * pow10(pos as nat) == start + m * value(d@.take(i as int)) * unit,
        decreases d@.len() - i,
    {
        let ghost before = value(acc@) as int;
        let ghost c0 = carry as int;
        let ghost x = d@[i as int];
        assert(x <= 9);
        assert(m * x <= 9 * m) by (nonlinear_arith)
            requires
                x <= 9,
        ;
        carry = add_at(acc, pos, m * (d[i] as u64) + carry);
        proof {
            lemma_pow10_adds(shift as nat, i as nat);
            let p = pow10(pos as nat) as int;
            let t = pow10(i as nat) as int;
            let u = unit as int;
            let (k, y, v) = (m as int, x as int, value(d@.take(i as int)) as int);
            assert(d@.take(i + 1).drop_last() =~= d@.take(i as int));
            assert(value(d@.take(i + 1)) == v + y * t);
            assert((k * y + c0) * p == k * y * p + c0 * p) by (nonlinear_arith);
            assert(k * (v + y * t) * u == k * v * u + k * y * (u * t)) by (nonlinear_arith);
        }
        assert(acc.len() == acc@.len());
        pos += 1;
        i += 1;
    }
    assert(d@.take(i as int) =~= d@);
    while carry > 0
        invariant
            all_digits(acc@),
            m <= 1_000_000_000_000_000,
            pos <= acc@.len(),
            unit == pow10(shift as nat),
            carry <= m + 1,
            value(acc@) + carry * pow10(pos as nat) == start + m * value(d@) * unit,
        decreases carry, acc@.len() - pos,
    {
        carry = add_at(acc, pos, carry);
        assert(acc.len() == acc@.len());
        pos += 1;
    }
    assert(0 * pow10(pos as nat) == 0) by (nonlinear_arith);
}

/// Only zeros stand for 0.
proof fn lemma_nonzero(d: Seq<u8>, k: int)
    requires
        0 <= k < d.len(),
        d[k] != 0,
    ensures
        value(d) > 0,
    decreases d.len(),
{
    let n = (d.len() - 1) as nat;
    if k < n {
        lemma_nonzero(d.drop_last(), k);
    } else {
        lemma_pow10_adds(n, 0);
        let (x, p) = (d.last() as int, pow10(n) as int);
        assert(x * p > 0) by (nonlinear_arith)
            requires
                x > 0,
                p >= 1,
        ;
    }
}

proof fn lemma_zeros(d: Seq<u8>)
    requires
        forall|i: int| 0 <= i < d.len() ==> d[i] == 0,
    ensures
        value(d) == 0,
    decreases d.len(),
{
    if d.len() > 0 {
        lemma_zeros(d.drop_last());
        assert(0 * pow10((d.len() - 1) as nat) == 0) by (nonlinear_arith);
    }
}

/// Whether the number stands for 0.
fn is_zero(d: &[u8]) -> (r: bool)
    ensures
        r == (value(d@) == 0),
{
    let mut i: usize = 0;
    while i < d.len()
        invariant
            i <= d@.len(),
            forall|k: int| 0 <= k < i ==> d@[k] == 0,
        decreases d@.len() - i,
    {
        if d[i] != 0 {
            proof {
                lemma_nonzero(d@, i as int);
            }
            return false;
        }
        i += 1;
    }
    proof {
        lemma_zeros(d@);
    }
    true
}

/// The digits from `places` on as a number, if that is no more than `limit`.
fn whole_part(d: &[u8], places: usize, limit: u64) -> (r: Option<u64>)
    requires
        all_digits(d@),
        places <= d@.len(),
    ensures
        match r {
            Some(h) => h == value(d@.skip(places as int)) && h <= limit,
            None => value(d@.skip(places as int)) > limit,
        },
{
    let mut j: usize = d.len();
    let mut h: u128 = 0;
    assert(d@.skip(j as int) =~= seq![]);
    while j > places
        invariant
            all_digits(d@),
            places <= j <= d@.len(),
                h <= limit,
            h == value(d@.skip(j as int)),
        decreases j,
    {
        let ghost t = d@.skip(j - 1);
        proof {
            lemma_value_splits(t, 1);
            assert(t.skip(1) =~= d@.skip(j as int));
            reveal_with_fuel(value, 2);
            reveal_with_fuel(pow10, 2);
            assert(t.take(1).drop_last() =~= seq![]);
            assert(t.take(1).last() == d@[j - 1]);
            assert(d@[j - 1] as nat * 1 == d@[j - 1] as nat) by (nonlinear_arith);
            assert(value(t) == d@[j - 1] + 10 * h);
        }
        j -= 1;
        h = 10 * h + d[j] as u128;
        if h > limit as u128 {
            proof {
                let all = d@.skip(places as int);
                let k = j - places;
                lemma_value_splits(all, k);
                assert(all.skip(k) =~= d@.skip(j as int));
                lemma_pow10_adds(k as nat, 0);
                let (p, v) = (pow10(k as nat) as int, h as int);
                assert(p * v >= v) by (nonlinear_arith)
                    requires
                        p >= 1,
                        v >= 0,
                ;
            }
            return None;
        }
    }
    Some(h as u64)
}

/// The number divided by 10 to the `places`th: the whole part, and whether something is left;
/// `None` if the whole part is more than `limit`.
fn divided(d: &Vec<u8>, places: usize, limit: u64) -> (r: Option<(u64, bool)>)
    requires
        all_digits(d@),
        places <= d@.len(),
    ensures
        match r {
            Some((q, rest)) => q == value(d@) / pow10(places as nat) && rest == (value(d@) % pow10(
                places as nat,
            ) != 0),
            None => value(d@) / pow10(places as nat) > limit,
        },
{
    let low = slice_subrange(d.as_slice(), 0, places);
    proof {
        assert(low@ =~= d@.take(places as int));
        lemma_value_splits(d@, places as int);
        lemma_value_bounded(low@);
        let (l, w, q) = (
            value(low@) as int,
            value(d@.skip(places as int)) as int,
            pow10(places as nat) as int,
        );
        assert(q * w == w * q) by (nonlinear_arith);
        lemma_fundamental_div_mod_converse(value(d@) as int, q, w, l);
    }
    match whole_part(d.as_slice(), places, limit) {
        None => None,
        Some(q) => Some((q, !is_zero(low))),
    }
}

/// The double nearest to the number divided by 10 to the `places`th; `None` if that is 2 to the
/// 64th or more.
pub fn to_double(digits: Vec<u8>, places: usize) -> (r: Option<Double>)
    requires
        all_digits(digits@),
    ensures
        match r {
            Some(x) => x == nearest(value(digits@), pow10(places as nat), 0) && x.wf(),
            None => value(digits@) / pow10(places as nat) > u64::MAX,
        },
{
    let ghost n = value(digits@);
    let ghost p = pow10(places as nat);
    proof {
        lemma_pow10_adds(places as nat, 0);
    }
    let mut d: Vec<u8> = digits;
    while d.len() < places
        invariant
            all_digits(d@),
            value(d@) == n,
        decreases places - d@.len(),
    {
        proof {
            lemma_leading_zero(d@);
        }
        d.push(0);
    }
    let (first, left) = match divided(&d, places, u64::MAX) {
        Some(r) => r,
        None => {
            return None;
        },
    };
    let mut q: u64 = first;
    let mut rest: bool = left;
    let mut e: i32 = 0;
    while q < END && e >= LOWEST
        invariant
            all_digits(d@),
            places <= d@.len(),
            p == pow10(places as nat),
            p >= 1,
            LOWEST - 1 <= e <= 0,
            q == value(d@) / p,
            rest == (value(d@) % p != 0),
            nearest(value(d@), p, e as int) == nearest(n, p, 0),
        decreases e - LOWEST + 1,
    {
        let mut twice: Vec<u8> = Vec::new();
        add_scaled(&mut twice, d.as_slice(), 2, 0);
        proof {
            let v = value(d@) as int;
            assert(2 * v * 1 == 2 * v) by (nonlinear_arith);
            lemma_shifted(value(d@), p, e as int, 1);
            lemma_bounds();
            assert(v * 2 == 2 * v);
            lemma_fundamental_div_mod(v, p as int);
            let (w, r, k) = (v / p as int, v % p as int, p as int);
            let c: int = if 2 * r >= k {
                1
            } else {
                0
            };
            assert(2 * v == (2 * w + c) * k + (2 * r - c * k)) by (nonlinear_arith)
                requires
                    v == k * w + r,
            ;
            assert(c * k == (if c == 1 {
                k
            } else {
                0
            })) by (nonlinear_arith)
                requires
                    c == 0 || c == 1,
            ;
            lemma_fundamental_div_mod_converse(2 * v, k, 2 * w + c, 2 * r - c * k);
        }
        while twice.len() < places
            invariant
                all_digits(twice@),
                value(twice@) == 2 * value(d@),
            decreases places - twice@.len(),
        {
            proof {
                lemma_leading_zero(twice@);
            }
            twice.push(0);
        }
        e -= 1;
        match divided(&twice, places, u64::MAX) {
            Some((whole, some)) => {
                q = whole;
                rest = some;
            },
            None => {
                return None;
            },
        }
        d = twice;
    }
    proof {
        let v = value(d@) as int;
        lemma_fundamental_div_mod(v, p as int);
        if q >= END {
            assert(v >= END * p) by (nonlinear_arith)
                requires
                    v >= p * q,
                    q >= END,
                    p >= 1,
            ;
        }
        lemma_cut(value(d@), p, e as int);
    }
    Some(round(2 * (q as u128) + (if rest {
        1
    } else {
        0
    }), 2, e))
}

} // verus!
