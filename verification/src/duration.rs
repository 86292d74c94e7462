//! Durations on the command line: `0`, or a sequence of `<number><unit>` terms such as `1m30s` or
//! `1.5h`. They are added up in double precision and rounded to whole nanoseconds.
use vstd::arithmetic::div_mod::{lemma_fundamental_div_mod, lemma_fundamental_div_mod_converse};
use vstd::arithmetic::power2::{lemma2_to64, lemma_pow2_pos, lemma_pow2_strictly_increases, pow2};
use vstd::prelude::*;
use vstd::string::*;

use crate::digits::{all_digits, lemma_pow10_adds, pow10, to_double, value};
use crate::double::exact::{
    lemma_sum_grows, lemma_whole_exact, product_is_exact, sum_is_exact, whole_is_kept,
};
use crate::double::{
    half_up, lemma_bounds, lemma_exponent_above, lemma_nearest_wf, lemma_shifted, lemma_too_little,
    nearest, product, sum, whole, zero, Double, END, LOWEST, START,
};
use crate::text::chars_of;

pub mod fractions;
pub mod spelling;

verus! {

/// No duration is longer than this many nanoseconds.
pub const LONGEST: u64 = 0x8000_0000_0000_0000;

pub open spec fn is_digit(c: char) -> bool {
    '0' <= c && c <= '9'
}

/// The characters of a number.
pub open spec fn in_number(c: char) -> bool {
    is_digit(c) || c == '.'
}

/// Where the number that starts at `i` ends.
pub open spec fn number_end(s: Seq<char>, i: int) -> int
    decreases s.len() - i,
{
    if 0 <= i < s.len() && in_number(s[i]) {
        number_end(s, i + 1)
    } else {
        i
    }
}

/// Where the unit that starts at `i` ends.
pub open spec fn unit_end(s: Seq<char>, i: int) -> int
    decreases s.len() - i,
{
    if 0 <= i < s.len() && !in_number(s[i]) {
        unit_end(s, i + 1)
    } else {
        i
    }
}

/// A number and the unit behind it.
pub struct Term {
    pub number: Seq<char>,
    pub unit: Seq<char>,
}

/// The terms of `s` from `i` on.
pub open spec fn terms(s: Seq<char>, i: int) -> Seq<Term>
    decreases if i < s.len() { s.len() - i } else { 0 },
{
    let a = number_end(s, i);
    let b = unit_end(s, a);
    if i < 0 || i >= s.len() {
        seq![]
    } else {
        seq![Term { number: s.subrange(i, a), unit: s.subrange(a, b) }] + (if b > i {
            terms(s, b)
        } else {
            seq![]
        })
    }
}

/// How many points a number has.
pub open spec fn points(number: Seq<char>) -> nat
    decreases number.len(),
{
    if number.len() == 0 {
        0
    } else {
        points(number.drop_last()) + (if number.last() == '.' {
            1nat
        } else {
            0
        })
    }
}

/// A decimal number: digits, at least one, with at most one point before, between or behind them.
pub open spec fn is_decimal(number: Seq<char>) -> bool {
    points(number) <= 1 && points(number) < number.len()
}

/// The number without its point.
pub open spec fn mantissa(number: Seq<char>) -> nat
    decreases number.len(),
{
    if number.len() == 0 {
        0
    } else if number.last() == '.' {
        mantissa(number.drop_last())
    } else {
        10 * mantissa(number.drop_last()) + (number.last() as int - '0' as int) as nat
    }
}

/// How many digits stand behind the (last) point.
pub open spec fn places(number: Seq<char>) -> nat
    decreases number.len(),
{
    if points(number) == 0 || number.last() == '.' {
        0
    } else {
        1 + places(number.drop_last())
    }
}

/// The nanoseconds in a unit.
pub open spec fn scale(unit: Seq<char>) -> Option<nat> {
    if unit == seq!['n', 's'] {
        Some(1)
    } else if unit == seq!['u', 's'] || unit == seq!['\u{B5}', 's'] || unit == seq![
        '\u{3BC}',
        's',
    ] {
        Some(1_000)
    } else if unit == seq!['m', 's'] {
        Some(1_000_000)
    } else if unit == seq!['s'] {
        Some(1_000_000_000)
    } else if unit == seq!['m'] {
        Some(60_000_000_000)
    } else if unit == seq!['h'] {
        Some(3_600_000_000_000)
    } else {
        None
    }
}

/// A decimal number with a known unit.
pub open spec fn is_term(t: Term) -> bool {
    is_decimal(t.number) && scale(t.unit) is Some
}

/// The number of a term.
pub open spec fn number_of(t: Term) -> Double {
    nearest(mantissa(t.number), pow10(places(t.number)), 0)
}

/// The length of a term in nanoseconds.
pub open spec fn length(t: Term) -> Double {
    product(number_of(t), whole(scale(t.unit)->0))
}

/// The length of all terms together.
pub open spec fn total(ts: Seq<Term>) -> Double
    decreases ts.len(),
{
    if ts.len() == 0 {
        zero()
    } else {
        sum(total(ts.drop_last()), length(ts.last()))
    }
}

/// `s` without one leading plus sign.
pub open spec fn unsigned(s: Seq<char>) -> Seq<char> {
    if s.len() > 0 && s[0] == '+' {
        s.skip(1)
    } else {
        s
    }
}

/// The duration that `s` stands for, in nanoseconds, rounded to whole ones with halves up; `None`
/// if `s` stands for none or for one that is too long.
pub open spec fn duration_of(s: Seq<char>) -> Option<nat> {
    let t = unsigned(s);
    if t == seq!['0'] {
        Some(0)
    } else if t.len() == 0 || exists|k: int|
        0 <= k < terms(t, 0).len() && !is_term(#[trigger] terms(t, 0)[k]) {
        None
    } else if whole(LONGEST as nat).less(total(terms(t, 0))) {
        None
    } else {
        Some(half_up(total(terms(t, 0))))
    }
}

fn is_number_char(c: char) -> (r: bool)
    ensures
        r == in_number(c),
{
    ('0' <= c && c <= '9') || c == '.'
}

/// Finds where the number that starts at `i` ends.
fn find_number_end(s: &Vec<char>, i: usize) -> (a: usize)
    requires
        i <= s@.len(),
    ensures
        a == number_end(s@, i as int),
        i <= a <= s@.len(),
        forall|k: int| i <= k < a ==> in_number(s@[k]),
        a < s@.len() ==> !in_number(s@[a as int]),
{
    let mut a: usize = i;
    while a < s.len() && is_number_char(s[a])
        invariant
            i <= a <= s@.len(),
            number_end(s@, i as int) == number_end(s@, a as int),
            forall|k: int| i <= k < a ==> in_number(s@[k]),
        decreases s@.len() - a,
    {
        a += 1;
    }
    a
}

/// Finds where the unit that starts at `i` ends.
fn find_unit_end(s: &Vec<char>, i: usize) -> (b: usize)
    requires
        i <= s@.len(),
    ensures
        b == unit_end(s@, i as int),
        i <= b <= s@.len(),
        i < s@.len() && !in_number(s@[i as int]) ==> i < b,
{
    let mut b: usize = i;
    while b < s.len() && !is_number_char(s[b])
        invariant
            i <= b <= s@.len(),
            unit_end(s@, i as int) == unit_end(s@, b as int),
            b == i || (i < s@.len() && i < b),
        decreases s@.len() - b,
    {
        b += 1;
    }
    b
}

/// The value of a digit.
fn digit_value(c: char) -> (d: u8)
    requires
        is_digit(c),
    ensures
        d == c as int - '0' as int,
        d <= 9,
{
    (c as u32 - 48) as u8
}

proof fn lemma_places_bounded(number: Seq<char>)
    ensures
        places(number) <= number.len(),
    decreases number.len(),
{
    if number.len() > 0 {
        lemma_places_bounded(number.drop_last());
    }
}

/// Reads the number in `s` from `i` to `a`: its digits, lowest first, and its decimal places.
fn read_number(s: &Vec<char>, i: usize, a: usize) -> (r: Option<(Vec<u8>, usize)>)
    requires
        i <= a <= s@.len(),
        forall|k: int| i <= k < a ==> in_number(s@[k]),
    ensures
        match r {
            Some((d, p)) => {
                let number = s@.subrange(i as int, a as int);
                &&& is_decimal(number)
                &&& all_digits(d@)
                &&& value(d@) == mantissa(number)
                &&& p == places(number)
            },
            None => !is_decimal(s@.subrange(i as int, a as int)),
        },
{
    let ghost number = s@.subrange(i as int, a as int);
    let mut d: Vec<u8> = Vec::new();
    let mut count: usize = 0;
    let mut p: usize = 0;
    let mut k: usize = a;
    proof {
        assert(number.take(a - i) =~= number);
        assert(mantissa(number) * 1 == mantissa(number)) by (nonlinear_arith);
    }
    while k > i
        invariant
            i <= k <= a <= s@.len(),
            number == s@.subrange(i as int, a as int),
            forall|j: int| i <= j < a ==> in_number(s@[j]),
            all_digits(d@),
            count + d@.len() == a - k,
            points(number) == points(number.take(k - i)) + count,
            mantissa(number) == mantissa(number.take(k - i)) * pow10(d@.len()) + value(d@),
            count == 0 ==> places(number) == (if points(number) == 0 {
                0
            } else {
                places(number.take(k - i)) + (a - k)
            }),
            count == 0 ==> p == 0,
            count > 0 ==> p == places(number),
        decreases k,
    {
        let ghost head = number.take(k - i);
        let c: char = s[k - 1];
        proof {
            assert(head.last() == c);
            assert(head.drop_last() =~= number.take(k - i - 1));
            lemma_places_bounded(number);
        }
        if c == '.' {
            if count == 0 {
                p = a - k;
            }
            count += 1;
        } else {
            let x: u8 = digit_value(c);
            proof {
                let m = mantissa(head.drop_last()) as int;
                let q = pow10(d@.len()) as int;
                let y = x as int;
                assert((10 * m + y) * q == m * (10 * q) + y * q) by (nonlinear_arith);
                assert(d@.push(x).drop_last() =~= d@);
            }
            d.push(x);
        }
        k -= 1;
    }
    proof {
        assert(number.take(0) =~= seq![]);
        assert(0 * pow10(d@.len()) == 0) by (nonlinear_arith);
    }
    if count > 1 || d.len() == 0 {
        return None;
    }
    Some((d, p))
}

/// What the units of one and of two characters are.
proof fn lemma_units(unit: Seq<char>)
    ensures
        unit.len() == 1 ==> scale(unit) == (if unit[0] == 's' {
            Some(1_000_000_000nat)
        } else if unit[0] == 'm' {
            Some(60_000_000_000nat)
        } else if unit[0] == 'h' {
            Some(3_600_000_000_000nat)
        } else {
            None
        }),
        unit.len() == 2 && unit[1] == 's' ==> scale(unit) == (if unit[0] == 'n' {
            Some(1nat)
        } else if unit[0] == 'u' || unit[0] == '\u{B5}' || unit[0] == '\u{3BC}' {
            Some(1_000nat)
        } else if unit[0] == 'm' {
            Some(1_000_000nat)
        } else {
            None
        }),
        unit.len() == 2 && unit[1] != 's' ==> scale(unit) is None,
        unit.len() != 1 && unit.len() != 2 ==> scale(unit) is None,
{
    if unit.len() == 1 {
        assert(unit =~= seq![unit[0]]);
    }
    if unit.len() == 2 {
        assert(unit =~= seq![unit[0], unit[1]]);
    }
    assert(seq!['n', 's'].len() == 2 && seq!['n', 's'][0] == 'n' && seq!['n', 's'][1] == 's');
    assert(seq!['u', 's'].len() == 2 && seq!['u', 's'][0] == 'u' && seq!['u', 's'][1] == 's');
    let micro = seq!['\u{B5}', 's'];
    assert(micro.len() == 2 && micro[0] == '\u{B5}' && micro[1] == 's');
    let mu = seq!['\u{3BC}', 's'];
    assert(mu.len() == 2 && mu[0] == '\u{3BC}' && mu[1] == 's');
    assert(seq!['m', 's'].len() == 2 && seq!['m', 's'][0] == 'm' && seq!['m', 's'][1] == 's');
    assert(seq!['s'].len() == 1 && seq!['s'][0] == 's');
    assert(seq!['m'].len() == 1 && seq!['m'][0] == 'm');
    assert(seq!['h'].len() == 1 && seq!['h'][0] == 'h');
}

/// Reads the unit in `s` from `a` to `b`: the nanoseconds in it.
fn read_unit(s: &Vec<char>, a: usize, b: usize) -> (r: Option<u64>)
    requires
        a <= b <= s@.len(),
    ensures
        match r {
            Some(m) => scale(s@.subrange(a as int, b as int)) == Some(m as nat) && m
                <= 3_600_000_000_000,
            None => scale(s@.subrange(a as int, b as int)) is None,
        },
{
    proof {
        lemma_units(s@.subrange(a as int, b as int));
    }
    if b - a == 1 {
        match s[a] {
            's' => Some(1_000_000_000),
            'm' => Some(60_000_000_000),
            'h' => Some(3_600_000_000_000),
            _ => None,
        }
    } else if b - a == 2 && s[a + 1] == 's' {
        match s[a] {
            'n' => Some(1),
            'u' | '\u{B5}' | '\u{3BC}' => Some(1_000),
            'm' => Some(1_000_000),
            _ => None,
        }
    } else {
        None
    }
}

/// The grammar is that of Go's `time.ParseDuration`: `0`, or a sequence of `<number><unit>` terms such as `1m30s` or
/// `1.5h` with the units ns, us (or µs), ms, s, m and h. A number without unit other than 0 is an
/// error, and so is a negative one. In nanoseconds.
pub fn parse_duration(s: &str) -> (r: Option<u64>)
    ensures
        match r {
            Some(ns) => duration_of(s@) == Some(ns as nat),
            None => duration_of(s@) is None,
        },
{
    let mut chars: Vec<char> = chars_of(s);
    if chars.len() > 0 && chars[0] == '+' {
        chars.remove(0);
    }
    let ghost t = chars@;
    assert(t =~= unsigned(s@));
    let n: usize = chars.len();
    assert(seq!['0'].len() == 1 && seq!['0'][0] == '0');
    if n == 1 && chars[0] == '0' {
        assert(t =~= seq!['0']);
        return Some(0);
    }
    if n == 0 {
        return None;
    }
    let ghost all = terms(t, 0);
    let ghost mut seen: Seq<Term> = seq![];
    let mut ns: Double = Double::nothing();
    let mut i: usize = 0;
    assert(seen + all =~= all);
    while i < n
        invariant
            chars@ == t,
            n == t.len(),
            i <= n,
            all == terms(t, 0),
            all == seen + terms(t, i as int),
            forall|k: int| 0 <= k < seen.len() ==> is_term(#[trigger] all[k]),
            ns == total(seen),
            ns.wf(),
            duration_of(s@) == (if exists|k: int| 0 <= k < all.len() && !is_term(#[trigger] all[k]) {
                None
            } else if whole(LONGEST as nat).less(total(all)) {
                None
            } else {
                Some(half_up(total(all)))
            }),
        decreases n - i,
    {
        let a: usize = find_number_end(&chars, i);
        let b: usize = find_unit_end(&chars, a);
        let ghost term = Term {
            number: t.subrange(i as int, a as int),
            unit: t.subrange(a as int, b as int),
        };
        let ghost rest = terms(t, i as int);
        proof {
            assert(a > i || !in_number(t[i as int]));
            assert(b > i);
            assert(rest == seq![term] + terms(t, b as int));
            assert(all[seen.len() as int] == term);
            assert(seen + rest =~= seen.push(term) + terms(t, b as int));
            assert(seen.push(term).drop_last() =~= seen);
        }
        match (read_number(&chars, i, a), read_unit(&chars, a, b)) {
            (Some((d, p)), Some(m)) => {
                match to_double(d, p) {
                    Some(x) => {
                        ns = ns.plus(x.times(Double::of(m)));
                    },
                    None => {
                        proof {
                            if forall|k: int| 0 <= k < all.len() ==> is_term(#[trigger] all[k]) {
                                lemma_number_too_long(term);
                                lemma_too_long(all, seen.len() as int);
                            }
                        }
                        return None;
                    },
                }
                proof {
                    seen = seen.push(term);
                }
            },
            _ => {
                return None;
            },
        }
        i = b;
    }
    assert(terms(t, i as int) =~= seq![]);
    assert(all =~= seen);
    if Double::of(LONGEST).is_less(ns) {
        return None;
    }
    proof {
        lemma_longest(ns);
    }
    Some(ns.to_nearest())
}

/// The longest duration is a double, and what is no longer rounds to no more.
proof fn lemma_longest(x: Double)
    requires
        x.wf(),
    ensures
        whole(LONGEST as nat) == (Double { m: START, e: 11 }),
        !whole(LONGEST as nat).less(x) ==> half_up(x) <= LONGEST,
{
    lemma_bounds();
    lemma2_to64();
    assert(START * pow2(11) == LONGEST);
    lemma_shifted(START as nat, 1, 11, 11);
    lemma_fundamental_div_mod_converse(START as int, 1, START as int, 0);
    assert(nearest(START as nat, 1, 11) == (Double { m: START, e: 11 }));
    if !whole(LONGEST as nat).less(x) {
        let m = x.m as int;
        if x.e == 11 {
            assert(m == START);
        } else if x.e >= 0 {
            let p = pow2(x.e as nat) as int;
            if x.e < 10 {
                lemma_pow2_strictly_increases(x.e as nat, 10);
            }
            assert(m * p <= END * 1024) by (nonlinear_arith)
                requires
                    0 <= m <= END,
                    0 <= p <= 1024,
            ;
        } else {
            let p = pow2((-x.e) as nat) as int;
            lemma_pow2_pos((-x.e) as nat);
            lemma_fundamental_div_mod(2 * m + p, 2 * p);
            let q = (2 * m + p) / (2 * p);
            let r = (2 * m + p) % (2 * p);
            assert(q <= m + 1) by (nonlinear_arith)
                requires
                    2 * m + p == (2 * p) * q + r,
                    0 <= r,
                    p >= 1,
                    m >= 0,
            ;
        }
    }
}

/// A number of 2 to the 64th or more makes a long term.
proof fn lemma_number_too_long(t: Term)
    requires
        is_term(t),
        mantissa(t.number) / pow10(places(t.number)) > u64::MAX,
    ensures
        length(t).e >= 12,
        length(t).m >= START,
{
    let n = mantissa(t.number);
    let d = pow10(places(t.number));
    lemma_pow10_adds(places(t.number), 0);
    lemma_fundamental_div_mod(n as int, d as int);
    lemma_bounds();
    lemma2_to64();
    let q = n as int / d as int;
    assert(n >= START * (d * 4096)) by (nonlinear_arith)
        requires
            n >= d * q,
            q > u64::MAX,
            d >= 1,
            START * 4096 == u64::MAX + 1,
    ;
    assert(n * 1 == n) by (nonlinear_arith);
    lemma_exponent_above(n, d, 0, 0, 12);
    lemma_nearest_wf(n, d, 0);
    let x = number_of(t);
    let s = scale(t.unit)->0;
    lemma_whole_exact(s);
    let k = (-whole(s).e) as nat;
    let (m, p) = (x.m as nat, pow2(k));
    assert(m * (s * p) == (m * s) * p) by (nonlinear_arith);
    lemma_shifted(m * s, 1, x.e as int, k);
    assert(m * s >= START) by (nonlinear_arith)
        requires
            m >= START,
            s >= 1,
    ;
    assert((m * s) * 1 == m * s) by (nonlinear_arith);
    lemma_exponent_above(m * s, 1, x.e as int, 0, 0);
    lemma_nearest_wf(m * s, 1, x.e as int);
}

/// Terms among which there is a long one are too long together.
proof fn lemma_too_long(ts: Seq<Term>, k: int)
    requires
        0 <= k < ts.len(),
        forall|i: int| 0 <= i < ts.len() ==> is_term(#[trigger] ts[i]),
        length(ts[k]).e >= 12,
        length(ts[k]).m >= START,
    ensures
        total(ts).wf(),
        total(ts).e >= 12,
        total(ts).m >= START,
        whole(LONGEST as nat).less(total(ts)),
    decreases ts.len(),
{
    let before = ts.drop_last();
    let last = ts.last();
    assert(is_term(ts[ts.len() - 1]));
    assert forall|i: int| 0 <= i < before.len() implies is_term(#[trigger] before[i]) by {
        assert(before[i] == ts[i]);
    }
    lemma_total_wf(before);
    lemma_length_wf(last);
    lemma_sum_grows(total(before), length(last));
    if k < ts.len() - 1 {
        assert(before[k] == ts[k]);
        lemma_too_long(before, k);
    }
    lemma_longest(total(ts));
}

proof fn lemma_length_wf(t: Term)
    ensures
        length(t).wf(),
{
    lemma_pow10_adds(places(t.number), 0);
    lemma_nearest_wf(
        number_of(t).m as nat * whole(scale(t.unit)->0).m as nat,
        1,
        number_of(t).e + whole(scale(t.unit)->0).e,
    );
}

proof fn lemma_total_wf(ts: Seq<Term>)
    ensures
        total(ts).wf(),
    decreases ts.len(),
{
    if ts.len() > 0 {
        lemma_total_wf(ts.drop_last());
        lemma_length_wf(ts.last());
        lemma_sum_grows(total(ts.drop_last()), length(ts.last()));
    }
}

/// The length of whole-number terms together, in nanoseconds.
pub open spec fn whole_length(ts: Seq<Term>) -> nat
    decreases ts.len(),
{
    if ts.len() == 0 {
        0
    } else {
        whole_length(ts.drop_last()) + scale(ts.last().unit)->0 * mantissa(ts.last().number)
    }
}

proof fn lemma_whole_total(ts: Seq<Term>)
    requires
        forall|k: int|
            0 <= k < ts.len() ==> is_term(#[trigger] ts[k]) && places(ts[k].number) == 0,
        whole_length(ts) < END,
    ensures
        total(ts) == whole(whole_length(ts)),
    decreases ts.len(),
{
    lemma_too_little(0, 1, 0);
    if ts.len() > 0 {
        let before = ts.drop_last();
        assert forall|k: int| 0 <= k < before.len() implies is_term(#[trigger] before[k])
            && places(before[k].number) == 0 by {
            assert(before[k] == ts[k]);
        }
        lemma_whole_total(before);
        assert(is_term(ts[ts.len() - 1]) && places(ts[ts.len() - 1].number) == 0);
        let n = mantissa(ts.last().number);
        let s = scale(ts.last().unit)->0;
        assert(n * s == s * n) by (nonlinear_arith);
        if n == 0 {
            assert(s * n == 0) by (nonlinear_arith)
                requires
                    n == 0,
            ;
            let w = whole(s);
            assert(0 * w.m == 0) by (nonlinear_arith);
            lemma_too_little(0, 1, LOWEST + w.e);
        } else {
            product_is_exact(n, s);
        }
        sum_is_exact(whole_length(before), n * s);
    }
}

/// Whole numbers of units add up exactly: if no term has a decimal place, the duration is the sum
/// of number times unit over all terms, as long as that is less than 2 to the 53rd nanoseconds.
pub proof fn whole_terms_add_up(s: Seq<char>)
    requires
        unsigned(s).len() > 0,
        forall|k: int|
            0 <= k < terms(unsigned(s), 0).len() ==> is_term(#[trigger] terms(unsigned(s), 0)[k])
                && places(terms(unsigned(s), 0)[k].number) == 0,
        whole_length(terms(unsigned(s), 0)) < END,
    ensures
        duration_of(s) == Some(whole_length(terms(unsigned(s), 0))),
{
    let t = unsigned(s);
    let ts = terms(t, 0);
    let w = whole_length(ts);
    if t == seq!['0'] {
        assert(t[0] == '0' && t.len() == 1);
        assert(number_end(t, 1) == 1);
        assert(number_end(t, 0) == 1);
        assert(unit_end(t, 1) == 1);
        assert(ts[0].unit.len() == 0);
        lemma_units(ts[0].unit);
        assert(!is_term(ts[0]));
    }
    lemma_whole_total(ts);
    whole_is_kept(w);
    lemma_nearest_wf(w, 1, 0);
    lemma_longest(whole(w));
    lemma_too_little(0, 1, 0);
    if w > 0 {
        lemma_whole_exact(w);
    }
}

/// Every duration that is accepted is within the limit.
pub proof fn durations_are_limited(s: Seq<char>)
    ensures
        duration_of(s) matches Some(ns) ==> ns <= LONGEST,
{
    let ts = terms(unsigned(s), 0);
    lemma_total_wf(ts);
    lemma_longest(total(ts));
}

/// One or more terms, none with a decimal place.
pub open spec fn is_whole(s: Seq<char>) -> bool {
    &&& s.len() > 0
    &&& forall|k: int|
        0 <= k < terms(s, 0).len() ==> is_term(#[trigger] terms(s, 0)[k]) && places(
            terms(s, 0)[k].number,
        ) == 0
}

proof fn lemma_ends_inside(s: Seq<char>, i: int)
    requires
        0 <= i <= s.len(),
    ensures
        i <= number_end(s, i) <= s.len(),
        i <= unit_end(s, i) <= s.len(),
        i < s.len() ==> number_end(s, i) > i || unit_end(s, i) > i,
    decreases s.len() - i,
{
    if i < s.len() {
        lemma_ends_inside(s, i + 1);
    }
}

proof fn lemma_number_end_before(s: Seq<char>, a: Seq<char>, i: int)
    requires
        0 <= i < a.len() <= s.len(),
        s.take(a.len() as int) == a,
        !in_number(a.last()),
    ensures
        number_end(s, i) == number_end(a, i) < a.len(),
    decreases a.len() - i,
{
    assert(s.take(a.len() as int)[i] == s[i]);
    if i + 1 < a.len() {
        lemma_number_end_before(s, a, i + 1);
    }
}

proof fn lemma_unit_end_before(s: Seq<char>, a: Seq<char>, i: int)
    requires
        0 <= i <= a.len() < s.len(),
        s.take(a.len() as int) == a,
        in_number(s[a.len() as int]),
    ensures
        unit_end(s, i) == unit_end(a, i) <= a.len(),
    decreases a.len() - i,
{
    if i < a.len() {
        assert(s.take(a.len() as int)[i] == s[i]);
        lemma_unit_end_before(s, a, i + 1);
    }
}

/// Up to a place where a unit ends and a number begins, the terms are those of the part before it.
proof fn lemma_terms_before(s: Seq<char>, a: Seq<char>, i: int)
    requires
        0 <= i <= a.len() < s.len(),
        s.take(a.len() as int) == a,
        !in_number(a.last()),
        in_number(s[a.len() as int]),
        a.len() > 0,
    ensures
        terms(s, i) == terms(a, i) + terms(s, a.len() as int),
    decreases a.len() - i,
{
    let n = a.len() as int;
    if i == n {
        assert(terms(a, i) + terms(s, n) =~= terms(s, n));
    } else {
        lemma_ends_inside(a, i);
        lemma_number_end_before(s, a, i);
        let x = number_end(a, i);
        lemma_unit_end_before(s, a, x);
        lemma_ends_inside(a, x);
        let y = unit_end(a, x);
        assert(y > i);
        lemma_terms_before(s, a, y);
        assert(s.subrange(i, x) =~= a.subrange(i, x)) by {
            assert forall|k: int| i <= k < x implies s[k] == a[k] by {
                assert(s.take(n)[k] == s[k]);
            }
        }
        assert(s.subrange(x, y) =~= a.subrange(x, y)) by {
            assert forall|k: int| x <= k < y implies s[k] == a[k] by {
                assert(s.take(n)[k] == s[k]);
            }
        }
        assert(terms(s, i) =~= terms(a, i) + terms(s, n));
    }
}

proof fn lemma_ends_move(s: Seq<char>, b: Seq<char>, i: int, n: int)
    requires
        0 <= i <= b.len(),
        0 <= n,
        s.len() == b.len() + n,
        s.skip(n) == b,
    ensures
        number_end(s, i + n) == number_end(b, i) + n,
        unit_end(s, i + n) == unit_end(b, i) + n,
    decreases b.len() - i,
{
    if i < b.len() {
        assert(s.skip(n)[i] == s[i + n]);
        lemma_ends_move(s, b, i + 1, n);
    }
}

/// The terms of the end of a text are those of the end alone.
proof fn lemma_terms_behind(s: Seq<char>, b: Seq<char>, i: int, n: int)
    requires
        0 <= i <= b.len(),
        0 <= n,
        s.len() == b.len() + n,
        s.skip(n) == b,
    ensures
        terms(s, i + n) == terms(b, i),
    decreases b.len() - i,
{
    if i < b.len() {
        lemma_ends_move(s, b, i, n);
        lemma_ends_inside(b, i);
        let x = number_end(b, i);
        lemma_ends_move(s, b, x, n);
        lemma_ends_inside(b, x);
        let y = unit_end(b, x);
        assert(s.subrange(i + n, x + n) =~= b.subrange(i, x)) by {
            assert forall|k: int| i <= k < x implies s[k + n] == b[k] by {
                assert(s.skip(n)[k] == s[k + n]);
            }
        }
        assert(s.subrange(x + n, y + n) =~= b.subrange(x, y)) by {
            assert forall|k: int| x <= k < y implies s[k + n] == b[k] by {
                assert(s.skip(n)[k] == s[k + n]);
            }
        }
        if y > i {
            lemma_terms_behind(s, b, y, n);
        }
    }
}

/// Where a term begins that is valid, there is a number; valid terms end in a unit.
proof fn lemma_last_is_unit(s: Seq<char>, i: int)
    requires
        0 <= i < s.len(),
        forall|k: int| 0 <= k < terms(s, i).len() ==> is_term(#[trigger] terms(s, i)[k]),
    ensures
        in_number(s[i]),
        !in_number(s.last()),
    decreases s.len() - i,
{
    let ts = terms(s, i);
    let x = number_end(s, i);
    let y = unit_end(s, x);
    lemma_ends_inside(s, i);
    lemma_ends_inside(s, x);
    assert(is_term(ts[0]));
    assert(ts[0].number == s.subrange(i, x));
    assert(ts[0].unit == s.subrange(x, y));
    assert(x > i);
    lemma_units(ts[0].unit);
    assert(y > x);
    lemma_unit_chars(s, x);
    if y < s.len() {
        assert forall|k: int| 0 <= k < terms(s, y).len() implies is_term(
            #[trigger] terms(s, y)[k],
        ) by {
            assert(terms(s, y)[k] == ts[k + 1]);
        }
        lemma_last_is_unit(s, y);
    } else {
        assert(s.last() == s[y - 1]);
    }
}

proof fn lemma_unit_chars(s: Seq<char>, i: int)
    requires
        0 <= i <= s.len(),
    ensures
        forall|k: int| i <= k < unit_end(s, i) ==> !in_number(#[trigger] s[k]),
    decreases s.len() - i,
{
    if i < s.len() && !in_number(s[i]) {
        lemma_unit_chars(s, i + 1);
    }
}

proof fn lemma_lengths_add(a: Seq<Term>, b: Seq<Term>)
    ensures
        whole_length(a + b) == whole_length(a) + whole_length(b),
    decreases b.len(),
{
    if b.len() == 0 {
        assert(a + b =~= a);
    } else {
        lemma_lengths_add(a, b.drop_last());
        assert((a + b).drop_last() =~= a + b.drop_last());
    }
}

/// Whole terms written one behind the other have the terms of both.
proof fn lemma_joined_terms(a: Seq<char>, b: Seq<char>)
    requires
        is_whole(a),
        is_whole(b),
    ensures
        terms(a + b, 0) == terms(a, 0) + terms(b, 0),
        is_whole(a + b),
        unsigned(a + b) == a + b,
        unsigned(a) == a,
{
    let s = a + b;
    let n = a.len() as int;
    lemma_last_is_unit(a, 0);
    lemma_last_is_unit(b, 0);
    assert(s.take(n) =~= a);
    assert(s.skip(n) =~= b);
    assert(s[n] == b[0] && s[0] == a[0]);
    lemma_terms_before(s, a, 0);
    lemma_terms_behind(s, b, 0, n);
    assert forall|k: int| 0 <= k < terms(s, 0).len() implies is_term(#[trigger] terms(s, 0)[k])
        && places(terms(s, 0)[k].number) == 0 by {
        if k < terms(a, 0).len() {
            assert(terms(s, 0)[k] == terms(a, 0)[k]);
        } else {
            assert(terms(s, 0)[k] == terms(b, 0)[k - terms(a, 0).len()]);
        }
    }
}

/// Whole terms written one behind the other add up, in either order, as long as they are less than
/// 2 to the 53rd nanoseconds together.
pub proof fn durations_add_up(a: Seq<char>, b: Seq<char>)
    requires
        is_whole(a),
        is_whole(b),
        whole_length(terms(a, 0)) + whole_length(terms(b, 0)) < END,
    ensures
        duration_of(a) == Some(whole_length(terms(a, 0))),
        duration_of(b) == Some(whole_length(terms(b, 0))),
        duration_of(a + b) == Some((duration_of(a)->0 + duration_of(b)->0) as nat),
        duration_of(b + a) == duration_of(a + b),
{
    lemma_joined_terms(a, b);
    lemma_joined_terms(b, a);
    lemma_lengths_add(terms(a, 0), terms(b, 0));
    lemma_lengths_add(terms(b, 0), terms(a, 0));
    whole_terms_add_up(a);
    whole_terms_add_up(b);
    whole_terms_add_up(a + b);
    whole_terms_add_up(b + a);
}

/// A leading plus sign changes nothing, unless there is one already.
pub proof fn plus_sign_changes_nothing(a: Seq<char>)
    requires
        a.len() == 0 || a[0] != '+',
    ensures
        duration_of(seq!['+'] + a) == duration_of(a),
{
    assert((seq!['+'] + a).skip(1) =~= a);
}

/// A negative duration is refused, whatever it says.
pub proof fn minus_sign_is_refused(a: Seq<char>)
    ensures
        duration_of(seq!['-'] + a) is None,
{
    let s = seq!['-'] + a;
    assert(s[0] == '-');
    assert(unsigned(s) == s);
    assert(seq!['0'][0] == '0');
    assert(number_end(s, 0) == 0);
    assert(terms(s, 0)[0].number =~= seq![]);
    assert(!is_term(terms(s, 0)[0]));
}

} // verus!
