//! Laws of spelled durations: what numbers, points and units stand for.
use vstd::prelude::*;

use crate::digits::pow10;
use crate::double::exact::lemma_common;
use crate::double::{nearest, END};
use crate::text::decimal;
use crate::text::reading::{decimal_reads_back, is_digit, is_numeral, read_decimal};

use super::{
    duration_of, in_number, is_decimal, is_term, length, lemma_units, mantissa, number_end,
    number_of, places, points, scale, terms, unit_end, unsigned, whole_length, whole_terms_add_up,
    Term,
};

verus! {

/// Each unit is a multiple of the one below it, and the three ways to write microseconds are the
/// same unit.
pub proof fn units_are_multiples()
    ensures
        scale(seq!['n', 's']) == Some(1nat),
        scale(seq!['u', 's']) == Some((1000 * scale(seq!['n', 's'])->0) as nat),
        scale(seq!['\u{B5}', 's']) == scale(seq!['u', 's']),
        scale(seq!['\u{3BC}', 's']) == scale(seq!['u', 's']),
        scale(seq!['m', 's']) == Some((1000 * scale(seq!['u', 's'])->0) as nat),
        scale(seq!['s']) == Some((1000 * scale(seq!['m', 's'])->0) as nat),
        scale(seq!['m']) == Some((60 * scale(seq!['s'])->0) as nat),
        scale(seq!['h']) == Some((60 * scale(seq!['m'])->0) as nat),
{
    lemma_units(seq!['n', 's']);
    lemma_units(seq!['u', 's']);
    lemma_units(seq!['\u{B5}', 's']);
    lemma_units(seq!['\u{3BC}', 's']);
    lemma_units(seq!['m', 's']);
    lemma_units(seq!['s']);
    lemma_units(seq!['m']);
    lemma_units(seq!['h']);
    assert(seq!['n', 's'][0] == 'n');
    assert(seq!['u', 's'][0] == 'u');
    assert(seq!['\u{B5}', 's'][0] == '\u{B5}');
    assert(seq!['\u{3BC}', 's'][0] == '\u{3BC}');
    assert(seq!['m', 's'][0] == 'm');
}

/// A unit has one letter or two, none of them a digit or a point.
pub(crate) proof fn lemma_unit_letters(unit: Seq<char>)
    requires
        scale(unit) is Some,
    ensures
        0 < unit.len() <= 2,
        forall|i: int| 0 <= i < unit.len() ==> !in_number(#[trigger] unit[i]),
{
}

proof fn lemma_number_ends(a: Seq<char>, u: Seq<char>, i: int)
    requires
        0 <= i <= a.len(),
        forall|k: int| 0 <= k < a.len() ==> in_number(#[trigger] a[k]),
        u.len() > 0 ==> !in_number(u[0]),
    ensures
        number_end(a + u, i) == a.len(),
    decreases a.len() - i,
{
    if i < a.len() {
        assert((a + u)[i] == a[i]);
        lemma_number_ends(a, u, i + 1);
    } else if u.len() > 0 {
        assert((a + u)[i] == u[0]);
    }
}

proof fn lemma_unit_ends(a: Seq<char>, u: Seq<char>, i: int)
    requires
        0 <= i <= u.len(),
        forall|k: int| 0 <= k < u.len() ==> !in_number(#[trigger] u[k]),
    ensures
        unit_end(a + u, a.len() + i) == a.len() + u.len(),
    decreases u.len() - i,
{
    if i < u.len() {
        assert((a + u)[a.len() + i] == u[i]);
        lemma_unit_ends(a, u, i + 1);
    }
}

/// A number and a unit behind it are one term.
pub(crate) proof fn lemma_one_term(a: Seq<char>, u: Seq<char>)
    requires
        a.len() > 0,
        forall|k: int| 0 <= k < a.len() ==> in_number(#[trigger] a[k]),
        forall|k: int| 0 <= k < u.len() ==> !in_number(#[trigger] u[k]),
    ensures
        terms(a + u, 0) == seq![Term { number: a, unit: u }],
{
    let s = a + u;
    lemma_number_ends(a, u, 0);
    lemma_unit_ends(a, u, 0);
    assert(s.subrange(0, a.len() as int) =~= a);
    assert(s.subrange(a.len() as int, s.len() as int) =~= u);
    assert(terms(s, s.len() as int) =~= seq![]);
    assert(terms(s, 0) =~= seq![Term { number: a, unit: u }]);
}

proof fn lemma_numeral(d: Seq<char>)
    requires
        is_numeral(d),
    ensures
        points(d) == 0,
        mantissa(d) == read_decimal(d),
        places(d) == 0,
        forall|k: int| 0 <= k < d.len() ==> in_number(#[trigger] d[k]),
    decreases d.len(),
{
    if d.len() > 0 {
        assert(is_digit(d[d.len() - 1]));
        assert forall|k: int| 0 <= k < d.drop_last().len() implies is_digit(
            #[trigger] d.drop_last()[k],
        ) by {
            assert(is_digit(d[k]));
        }
        lemma_numeral(d.drop_last());
        assert forall|k: int| 0 <= k < d.len() implies in_number(#[trigger] d[k]) by {
            assert(is_digit(d[k]));
        }
    }
}

/// A whole number of units is that many times the unit, as long as that is less than 2 to the 53rd
/// nanoseconds.
pub proof fn numbers_count_units(n: nat, unit: Seq<char>)
    requires
        scale(unit) is Some,
        n * scale(unit)->0 < END,
    ensures
        duration_of(decimal(n) + unit) == Some((n * scale(unit)->0) as nat),
{
    let d = decimal(n);
    let s = d + unit;
    decimal_reads_back(n);
    lemma_numeral(d);
    lemma_unit_letters(unit);
    lemma_one_term(d, unit);
    assert(s[0] == d[0] && is_digit(d[0]));
    assert(unsigned(s) == s);
    let t = Term { number: d, unit };
    assert(terms(s, 0)[0] == t);
    assert(is_term(t));
    let ts = seq![t];
    assert(ts.drop_last() =~= seq![]);
    assert(whole_length(ts.drop_last()) == 0);
    assert(whole_length(ts) == scale(unit)->0 * n);
    assert(scale(unit)->0 * n == n * scale(unit)->0) by (nonlinear_arith);
    whole_terms_add_up(s);
}

/// Equal times are equal durations, in whatever unit they are given.
pub proof fn equal_times_are_equal(n: nat, unit: Seq<char>, m: nat, other: Seq<char>)
    requires
        scale(unit) is Some,
        scale(other) is Some,
        n * scale(unit)->0 == m * scale(other)->0,
        n * scale(unit)->0 < END,
    ensures
        duration_of(decimal(n) + unit) == duration_of(decimal(m) + other),
{
    numbers_count_units(n, unit);
    numbers_count_units(m, other);
}

/// A number needs a unit, except that 0 needs none.
pub proof fn numbers_need_a_unit(n: nat)
    ensures
        n == 0 ==> duration_of(decimal(n)) == Some(0nat),
        n > 0 ==> duration_of(decimal(n)) is None,
{
    let d = decimal(n);
    decimal_reads_back(n);
    assert(is_digit(d[0]));
    assert(unsigned(d) == d);
    if n == 0 {
        assert(d =~= seq!['0']);
    } else {
        lemma_numeral(d);
        lemma_one_term(d, seq![]);
        assert(d + Seq::<char>::empty() =~= d);
        assert(d[0] != '0');
        let t = terms(d, 0)[0];
        lemma_units(t.unit);
        assert(scale(t.unit) is None) by {
            if scale(t.unit) is Some {
                lemma_unit_letters(t.unit);
            }
        }
        assert(!is_term(terms(d, 0)[0]));
        assert(d != seq!['0']);
    }
}

pub(crate) proof fn lemma_fraction(a: Seq<char>, b: Seq<char>)
    requires
        is_numeral(a),
        is_numeral(b),
    ensures
        points(a.push('.') + b) == 1,
        places(a.push('.') + b) == b.len(),
        mantissa(a.push('.') + b) == read_decimal(a + b),
    decreases b.len(),
{
    let s = a.push('.') + b;
    if b.len() == 0 {
        lemma_numeral(a);
        assert(s =~= a.push('.'));
        assert(s.drop_last() =~= a);
        assert(a + b =~= a);
    } else {
        let front = b.drop_last();
        assert forall|k: int| 0 <= k < front.len() implies is_digit(#[trigger] front[k]) by {
            assert(is_digit(b[k]));
        }
        assert(is_digit(b[b.len() - 1]));
        lemma_fraction(a, front);
        assert(s.drop_last() =~= a.push('.') + front);
        assert((a + b).drop_last() =~= a + front);
        assert(s.last() == b.last() && (a + b).last() == b.last());
    }
}

proof fn lemma_points_add(a: Seq<char>, b: Seq<char>)
    ensures
        points(a + b) == points(a) + points(b),
    decreases b.len(),
{
    if b.len() == 0 {
        assert(a + b =~= a);
    } else {
        lemma_points_add(a, b.drop_last());
        assert((a + b).drop_last() =~= a + b.drop_last());
        assert((a + b).last() == b.last());
    }
}

/// A number has at most one point, and a point alone is no number.
pub proof fn second_point_is_refused(a: Seq<char>, b: Seq<char>, c: Seq<char>)
    ensures
        !is_decimal(a + seq!['.'] + b + seq!['.'] + c),
        !is_decimal(seq!['.']),
        !is_decimal(seq![]),
{
    let p = seq!['.'];
    assert(p.drop_last() =~= seq![]);
    reveal_with_fuel(points, 2);
    assert(points(p) == 1);
    lemma_points_add(a, p);
    lemma_points_add(a + p, b);
    lemma_points_add(a + p + b, p);
    lemma_points_add(a + p + b + p, c);
}

/// A unit that is not known is refused, whatever the number.
pub proof fn unknown_units_are_refused(n: nat, unit: Seq<char>)
    requires
        scale(unit) is None,
        unit.len() > 0,
        forall|i: int| 0 <= i < unit.len() ==> !in_number(#[trigger] unit[i]),
    ensures
        duration_of(decimal(n) + unit) is None,
{
    let d = decimal(n);
    let s = d + unit;
    decimal_reads_back(n);
    lemma_numeral(d);
    lemma_one_term(d, unit);
    assert(s[0] == d[0] && is_digit(d[0]));
    assert(unsigned(s) == s);
    assert(terms(s, 0)[0] == Term { number: d, unit });
    assert(!is_term(terms(s, 0)[0]));
    assert(s.len() > 1);
    assert(s != seq!['0']);
}

/// A point divides by ten for each digit behind it: the number is the double nearest to its digits
/// divided by that power of ten.
pub proof fn points_divide_by_tens(a: Seq<char>, b: Seq<char>, unit: Seq<char>)
    requires
        is_numeral(a),
        is_numeral(b),
        a.len() + b.len() > 0,
    ensures
        is_decimal(a.push('.') + b),
        number_of(Term { number: a.push('.') + b, unit }) == nearest(
            read_decimal(a + b),
            pow10(b.len()),
            0,
        ),
{
    lemma_fraction(a, b);
}

/// A zero at the end of a fraction changes nothing.
pub proof fn zeros_behind_do_not_count(a: Seq<char>, b: Seq<char>, unit: Seq<char>)
    requires
        is_numeral(a),
        is_numeral(b),
        a.len() + b.len() > 0,
    ensures
        length(Term { number: a.push('.') + b.push('0'), unit }) == length(
            Term { number: a.push('.') + b, unit },
        ),
{
    assert forall|k: int| 0 <= k < b.push('0').len() implies is_digit(#[trigger] b.push('0')[k]) by {
        if k < b.len() {
            assert(is_digit(b[k]));
        }
    }
    lemma_fraction(a, b);
    lemma_fraction(a, b.push('0'));
    assert((a + b.push('0')).drop_last() =~= a + b);
    assert((a + b.push('0')).last() == '0');
    let n = read_decimal(a + b);
    assert(read_decimal(a + b.push('0')) == 10 * n);
    lemma_pow10_positive(b.len());
    lemma_common(n, pow10(b.len()), 0, 10);
}

pub(crate) proof fn lemma_pow10_positive(n: nat)
    ensures
        pow10(n) > 0,
    decreases n,
{
    if n > 0 {
        lemma_pow10_positive((n - 1) as nat);
    }
}

} // verus!
