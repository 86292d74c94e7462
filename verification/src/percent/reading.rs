//! Laws of printed fractions: the digits read back, and the point stands where it has to.
use vstd::prelude::*;

use crate::text::decimal;
use crate::text::reading::{
    decimal_reads_back, is_digit, is_numeral, read_decimal, short_numbers_are_short,
};

use super::{hundredths_text, tenths_text};

verus! {

/// The text without the character at `i`.
pub open spec fn without(s: Seq<char>, i: int) -> Seq<char> {
    s.take(i) + s.skip(i + 1)
}

proof fn lemma_read_two(a: Seq<char>, n: nat)
    requires
        n < 10,
        is_numeral(a),
    ensures
        read_decimal(a + decimal(n)) == 10 * read_decimal(a) + n,
        is_numeral(a + decimal(n)),
{
    short_numbers_are_short(n);
    decimal_reads_back(n);
    let s = a + decimal(n);
    assert(s.drop_last() =~= a);
    assert(decimal(n).drop_last() =~= seq![]);
    assert(s.last() == decimal(n)[0]);
    assert(read_decimal(decimal(n).drop_last()) == 0);
    assert forall|i: int| 0 <= i < s.len() implies is_digit(#[trigger] s[i]) by {
        if i >= a.len() {
            assert(is_digit(decimal(n)[i - a.len()]));
        }
    }
}

/// Tenths are printed with one digit behind the point and at least one before it; without the
/// point they read back.
pub proof fn tenths_read_back(n: nat)
    ensures
        ({
            let s = tenths_text(n);
            let p = s.len() - 2;
            &&& p > 0 && s[p] == '.'
            &&& is_numeral(without(s, p))
            &&& read_decimal(without(s, p)) == n
            &&& s.take(p) == decimal(n / 10)
        }),
{
    let s = tenths_text(n);
    decimal_reads_back(n / 10);
    short_numbers_are_short(n % 10);
    lemma_read_two(decimal(n / 10), n % 10);
    assert(without(s, s.len() - 2) =~= decimal(n / 10) + decimal(n % 10));
    assert(s.take(s.len() - 2) =~= decimal(n / 10));
}

/// Hundredths are printed with two digits behind the point and at least one before it; without the
/// point they read back.
pub proof fn hundredths_read_back(n: nat)
    ensures
        ({
            let s = hundredths_text(n);
            let p = s.len() - 3;
            &&& p > 0 && s[p] == '.'
            &&& is_numeral(without(s, p))
            &&& read_decimal(without(s, p)) == n
            &&& s.take(p) == decimal(n / 100)
        }),
{
    let s = hundredths_text(n);
    let t = n % 100 / 10;
    decimal_reads_back(n / 100);
    short_numbers_are_short(t);
    short_numbers_are_short(n % 10);
    lemma_read_two(decimal(n / 100), t);
    lemma_read_two(decimal(n / 100) + decimal(t), n % 10);
    assert(without(s, s.len() - 3) =~= decimal(n / 100) + decimal(t) + decimal(n % 10));
    assert(s.take(s.len() - 3) =~= decimal(n / 100));
    assert(100 * (n / 100) + 10 * t + n % 10 == n);
}

} // verus!
