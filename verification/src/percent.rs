//! Percentages and other fractions with one or two decimals.
use vstd::prelude::*;
use vstd::string::*;

use crate::double::{scaled, Double};
use crate::text::{decimal, push_decimal};

pub mod reading;

verus! {

/// `n` tenths with one decimal: `12.4`.
pub open spec fn tenths_text(n: nat) -> Seq<char> {
    decimal(n / 10).push('.') + decimal(n % 10)
}

/// `n` hundredths with two decimals: `5.40`.
pub open spec fn hundredths_text(n: nat) -> Seq<char> {
    decimal(n / 100).push('.') + decimal(n % 100 / 10) + decimal(n % 10)
}

/// Appends `x` with one decimal, rounded to the nearest (halves to the even one).
pub fn push_tenths(s: &mut String, x: Double)
    requires
        x.can_be_shown(),
    ensures
        final(s)@ == old(s)@ + tenths_text(scaled(x, 10)),
{
    let n: u128 = x.to_scaled(10);
    push_decimal(s, n / 10);
    s.push('.');
    push_decimal(s, n % 10);
    assert(s@ =~= old(s)@ + tenths_text(n as nat));
}

/// Appends `x` with two decimals, rounded to the nearest (halves to the even one).
pub fn push_hundredths(s: &mut String, x: Double)
    requires
        x.can_be_shown(),
    ensures
        final(s)@ == old(s)@ + hundredths_text(scaled(x, 100)),
{
    let n: u128 = x.to_scaled(100);
    push_decimal(s, n / 100);
    s.push('.');
    push_decimal(s, n % 100 / 10);
    push_decimal(s, n % 10);
    assert(s@ =~= old(s)@ + hundredths_text(n as nat));
}

} // verus!
