//! Laws of the load levels: how the shares of CPU and memory and the thresholds decide them.
use vstd::arithmetic::power2::pow2;
use vstd::prelude::*;

use crate::double::exact::lemma_thresholds;
use crate::double::{zero, Double};
use crate::resample::larger;
use crate::settings::Settings;
use crate::status::Status;

use super::{colour, lemma_at_least, level_of, severity, Level};

verus! {

/// Either share alone is enough: a CPU share above the red threshold is red whatever the memory
/// share is, and a memory share above it is red whatever the CPU share is, known or not. In the
/// same way either share alone, once it reaches the orange threshold, is no longer green.
pub proof fn either_share_is_enough(st: Status, s: Settings, c: Double, other: Option<Double>)
    requires
        st.running,
    ensures
        c.exceeds(s.high as nat) ==> level_of(Status { cpu: Some(c), ..st }, s) == Level::High,
        c.exceeds(s.high as nat) ==> level_of(Status { mem_pct: c, cpu: other, ..st }, s)
            == Level::High,
        c.reaches(s.warn as nat) ==> level_of(Status { cpu: Some(c), ..st }, s) != Level::Normal,
        c.reaches(s.warn as nat) ==> level_of(Status { mem_pct: c, cpu: other, ..st }, s)
            != Level::Normal,
{
}

/// Nothing but a share makes a colour: where neither is above the red threshold the icon is not
/// red, and where neither reaches the orange one it is not orange.
pub proof fn no_share_is_no_alarm(st: Status, s: Settings)
    requires
        st.running,
    ensures
        !st.mem_pct.exceeds(s.high as nat) && (st.cpu matches Some(c) ==> !c.exceeds(
            s.high as nat,
        )) ==> level_of(st, s) != Level::High,
        !st.mem_pct.reaches(s.warn as nat) && (st.cpu matches Some(c) ==> !c.reaches(
            s.warn as nat,
        )) ==> level_of(st, s) != Level::Warn,
        level_of(st, s) != Level::Off,
{
}

/// Both shares count alike: exchanging them does not change the level.
pub proof fn shares_count_alike(st: Status, c: Double, s: Settings)
    requires
        st.cpu == Some(c),
    ensures
        level_of(Status { cpu: Some(st.mem_pct), mem_pct: c, ..st }, s) == level_of(st, s),
{
}

/// The level is that of the higher share alone.
pub proof fn higher_share_decides(st: Status, c: Double, s: Settings)
    requires
        st.wf(),
        st.cpu == Some(c),
    ensures
        level_of(st, s) == level_of(
            Status { cpu: None, mem_pct: larger(c, st.mem_pct), ..st },
            s,
        ),
{
    let m = st.mem_pct;
    if c.less(m) {
        lemma_at_least(c, m, s.high as nat);
        lemma_at_least(c, m, s.warn as nat);
    } else {
        lemma_at_least(m, c, s.high as nat);
        lemma_at_least(m, c, s.warn as nat);
    }
}

/// A CPU share that is not known yet counts as none.
pub proof fn unknown_cpu_counts_as_none(st: Status, s: Settings)
    requires
        st.wf(),
    ensures
        level_of(Status { cpu: None, ..st }, s) == level_of(Status { cpu: Some(zero()), ..st }, s),
{
    let m = st.mem_pct;
    lemma_at_least(zero(), m, s.high as nat);
    lemma_at_least(zero(), m, s.warn as nat);
}

/// The level depends on nothing but whether the VM runs, and the two shares.
pub proof fn only_shares_decide(a: Status, b: Status, s: Settings)
    requires
        a.running == b.running,
        a.running ==> a.cpu == b.cpu && a.mem_pct == b.mem_pct,
    ensures
        level_of(a, s) == level_of(b, s),
{
}

/// Raising a threshold never raises the level.
pub proof fn higher_thresholds_are_calmer(st: Status, s: Settings, t: Settings)
    requires
        st.wf(),
        s.warn <= t.warn,
        s.high <= t.high,
    ensures
        severity(level_of(st, t)) <= severity(level_of(st, s)),
{
    lemma_less_is_reached(st.mem_pct, s.warn as nat, t.warn as nat);
    lemma_less_is_reached(st.mem_pct, s.high as nat, t.high as nat);
    if let Some(c) = st.cpu {
        lemma_less_is_reached(c, s.warn as nat, t.warn as nat);
        lemma_less_is_reached(c, s.high as nat, t.high as nat);
    }
}

proof fn lemma_less_is_reached(x: Double, low: nat, high: nat)
    requires
        x.wf(),
        low <= high,
    ensures
        x.exceeds(high) ==> x.exceeds(low),
        x.reaches(high) ==> x.reaches(low),
{
    lemma_thresholds(x, low);
    lemma_thresholds(x, high);
    let p = pow2(4000) as int;
    assert(low * p <= high * p) by (nonlinear_arith)
        requires
            0 <= low <= high,
            p >= 0,
    ;
}

/// Every level has a colour of its own: gray where all three channels are alike, green where green
/// is the strongest, and of the two in which red is the strongest, orange has more than half as
/// much green and no blue, and red has less than a quarter.
pub proof fn colours_tell_levels_apart(a: Level, b: Level)
    ensures
        colour(a).len() == 3,
        a != b ==> colour(a) != colour(b),
        ({
            let c = colour(a);
            match a {
                Level::Off => c[0] == c[1] == c[2],
                Level::Normal => c[1] > 2 * c[0] && c[1] > 2 * c[2],
                Level::Warn => c[0] == 255 && 2 * c[1] > c[0] > c[1] && c[2] == 0,
                Level::High => c[0] == 255 && 4 * c[1] < c[0] && 4 * c[2] < c[0],
            }
        }),
{
    assert(colour(a)[0] == colour(b)[0] && colour(a)[1] == colour(b)[1] && colour(a)[2] == colour(
        b,
    )[2] ==> a == b);
}

} // verus!
