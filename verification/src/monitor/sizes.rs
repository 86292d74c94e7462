//! Laws of measured and shown sizes: proportion, units, rounding and order.
use vstd::arithmetic::power2::pow2;
use vstd::prelude::*;
use vstd::string::*;

use crate::double::cut::{scaling_is_monotone, whole_numbers_scale_exactly};
use crate::double::exact::{
    lemma_common, product_is_exact, quotient_is_exact, quotient_of_wholes,
};
use crate::double::order::{quotient_is_monotone, whole_is_monotone};
use crate::double::{quotient, scaled, whole, zero, END};
use crate::percent::hundredths_text;
use crate::text::decimal;

use super::{bytes_text, cpu_share, lemma_quotient_range, lemma_whole_range, share};

verus! {

/// The CPU number is in proportion to the CPU time, also beyond what the cores could have spent:
/// `p` times the time of all cores is `p` hundred percent.
pub proof fn cpu_share_is_proportional(p: nat, units: u64, ncpu: u32)
    requires
        p >= 1,
        units >= 1,
        ncpu >= 1,
        p * (units * ncpu) * 100 < END,
    ensures
        cpu_share((p * (units * ncpu)) as int, units * 100, ncpu) == whole(100 * p),
{
    let n = ncpu as nat;
    let busy = p * (units * n) as nat;
    let window = (units * 100) as nat;
    let q = p * n;
    assert(busy > 0 && q * window == busy * 100 && q < END && p * n == q && q > 0 && p * 100 < END
        && p < END && p * 100 == 100 * p) by (nonlinear_arith)
        requires
            p >= 1,
            units >= 1,
            n >= 1,
            busy == p * (units * n),
            window == units * 100,
            q == p * n,
            p * (units * n) * 100 < END,
    ;
    product_is_exact(busy, 100);
    quotient_is_exact(q, window);
    quotient_is_exact(p, n);
    product_is_exact(p, 100);
}

/// CPU time that went backwards counts as none, and so does memory of a host whose memory is not
/// known.
pub proof fn nothing_is_no_share(delta: int, elapsed: int, ncpu: u32, bytes: u64)
    requires
        delta <= 0,
    ensures
        cpu_share(delta, elapsed, ncpu) == zero(),
        share(bytes, 0) == zero(),
        !zero().exceeds(0),
{
    assert(0 * pow2((-zero().e) as nat) == 0) by (nonlinear_arith);
}

/// Only the proportion of CPU time and window counts: a window `k` times as long, with `k` times
/// the CPU time in it, gives the same number.
pub proof fn longer_windows_give_the_same(k: nat, delta: nat, elapsed: nat, ncpu: u32)
    requires
        k >= 1,
        delta >= 1,
        elapsed >= 1,
        ncpu >= 1,
        k * delta * 100 < END,
        k * elapsed < END,
    ensures
        cpu_share((k * delta) as int, (k * elapsed) as int, ncpu) == cpu_share(
            delta as int,
            elapsed as int,
            ncpu,
        ),
{
    assert(k * delta > 0 && k * elapsed > 0 && delta * 100 < END && elapsed < END && k * delta * 100
        == k * (delta * 100) && delta * 100 > 0) by (nonlinear_arith)
        requires
            k >= 1,
            delta >= 1,
            elapsed >= 1,
            k * delta * 100 < END,
            k * elapsed < END,
    ;
    product_is_exact(k * delta, 100);
    product_is_exact(delta, 100);
    quotient_of_wholes(k * delta * 100, k * elapsed);
    quotient_of_wholes(delta * 100, elapsed);
    lemma_common(delta * 100, elapsed, 0, k);
}

/// The memory share is in proportion to the memory in use: `p` times the host's memory is `p`
/// hundred percent, and only the proportion counts.
pub proof fn memory_share_is_proportional(p: nat, k: nat, bytes: u64, total: u64)
    requires
        total >= 1,
        k >= 1,
    ensures
        p >= 1 && p * total <= u64::MAX && p * total < END && p * 100 < END ==> share(
            (p * total) as u64,
            total,
        ) == whole(100 * p),
        bytes >= 1 && k * bytes <= u64::MAX && k * total <= u64::MAX && k * bytes < END && k * total
            < END ==> share((k * bytes) as u64, (k * total) as u64) == share(bytes, total),
{
    if p >= 1 && p * total <= u64::MAX && p * total < END && p * 100 < END {
        quotient_is_exact(p, total as nat);
        product_is_exact(p, 100);
        assert(p * 100 == 100 * p);
    }
    if bytes >= 1 && k * bytes <= u64::MAX && k * total <= u64::MAX && k * bytes < END && k * total
        < END {
        let (b, t) = (bytes as nat, total as nat);
        assert(k * b > 0 && k * t > 0 && b < END && t < END) by (nonlinear_arith)
            requires
                k >= 1,
                b >= 1,
                t >= 1,
                k * b < END,
                k * t < END,
        ;
        quotient_of_wholes(k * b, k * t);
        quotient_of_wholes(b, t);
        lemma_common(b, t, 0, k);
    }
}

/// 1 MiB and 1 GiB.
pub const MIB: u64 = 0x10_0000;

pub const GIB: u64 = 0x4000_0000;

/// Below a gigabyte, sizes are whole megabytes, cut off: every size of the same megabyte is shown
/// alike.
pub proof fn megabytes_are_cut_off(mb: nat, extra: nat)
    requires
        mb < 1024,
        extra < MIB,
    ensures
        bytes_text(mb * MIB as nat + extra) == decimal(mb) + " MB"@,
{
    let b = mb * MIB as nat + extra;
    assert(b < 0x4000_0000 && b / 0x10_0000 == mb);
}

/// Whole gigabytes are shown exactly, from the first on.
pub proof fn gigabytes_are_exact(gb: nat)
    requires
        0 < gb,
        gb * GIB < END,
    ensures
        bytes_text(gb * GIB as nat) == decimal(gb) + ".00"@ + " GB"@,
{
    let b = gb * GIB as nat;
    assert(b >= GIB && gb < END && b == gb * GIB) by (nonlinear_arith)
        requires
            0 < gb,
            gb * GIB < END,
            b == gb * GIB,
            GIB == 0x4000_0000,
    ;
    quotient_is_exact(gb, GIB as nat);
    whole_numbers_scale_exactly(gb, 100);
    let n = gb * 100;
    assert(n / 100 == gb && n % 100 == 0 && n % 10 == 0);
    reveal_strlit(".00");
    let s = hundredths_text(n);
    assert(decimal(0) =~= seq!['0']);
    assert(s =~= decimal(gb) + ".00"@);
}

/// The hundredths of a gigabyte that are shown.
pub open spec fn shown_hundredths(b: nat) -> nat {
    scaled(quotient(whole(b), whole(GIB as nat)), 100)
}

/// From a gigabyte on, sizes are hundredths of a gigabyte; a larger size is never shown as fewer
/// of them.
pub proof fn larger_sizes_show_no_less(a: u64, b: u64)
    requires
        GIB <= a <= b,
    ensures
        bytes_text(a as nat) == hundredths_text(shown_hundredths(a as nat)) + " GB"@,
        bytes_text(b as nat) == hundredths_text(shown_hundredths(b as nat)) + " GB"@,
        shown_hundredths(a as nat) <= shown_hundredths(b as nat),
        shown_hundredths(a as nat) >= 100,
{
    lemma_hundredths_grow(a, b);
    lemma_hundredths_grow(GIB, a);
    assert(1 * GIB == GIB);
    quotient_is_exact(1, GIB as nat);
    whole_numbers_scale_exactly(1, 100);
}

proof fn lemma_hundredths_grow(a: u64, b: u64)
    requires
        a <= b,
    ensures
        shown_hundredths(a as nat) <= shown_hundredths(b as nat),
{
    lemma_whole_range(a as nat);
    lemma_whole_range(b as nat);
    lemma_whole_range(GIB as nat);
    whole_is_monotone(a as nat, b as nat);
    quotient_is_monotone(whole(a as nat), whole(b as nat), whole(GIB as nat));
    lemma_quotient_range(whole(a as nat), whole(GIB as nat), 13);
    lemma_quotient_range(whole(b as nat), whole(GIB as nat), 13);
    scaling_is_monotone(
        quotient(whole(a as nat), whole(GIB as nat)),
        quotient(whole(b as nat), whole(GIB as nat)),
        100,
    );
}

} // verus!
