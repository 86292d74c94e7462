//! Laws of stored settings: in which order they are written, and what stored values mean.
use vstd::prelude::*;
use vstd::string::*;

use crate::registry::values::key_failures_are_told;
use crate::registry::{key_failure, key_message};
use crate::text::decimal;
use crate::text::reading::ends_telling;

use super::{loaded, saves, Save, Settings, HIGH_VALUE, WARN_VALUE};

verus! {

/// All calls so far succeeded.
pub open spec fn all_succeeded(codes: Seq<u32>) -> bool {
    forall|i: int| 0 <= i < codes.len() ==> #[trigger] codes[i] == 0
}

/// While every call succeeds, saving creates the key, writes the orange threshold under its name,
/// then the red one under its own, and is then finished; nothing else is ever written.
pub proof fn saving_goes_in_order(s: Settings, sub: Seq<char>, codes: Seq<u32>, step: Save)
    requires
        codes.len() <= 3,
        all_succeeded(codes),
        saves(s, sub, codes, step),
    ensures
        codes.len() == 0 ==> step is Create,
        codes.len() == 1 ==> (step matches Save::Write(name, value) && name@ == WARN_VALUE@ && value
            == s.warn),
        codes.len() == 2 ==> (step matches Save::Write(name, value) && name@ == HIGH_VALUE@ && value
            == s.high),
        codes.len() == 3 ==> (step matches Save::Done(Ok(_))),
{
    assert(seq![0u32].len() == 1);
    assert(seq![0u32, 0u32].len() == 2);
    assert(seq![0u32, 0u32, 0u32].len() == 3);
    assert(codes.len() > 0 ==> codes[0] == 0);
    assert(codes.len() > 1 ==> codes[1] == 0);
    assert(codes.len() > 2 ==> codes[2] == 0);
}

/// The first failure ends saving, and is told with its code, whatever came behind it.
pub proof fn first_failure_ends_saving(
    s: Settings,
    sub: Seq<char>,
    codes: Seq<u32>,
    step: Save,
    k: int,
)
    requires
        codes.len() <= 3,
        0 <= k < codes.len(),
        codes[k] != 0,
        all_succeeded(codes.take(k)),
        saves(s, sub, codes, step),
    ensures
        step matches Save::Done(Err(e)) && ends_telling(
            e@,
            " ("@,
            decimal(codes[k] as nat) + ")"@,
        ) && e@ == key_message(
            if k == 0 {
                "cannot create "@
            } else {
                "cannot write HKCU\\"@
            },
            sub,
            codes[k] as nat,
        ),
{
    assert(seq![0u32].len() == 1 && seq![0u32][0] == 0);
    assert(seq![0u32, 0u32].len() == 2 && seq![0u32, 0u32][0] == 0 && seq![0u32, 0u32][1] == 0);
    assert(seq![0u32, 0u32, 0u32].len() == 3 && seq![0u32, 0u32, 0u32][0] == 0 && seq![
        0u32,
        0u32,
        0u32,
    ][1] == 0 && seq![0u32, 0u32, 0u32][2] == 0);
    assert forall|i: int| 0 <= i < k implies #[trigger] codes[i] == 0 by {
        assert(codes.take(k)[i] == 0);
    }
    if k > 0 {
        assert(codes[0] == 0);
    }
    if k > 1 {
        assert(codes[1] == 0);
    }
    let what = if k == 0 {
        "cannot create "@
    } else {
        "cannot write HKCU\\"@
    };
    key_failures_are_told(what, sub, codes[k]);
    assert(key_failure(what, sub, codes[k]) == Some(key_message(what, sub, codes[k] as nat)));
}

/// The two thresholds are stored under different names.
pub proof fn names_differ()
    ensures
        WARN_VALUE@ != HIGH_VALUE@,
{
    reveal_strlit("WarnThreshold");
    reveal_strlit("HighThreshold");
    assert(WARN_VALUE@[0] == 'W' && HIGH_VALUE@[0] == 'H');
}

/// Stored values are in effect exactly if both are there, both are percentages and orange does not
/// start above red; otherwise it is the same settings every time, as if nothing were stored.
pub proof fn invalid_values_are_as_good_as_none(warn: Option<u32>, high: Option<u32>)
    ensures
        ({
            let s = loaded(warn, high);
            &&& warn is Some && high is Some && warn->0 <= high->0 <= 100 ==> s.warn == warn->0
                && s.high == high->0
            &&& !(warn is Some && high is Some && warn->0 <= high->0 <= 100) ==> s == loaded(
                None,
                None,
            )
            &&& s.warn <= s.high <= 100
        }),
        loaded(None, None) == (Settings { warn: 50, high: 75 }),
{
}

} // verus!
