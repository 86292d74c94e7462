//! Laws of the sample pictures: every state at every size once, each in a file of its own.
use vstd::prelude::*;
use vstd::string::*;

use crate::icon::Level;
use crate::text::decimal;
use crate::text::reading::{ends_telling, numbers_end_where_they_end, tells};

use super::{file_text, is_picture, levels, sizes, state_text, Picture};

verus! {

/// No two states are called the same.
pub proof fn states_differ(a: Level, b: Level)
    requires
        state_text(a) == state_text(b),
    ensures
        a == b,
{
    reveal_strlit("off");
    reveal_strlit("ok");
    reveal_strlit("warn");
    reveal_strlit("high");
    assert("off"@.len() == 3 && "ok"@.len() == 2 && "warn"@.len() == 4 && "high"@.len() == 4);
    assert("warn"@[0] == 'w' && "high"@[0] == 'h');
}

/// No two pictures go into one file.
pub proof fn files_differ(size: usize, lv: Level, other: usize, level: Level)
    requires
        file_text(size, lv) == file_text(other, level),
    ensures
        size == other,
        lv == level,
{
    reveal_strlit("icon-");
    reveal_strlit("-");
    reveal_strlit(".png");
    let r = "-"@ + state_text(lv) + ".png"@;
    let s = "-"@ + state_text(level) + ".png"@;
    assert(file_text(size, lv) =~= "icon-"@ + (decimal(size as nat) + r));
    assert(file_text(other, level) =~= "icon-"@ + (decimal(other as nat) + s));
    assert(file_text(size, lv).skip(5) =~= decimal(size as nat) + r);
    assert(file_text(other, level).skip(5) =~= decimal(other as nat) + s);
    numbers_end_where_they_end(size as nat, r, other as nat, s);
    assert(r.subrange(1, r.len() - 4) =~= state_text(lv));
    assert(s.subrange(1, s.len() - 4) =~= state_text(level));
    states_differ(lv, level);
}

/// A picture goes into the file that is named after its size and its state.
pub proof fn files_are_named_after_the_picture(p: Picture, size: usize, lv: Level)
    requires
        is_picture(p, size, lv),
    ensures
        p.size == size,
        p.level == lv,
        tells(p.file@, "icon-"@, decimal(p.size as nat) + "-"@),
        ends_telling(
            p.file@,
            "-"@,
            (match p.level {
                Level::Off => "off"@,
                Level::Normal => "ok"@,
                Level::Warn => "warn"@,
                Level::High => "high"@,
            }) + ".png"@,
        ),
{
    let none = Seq::<char>::empty();
    let d = decimal(size as nat);
    let state = state_text(lv);
    let after = state + ".png"@;
    assert(p.file@ =~= none + "icon-"@ + (d + "-"@) + after);
    let front = "icon-"@ + d;
    assert(p.file@ =~= front + "-"@ + after);
}

/// The sizes grow, and every state is there at every size, in exactly one place.
pub proof fn every_state_at_every_size(i: int, lv: Level)
    requires
        0 <= i < sizes().len(),
    ensures
        exists|n: int|
            0 <= n < sizes().len() * levels().len() && n / 4 == i && #[trigger] levels()[n % 4]
                == lv,
        forall|n: int, m: int|
            0 <= n && 0 <= m && n / 4 == m / 4 && #[trigger] levels()[n % 4] == #[trigger] levels()[m
                % 4] ==> n == m,
        forall|j: int, k: int| 0 <= j < k < sizes().len() ==> sizes()[j] < sizes()[k],
        levels().len() == 4,
{
    let l = match lv {
        Level::Off => 0int,
        Level::Normal => 1,
        Level::Warn => 2,
        Level::High => 3,
    };
    let n = 4 * i + l;
    assert(n / 4 == i && n % 4 == l);
    assert(levels()[n % 4] == lv);
    assert forall|n: int, m: int|
        0 <= n && 0 <= m && n / 4 == m / 4 && #[trigger] levels()[n % 4] == #[trigger] levels()[m
            % 4] implies n == m by {
        assert(n % 4 == m % 4);
    }
}

} // verus!
