//! Laws of the diagnostics log: what a line says stands in it as it is.
use vstd::prelude::*;
use vstd::string::*;

use crate::display::clock_text;
use crate::display::lines::clock_reads_back;
use crate::double::scaled;
use crate::icon::Level;
use crate::monitor::bytes_text;
use crate::percent::hundredths_text;
use crate::status::Status;
use crate::text::reading::{
    ends_telling, is_numeral, labelled, labels_stand_before_values, padded_reads_back,
    read_decimal, tells,
};
use crate::text::{decimal, padded};

use super::{cpu_text, flag_text, level_text, line_text, poll_text};

verus! {

/// A line begins with a date and a time of day of a fixed width that read back; the text follows
/// as it is, and the line ends there.
pub proof fn line_reads_back(date: (u16, u16, u16), clock: (u16, u16, u16), text: Seq<char>)
    requires
        date.0 < 10000,
        date.1 < 100,
        date.2 < 100,
        clock.0 < 100,
        clock.1 < 100,
        clock.2 < 100,
    ensures
        ({
            let s = line_text(date, clock, text);
            &&& s.len() == 20 + text.len() + 1
            &&& s[4] == '/' && s[7] == '/' && s[10] == ' ' && s[19] == ' '
            &&& is_numeral(s.take(4)) && read_decimal(s.take(4)) == date.0
            &&& is_numeral(s.subrange(5, 7)) && read_decimal(s.subrange(5, 7)) == date.1
            &&& is_numeral(s.subrange(8, 10)) && read_decimal(s.subrange(8, 10)) == date.2
            &&& s.subrange(11, 19) == clock_text(clock)
            &&& s.subrange(20, s.len() - 1) == text
            &&& s.last() == '\n'
        }),
{
    padded_reads_back(date.0 as nat, 4);
    padded_reads_back(date.1 as nat, 2);
    padded_reads_back(date.2 as nat, 2);
    clock_reads_back(clock);
    let s = line_text(date, clock, text);
    assert(s.take(4) =~= padded(date.0 as nat, 4));
    assert(s.subrange(5, 7) =~= padded(date.1 as nat, 2));
    assert(s.subrange(8, 10) =~= padded(date.2 as nat, 2));
    assert(s.subrange(11, 19) =~= clock_text(clock));
    assert(s.subrange(20, s.len() - 1) =~= text);
}

/// A yes is told from a no.
pub proof fn flags_differ(a: bool, b: bool)
    ensures
        flag_text(a) == flag_text(b) <==> a == b,
        a ==> flag_text(a) == "true"@,
        !a ==> flag_text(a) == "false"@,
{
    reveal_strlit("true");
    reveal_strlit("false");
    assert("true"@.len() == 4 && "false"@.len() == 5);
}

/// No two levels are called the same.
pub proof fn levels_differ(a: Level, b: Level)
    ensures
        level_text(a) == level_text(b) ==> a == b,
        level_text(Level::Off) == "Off"@,
        level_text(Level::Normal) == "Ok"@,
        level_text(Level::Warn) == "Warn"@,
        level_text(Level::High) == "High"@,
{
    reveal_strlit("Off");
    reveal_strlit("Ok");
    reveal_strlit("Warn");
    reveal_strlit("High");
    assert("Off"@.len() == 3 && "Ok"@.len() == 2 && "Warn"@.len() == 4 && "High"@.len() == 4);
    assert("Warn"@[0] == 'W' && "High"@[0] == 'H');
}

/// A poll's line says each thing between its own name and the next one.
pub proof fn poll_line_tells_everything(
    force: bool,
    relaxed: bool,
    st: Status,
    changed: bool,
    snapshots: u32,
)
    ensures
        ({
            let text = poll_text(force, relaxed, st, changed, snapshots);
            &&& tells(text, "poll force="@, flag_text(force) + " relaxed="@)
            &&& tells(text, " relaxed="@, flag_text(relaxed) + " -> running="@)
            &&& tells(text, " -> running="@, flag_text(st.running) + " pid="@)
            &&& tells(text, " pid="@, decimal(st.pid as nat) + " cpu="@)
            &&& st.cpu matches Some(c) ==> tells(
                text,
                " cpu="@,
                hundredths_text(scaled(c, 100)) + " mem="@,
            )
            &&& st.cpu is None ==> tells(text, " cpu="@, "-1.00"@ + " mem="@)
            &&& tells(text, " mem="@, bytes_text(st.mem as nat) + " changed="@)
            &&& tells(text, " changed="@, flag_text(changed) + " snapshots="@)
            &&& ends_telling(text, " snapshots="@, decimal(snapshots as nat))
        }),
{
    let none = Seq::<char>::empty();
    let parts = seq![
        ("poll force="@, flag_text(force)),
        (" relaxed="@, flag_text(relaxed)),
        (" -> running="@, flag_text(st.running)),
        (" pid="@, decimal(st.pid as nat)),
        (" cpu="@, cpu_text(st)),
        (" mem="@, bytes_text(st.mem as nat)),
        (" changed="@, flag_text(changed)),
        (" snapshots="@, decimal(snapshots as nat)),
    ];
    assert(labelled(none, parts) == poll_text(force, relaxed, st, changed, snapshots)) by {
        lemma_labels_unfold(parts, 0);
        lemma_labels_unfold(parts, 1);
        lemma_labels_unfold(parts, 2);
        lemma_labels_unfold(parts, 3);
        lemma_labels_unfold(parts, 4);
        lemma_labels_unfold(parts, 5);
        lemma_labels_unfold(parts, 6);
        lemma_labels_unfold(parts, 7);
        assert(parts.take(8) =~= parts);
        assert(none + "poll force="@ =~= "poll force="@);
        assert(parts.take(0) =~= seq![]);
    }
    labels_stand_before_values(none, parts, 0);
    labels_stand_before_values(none, parts, 1);
    labels_stand_before_values(none, parts, 2);
    labels_stand_before_values(none, parts, 3);
    labels_stand_before_values(none, parts, 4);
    labels_stand_before_values(none, parts, 5);
    labels_stand_before_values(none, parts, 6);
    labels_stand_before_values(none, parts, 7);
}

proof fn lemma_labels_unfold(parts: Seq<(Seq<char>, Seq<char>)>, k: int)
    requires
        0 <= k < parts.len(),
    ensures
        labelled(Seq::empty(), parts.take(k + 1)) == labelled(Seq::empty(), parts.take(k))
            + parts[k].0 + parts[k].1,
{
    assert(parts.take(k + 1).drop_last() =~= parts.take(k));
}

} // verus!
