//! Laws of what the user reads: which number stands where.
use vstd::prelude::*;
use vstd::string::*;

use crate::double::scaled;
use crate::monitor::bytes_text;
use crate::percent::tenths_text;
use crate::status::Status;
use crate::text::padded;
use crate::text::reading::{ends_telling, is_numeral, padded_reads_back, read_decimal, tells};

use super::{clock_text, stats_text, tip, tooltip_text};

verus! {

/// `text` begins with `label` and `value`.
pub open spec fn begins_telling(text: Seq<char>, label: Seq<char>, value: Seq<char>) -> bool {
    exists|after: Seq<char>| text == #[trigger] (label + value + after)
}

/// The line begins with the CPU share in percent, tells the memory, and ends with the share of
/// memory in percent; a CPU share that is not known is three points.
pub proof fn stats_line_tells_the_numbers(st: Status)
    ensures
        st.cpu matches Some(c) ==> begins_telling(
            stats_text(st),
            "CPU "@,
            tenths_text(scaled(c, 10)) + " %"@,
        ),
        st.cpu is None ==> begins_telling(stats_text(st), "CPU "@, "..."@),
        tells(stats_text(st), "MEM "@, bytes_text(st.mem as nat)),
        ends_telling(stats_text(st), " ("@, tenths_text(scaled(st.mem_pct, 10)) + " %)"@),
{
    let text = stats_text(st);
    let mem = bytes_text(st.mem as nat);
    let share = tenths_text(scaled(st.mem_pct, 10));
    let cpu = match st.cpu {
        Some(c) => tenths_text(scaled(c, 10)) + " %"@,
        None => "..."@,
    };
    let rest = "   MEM "@ + mem + " ("@ + share + " %)"@;
    assert(text =~= "CPU "@ + cpu + rest);
    reveal_strlit("   MEM ");
    reveal_strlit("MEM ");
    assert("   MEM "@ =~= seq![' ', ' ', ' '] + "MEM "@);
    let before = "CPU "@ + cpu + seq![' ', ' ', ' '];
    let after = " ("@ + share + " %)"@;
    assert(text =~= before + "MEM "@ + mem + after);
    let front = "CPU "@ + cpu + "   MEM "@ + mem;
    assert(text =~= front + " ("@ + (share + " %)"@));
}

/// A time of day is eight characters, hours, minutes and seconds with colons between them, and
/// each reads back.
pub proof fn clock_reads_back(t: (u16, u16, u16))
    requires
        t.0 < 100,
        t.1 < 100,
        t.2 < 100,
    ensures
        ({
            let s = clock_text(t);
            &&& s.len() == 8
            &&& s[2] == ':' && s[5] == ':'
            &&& is_numeral(s.take(2)) && read_decimal(s.take(2)) == t.0
            &&& is_numeral(s.subrange(3, 5)) && read_decimal(s.subrange(3, 5)) == t.1
            &&& is_numeral(s.skip(6)) && read_decimal(s.skip(6)) == t.2
        }),
{
    padded_reads_back(t.0 as nat, 2);
    padded_reads_back(t.1 as nat, 2);
    padded_reads_back(t.2 as nat, 2);
    let s = clock_text(t);
    assert(s.take(2) =~= padded(t.0 as nat, 2));
    assert(s.subrange(3, 5) =~= padded(t.1 as nat, 2));
    assert(s.skip(6) =~= padded(t.2 as nat, 2));
}

/// The tooltip says whether the VM runs. While it does, it tells the numbers on a line of their
/// own and, if they were sampled, when; while it does not, it says nothing else.
pub proof fn tooltip_tells_the_state(st: Status, other: Status)
    ensures
        !st.running && !other.running ==> tooltip_text(st) == tooltip_text(other),
        st.running && !other.running ==> tooltip_text(st) != tooltip_text(other),
        !st.running ==> tooltip_text(st) == "WSL2: stopped"@,
        st.running ==> begins_telling(tooltip_text(st), "WSL2: running\n"@, stats_text(st)),
        st.running && st.updated is None ==> tooltip_text(st) == "WSL2: running\n"@ + stats_text(
            st,
        ),
        st.running ==> (st.updated matches Some(t) ==> ends_telling(
            tooltip_text(st),
            "\nupdated "@,
            clock_text(t),
        )),
{
    reveal_strlit("WSL2: stopped");
    reveal_strlit("WSL2: running\n");
    assert("WSL2: stopped"@[6] == 's' && "WSL2: running\n"@[6] == 'r');
    if st.running {
        let tail = match st.updated {
            Some(t) => "\nupdated "@ + clock_text(t),
            None => seq![],
        };
        assert(tooltip_text(st) == "WSL2: running\n"@ + stats_text(st) + tail);
        if let Some(t) = st.updated {
            let front = "WSL2: running\n"@ + stats_text(st);
            assert(tooltip_text(st) =~= front + "\nupdated "@ + clock_text(t));
        } else {
            assert(tooltip_text(st) =~= "WSL2: running\n"@ + stats_text(st));
        }
        assert(tooltip_text(st)[6] == 'r');
    }
}

/// A tip holds nothing but the beginning of its text: behind it there are NULs only, and a larger
/// buffer never holds less of the text.
pub proof fn tip_is_the_beginning(text: Seq<u16>, n: nat, m: nat, i: int)
    requires
        0 < n <= m,
        0 <= i < n,
    ensures
        tip(text, n)[i] != 0 ==> i < text.len() && tip(text, n)[i] == text[i] && tip(text, m)[i]
            == text[i],
        i >= text.len() ==> tip(text, n)[i] == 0,
        i < text.len() && i < n - 1 ==> tip(text, n)[i] == text[i],
{
}

} // verus!
