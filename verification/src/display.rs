//! What the user reads: the tooltip and the line with the numbers.
use vstd::prelude::*;
use vstd::string::*;

use crate::double::scaled;
use crate::monitor::{bytes_text, push_bytes};
use crate::percent::{push_tenths, tenths_text};
use crate::status::Status;
use crate::text::{padded, push_padded};
use crate::utf16::{encoded, push_utf16};

pub mod lines;

verus! {

/// `CPU 12.4 %   MEM 5.40 GB (11.2 %)`; CPU shows `...` while it is not measured.
pub open spec fn stats_text(st: Status) -> Seq<char> {
    let cpu = match st.cpu {
        Some(c) => tenths_text(scaled(c, 10)) + " %"@,
        None => "..."@,
    };
    "CPU "@ + cpu + "   MEM "@ + bytes_text(st.mem as nat) + " ("@ + tenths_text(
        scaled(st.mem_pct, 10),
    ) + " %)"@
}

/// `hh:mm:ss`.
pub open spec fn clock_text(t: (u16, u16, u16)) -> Seq<char> {
    padded(t.0 as nat, 2).push(':') + padded(t.1 as nat, 2).push(':') + padded(t.2 as nat, 2)
}

/// State, the numbers, and when they were sampled.
pub open spec fn tooltip_text(st: Status) -> Seq<char> {
    if !st.running {
        "WSL2: stopped"@
    } else {
        "WSL2: running\n"@ + stats_text(st) + match st.updated {
            Some(t) => "\nupdated "@ + clock_text(t),
            None => seq![],
        }
    }
}

/// Appends the line with the numbers.
fn push_stats(s: &mut String, st: &Status)
    requires
        st.can_be_shown(),
    ensures
        final(s)@ == old(s)@ + stats_text(*st),
{
    s.append("CPU ");
    match st.cpu {
        Some(c) => {
            push_tenths(s, c);
            s.append(" %");
        },
        None => {
            s.append("...");
        },
    }
    s.append("   MEM ");
    push_bytes(s, st.mem);
    s.append(" (");
    push_tenths(s, st.mem_pct);
    s.append(" %)");
    assert(s@ =~= old(s)@ + stats_text(*st));
}

/// `CPU 12.4 %   MEM 5.40 GB (11.2 %)`; CPU shows `...` until the second sample after the VM
/// appeared.
pub fn stats_line(st: &Status) -> (s: String)
    requires
        st.can_be_shown(),
    ensures
        s@ == stats_text(*st),
{
    let mut s = String::new();
    push_stats(&mut s, st);
    assert(s@ =~= stats_text(*st));
    s
}

/// Appends `hh:mm:ss`.
pub fn push_clock(s: &mut String, t: (u16, u16, u16))
    ensures
        final(s)@ == old(s)@ + clock_text(t),
{
    push_padded(s, t.0 as u128, 2);
    s.push(':');
    push_padded(s, t.1 as u128, 2);
    s.push(':');
    push_padded(s, t.2 as u128, 2);
    assert(s@ =~= old(s)@ + clock_text(t));
}

/// Tooltip text: state, the stats line, and when it was last sampled.
pub fn tooltip(st: &Status) -> (s: String)
    requires
        st.can_be_shown(),
    ensures
        s@ == tooltip_text(*st),
{
    let mut s = String::new();
    if !st.running {
        s.append("WSL2: stopped");
        assert(s@ =~= tooltip_text(*st));
        return s;
    }
    s.append("WSL2: running\n");
    push_stats(&mut s, st);
    if let Some(t) = st.updated {
        s.append("\nupdated ");
        push_clock(&mut s, t);
    }
    assert(s@ =~= tooltip_text(*st));
    s
}

/// How a fixed buffer of `n` units holds a text: as much of it as leaves room for a NUL, then
/// NULs.
pub open spec fn tip(text: Seq<u16>, n: nat) -> Seq<u16> {
    Seq::new(
        n,
        |i: int|
            if i < text.len() && i < n - 1 {
                text[i]
            } else {
                0
            },
    )
}

/// Copies `s` into a tip (UTF-16 units with the terminator), truncating if needed.
pub fn set_tip(buf: &mut [u16], s: &str)
    requires
        old(buf)@.len() > 0,
    ensures
        final(buf)@ == tip(encoded(s@), old(buf)@.len()),
{
    let mut u: Vec<u16> = Vec::new();
    push_utf16(&mut u, s);
    assert(u@ =~= encoded(s@));
    let n: usize = buf.len();
    let mut i: usize = 0;
    while i < n
        invariant
            n == buf@.len() == old(buf)@.len(),
            i <= n,
            u@ == encoded(s@),
            forall|k: int| 0 <= k < i ==> buf@[k] == tip(encoded(s@), n as nat)[k],
        decreases n - i,
    {
        buf[i] = if i < u.len() && i < n - 1 {
            u[i]
        } else {
            0
        };
        i += 1;
    }
    assert(buf@ =~= tip(encoded(s@), n as nat));
}

/// A tip ends in a NUL, whatever the text, and holds all of a text that leaves room for it.
pub proof fn tip_is_terminated(text: Seq<u16>, n: nat)
    requires
        n > 0,
    ensures
        tip(text, n).len() == n,
        tip(text, n)[n - 1] == 0,
        text.len() < n ==> tip(text, n).take(text.len() as int) == text && tip(
            text,
            n,
        )[text.len() as int] == 0,
        text.len() >= n ==> tip(text, n).take(n - 1) == text.take(n - 1),
{
    if text.len() < n {
        assert(tip(text, n).take(text.len() as int) =~= text);
    } else {
        assert(tip(text, n).take(n - 1) =~= text.take(n - 1));
    }
}

} // verus!
