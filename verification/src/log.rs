//! Lines of the diagnostics log.
use vstd::prelude::*;
use vstd::string::*;

use crate::display::{clock_text, push_clock};
use crate::double::scaled;
use crate::icon::Level;
use crate::monitor::{bytes_text, push_bytes};
use crate::percent::{hundredths_text, push_hundredths};
use crate::status::Status;
use crate::text::{decimal, padded, push_decimal, push_padded};

pub mod lines;

verus! {

/// `yyyy/mm/dd hh:mm:ss`, a space, the text, and the end of the line.
pub open spec fn line_text(
    date: (u16, u16, u16),
    clock: (u16, u16, u16),
    text: Seq<char>,
) -> Seq<char> {
    padded(date.0 as nat, 4).push('/') + padded(date.1 as nat, 2).push('/') + padded(
        date.2 as nat,
        2,
    ).push(' ') + clock_text(clock).push(' ') + text.push('\n')
}

/// A line of the log: year, month and day, hour, minute and second, and the text.
pub fn log_line(date: (u16, u16, u16), clock: (u16, u16, u16), text: &str) -> (s: String)
    ensures
        s@ == line_text(date, clock, text@),
{
    let mut s = String::new();
    push_padded(&mut s, date.0 as u128, 4);
    s.push('/');
    push_padded(&mut s, date.1 as u128, 2);
    s.push('/');
    push_padded(&mut s, date.2 as u128, 2);
    s.push(' ');
    push_clock(&mut s, clock);
    s.push(' ');
    s.append(text);
    s.push('\n');
    assert(s@ =~= line_text(date, clock, text@));
    s
}

/// `true` or `false`.
pub open spec fn flag_text(b: bool) -> Seq<char> {
    if b {
        "true"@
    } else {
        "false"@
    }
}

fn push_flag(s: &mut String, b: bool)
    ensures
        final(s)@ == old(s)@ + flag_text(b),
{
    if b {
        s.append("true");
    } else {
        s.append("false");
    }
}

/// The CPU number with two decimals, -1 if it is not measured.
pub open spec fn cpu_text(st: Status) -> Seq<char> {
    match st.cpu {
        Some(c) => hundredths_text(scaled(c, 100)),
        None => "-1.00"@,
    }
}

/// What the log says of a poll.
pub open spec fn poll_text(
    force: bool,
    relaxed: bool,
    st: Status,
    changed: bool,
    snapshots: u32,
) -> Seq<char> {
    "poll force="@ + flag_text(force) + " relaxed="@ + flag_text(relaxed) + " -> running="@
        + flag_text(st.running) + " pid="@ + decimal(st.pid as nat) + " cpu="@ + cpu_text(st)
        + " mem="@ + bytes_text(st.mem as nat) + " changed="@ + flag_text(changed) + " snapshots="@
        + decimal(snapshots as nat)
}

/// What the log says of a poll.
pub fn poll_line(force: bool, relaxed: bool, st: &Status, changed: bool, snapshots: u32) -> (s:
    String)
    requires
        st.can_be_shown(),
    ensures
        s@ == poll_text(force, relaxed, *st, changed, snapshots),
{
    let mut s = String::new();
    s.append("poll force=");
    push_flag(&mut s, force);
    s.append(" relaxed=");
    push_flag(&mut s, relaxed);
    s.append(" -> running=");
    push_flag(&mut s, st.running);
    s.append(" pid=");
    push_decimal(&mut s, st.pid as u128);
    s.append(" cpu=");
    match st.cpu {
        Some(c) => {
            push_hundredths(&mut s, c);
        },
        None => {
            s.append("-1.00");
        },
    }
    s.append(" mem=");
    push_bytes(&mut s, st.mem);
    s.append(" changed=");
    push_flag(&mut s, changed);
    s.append(" snapshots=");
    push_decimal(&mut s, snapshots as u128);
    assert(s@ =~= poll_text(force, relaxed, *st, changed, snapshots));
    s
}

/// What the log calls a level.
pub open spec fn level_text(lv: Level) -> Seq<char> {
    match lv {
        Level::Off => "Off"@,
        Level::Normal => "Ok"@,
        Level::Warn => "Warn"@,
        Level::High => "High"@,
    }
}

/// What the log says when the icon is drawn in a level.
pub fn icon_line(lv: Level) -> (s: String)
    ensures
        s@ == "icon -> "@ + level_text(lv),
{
    let mut s = String::new();
    s.append("icon -> ");
    match lv {
        Level::Off => s.append("Off"),
        Level::Normal => s.append("Ok"),
        Level::Warn => s.append("Warn"),
        Level::High => s.append("High"),
    }
    s
}

} // verus!
