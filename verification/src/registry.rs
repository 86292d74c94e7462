//! What the registry's answers mean, and what is written to it beside the settings.
use vstd::prelude::*;
use vstd::slice::*;
use vstd::string::*;

use crate::argv::{command_line, command_line_splits_back, push_arguments, split};
use crate::text::{
    chars_of, eq_ignore_ascii_case, numbered, numbered_text, push_chars, push_decimal,
    same_but_ascii_case, string_of, text_of, texts,
};
use crate::utf16::{decode_utf16, decoded};
use crate::win32::{REG_DWORD, REG_EXPAND_SZ, REG_SZ};

pub mod values;

verus! {

/// Per-user autostart key and the value name written there by "Start with Windows".
pub const RUN_KEY: &'static str = "Software\\Microsoft\\Windows\\CurrentVersion\\Run";

pub const RUN_VALUE: &'static str = "WSLTray";

/// Where Explorer keeps its settings of each tray icon, relative to `HKEY_CURRENT_USER`.
pub const NOTIFY_ICONS: &'static str = "Control Panel\\NotifyIconSettings";

/// A message about a registry key: `what`, the key, ` (`, the error code, `)`.
pub open spec fn key_message(what: Seq<char>, sub: Seq<char>, code: nat) -> Seq<char> {
    numbered_text(what + sub + " ("@, code, ")"@)
}

/// A message about a registry key.
pub fn key_error(what: &str, sub: &str, code: u32) -> (s: String)
    ensures
        s@ == key_message(what@, sub@, code as nat),
{
    let mut s = String::new();
    s.append(what);
    s.append(sub);
    s.append(" (");
    push_decimal(&mut s, code as u128);
    s.append(")");
    assert(s@ =~= key_message(what@, sub@, code as nat));
    s
}

/// What is said where a call on the key `sub` returned `code`; `None` where that is success.
pub open spec fn key_failure(what: Seq<char>, sub: Seq<char>, code: u32) -> Option<Seq<char>> {
    if code == 0 {
        None
    } else {
        Some(key_message(what, sub, code as nat))
    }
}

/// The outcome of opening the key `sub`: 0 is success.
pub fn open_result(sub: &str, code: u32) -> (r: Result<(), String>)
    ensures
        match r {
            Ok(_) => key_failure("cannot open "@, sub@, code) is None,
            Err(e) => key_failure("cannot open "@, sub@, code) == Some(e@),
        },
{
    if code != 0 {
        return Err(key_error("cannot open ", sub, code));
    }
    Ok(())
}

/// The outcome of creating the key `sub`: 0 is success.
pub fn create_result(sub: &str, code: u32) -> (r: Result<(), String>)
    ensures
        match r {
            Ok(_) => key_failure("cannot create "@, sub@, code) is None,
            Err(e) => key_failure("cannot create "@, sub@, code) == Some(e@),
        },
{
    if code != 0 {
        return Err(key_error("cannot create ", sub, code));
    }
    Ok(())
}

/// The units before the first NUL.
pub open spec fn before_nul(u: Seq<u16>) -> Seq<u16>
    decreases u.len(),
{
    if u.len() == 0 || u[0] == 0 {
        seq![]
    } else {
        seq![u[0]] + before_nul(u.skip(1))
    }
}

/// The units before the first NUL.
fn take_before_nul(u: &[u16]) -> (r: &[u16])
    ensures
        r@ == before_nul(u@),
{
    let n: usize = u.len();
    let mut i: usize = 0;
    assert(u@.skip(0) =~= u@);
    assert(u@.take(0) + before_nul(u@) =~= before_nul(u@));
    while i < n && u[i] != 0
        invariant
            i <= n == u@.len(),
            before_nul(u@) == u@.take(i as int) + before_nul(u@.skip(i as int)),
        decreases n - i,
    {
        proof {
            let rest = u@.skip(i as int);
            assert(rest.skip(1) =~= u@.skip(i + 1));
            assert(u@.take(i as int) + (seq![rest[0]] + before_nul(rest.skip(1))) =~= u@.take(
                i + 1,
            ) + before_nul(u@.skip(i + 1)));
        }
        i += 1;
    }
    assert(before_nul(u@.skip(i as int)) =~= seq![]);
    assert(u@.subrange(0, i as int) =~= before_nul(u@));
    slice_subrange(u, 0, i)
}

/// The text of a string value as read into `buf`: what stands before the first NUL in the first
/// `len` bytes.
pub open spec fn string_value(code: u32, typ: u32, buf: Seq<u16>, len: u32) -> Option<Seq<char>> {
    if code == 0 && (typ == REG_SZ || typ == REG_EXPAND_SZ) {
        Some(
            decoded(
                before_nul(
                    if len / 2 < buf.len() {
                        buf.take(len as int / 2)
                    } else {
                        buf
                    },
                ),
            ),
        )
    } else {
        None
    }
}

/// A string value as read into `buf`: `code` is 0 where the query succeeded, `len` the size of
/// the value in bytes. `None` if absent or of another type than a string.
pub fn read_string(code: u32, typ: u32, buf: &[u16], len: u32) -> (r: Option<String>)
    ensures
        text_of(r) == string_value(code, typ, buf@, len),
{
    if code != 0 || (typ != REG_SZ && typ != REG_EXPAND_SZ) {
        return None;
    }
    let n: usize = if (len as usize) / 2 < buf.len() {
        len as usize / 2
    } else {
        buf.len()
    };
    let text = slice_subrange(buf, 0, n);
    proof {
        assert(buf@.subrange(0, n as int) =~= buf@.take(n as int));
        assert(buf@.take(buf@.len() as int) =~= buf@);
    }
    Some(string_of(decode_utf16(take_before_nul(text)).as_slice()))
}

/// A number value, where there is one.
pub open spec fn number_value(code: u32, typ: u32, value: u32) -> Option<u32> {
    if code == 0 && typ == REG_DWORD {
        Some(value)
    } else {
        None
    }
}

/// A number value: `code` is 0 where the query succeeded. `None` if absent or of another type.
pub fn read_dword(code: u32, typ: u32, value: u32) -> (r: Option<u32>)
    ensures
        r == number_value(code, typ, value),
{
    if code == 0 && typ == REG_DWORD {
        Some(value)
    } else {
        None
    }
}

/// The name in the first `n` units, where there is one.
pub open spec fn name_value(code: u32, name: Seq<u16>, n: int) -> Option<Seq<char>> {
    if code == 0 {
        Some(decoded(name.take(n)))
    } else {
        None
    }
}

/// The name of a subkey, `n` units long: `code` is 0 where there is one.
pub fn subkey_name(code: u32, name: &[u16], n: usize) -> (r: Option<String>)
    requires
        code == 0 ==> n <= name@.len(),
    ensures
        text_of(r) == name_value(code, name@, n as int),
{
    if code != 0 {
        return None;
    }
    let text = slice_subrange(name, 0, n);
    assert(text@ =~= name@.take(n as int));
    Some(string_of(decode_utf16(text).as_slice()))
}

/// The autostart value: the quoted launch path followed by this instance's own arguments, quoted
/// where they have to be, so that an autostarted copy gets the same arguments and behaves the same.
pub fn run_value(exe: &str, args: &Vec<String>) -> (s: String)
    ensures
        s@ == command_line(exe@, texts(args@)),
        !exe@.contains('"') ==> split(s@) == seq![exe@] + texts(args@),
{
    let mut s = String::new();
    s.push('"');
    s.append(exe);
    s.push('"');
    push_arguments(&mut s, args);
    assert(s@ =~= command_line(exe@, texts(args@)));
    proof {
        if !exe@.contains('"') {
            command_line_splits_back(exe@, texts(args@));
        }
    }
    s
}

/// What "Start with Windows" does to the autostart value.
#[derive(Debug)]
pub enum Autostart {
    Remove,
    Write(String),
}

/// Turns autostart on or off.
pub fn set_autostart(enable: bool, exe: &str, args: &Vec<String>) -> (a: Autostart)
    ensures
        match a {
            Autostart::Remove => !enable,
            Autostart::Write(value) => enable && value@ == command_line(exe@, texts(args@)) && (
            !exe@.contains('"') ==> split(value@) == seq![exe@] + texts(args@)),
        },
{
    if !enable {
        return Autostart::Remove;
    }
    Autostart::Write(run_value(exe, args))
}

/// What is said where writing the autostart value returned `code`; `None` where that is success.
pub open spec fn run_failure(code: u32) -> Option<Seq<char>> {
    if code == 0 {
        None
    } else {
        Some(numbered_text("cannot write Run value ("@, code as nat, ")"@))
    }
}

/// The outcome of writing the autostart value: 0 is success.
pub fn autostart_result(code: u32) -> (r: Result<(), String>)
    ensures
        match r {
            Ok(_) => run_failure(code) is None,
            Err(e) => run_failure(code) == Some(e@),
        },
{
    if code != 0 {
        return Err(numbered("cannot write Run value (", code as u64, ")"));
    }
    Ok(())
}

/// `s` begins with `prefix`.
pub open spec fn begins(s: Seq<char>, prefix: Seq<char>) -> bool {
    prefix.len() <= s.len() && s.take(prefix.len() as int) == prefix
}

/// The Win32 form of a path: the extended-length syntax is taken off a drive or network path.
pub open spec fn win32_form(p: Seq<char>) -> Seq<char> {
    let rest = p.skip("\\\\?\\"@.len() as int);
    if begins(p, "\\\\?\\UNC\\"@) {
        seq!['\\', '\\'] + p.skip("\\\\?\\UNC\\"@.len() as int)
    } else if begins(p, "\\\\?\\"@) && rest.len() >= 2 && rest[0] as int <= 0x7F && rest[1] == ':' {
        rest
    } else {
        p
    }
}

/// What is left of `s` behind `prefix`.
fn strip_prefix<'a>(s: &'a [char], prefix: &str) -> (r: Option<&'a [char]>)
    ensures
        match r {
            Some(rest) => begins(s@, prefix@) && rest@ == s@.skip(prefix@.len() as int),
            None => !begins(s@, prefix@),
        },
{
    let p: Vec<char> = chars_of(prefix);
    let n: usize = p.len();
    if n > s.len() {
        return None;
    }
    let mut i: usize = 0;
    while i < n
        invariant
            p@ == prefix@,
            i <= n == p@.len() <= s@.len(),
            forall|k: int| 0 <= k < i ==> s@[k] == p@[k],
        decreases n - i,
    {
        if s[i] != p[i] {
            assert(s@.take(n as int)[i as int] != prefix@[i as int]);
            return None;
        }
        i += 1;
    }
    assert(s@.take(n as int) =~= prefix@);
    assert(s@.subrange(n as int, s@.len() as int) =~= s@.skip(n as int));
    Some(slice_subrange(s, n, s.len()))
}

fn is_ascii(c: char) -> (r: bool)
    ensures
        r == (c as int <= 0x7F),
{
    c as u32 <= 0x7F
}

/// Maps the extended-length syntax of resolved paths back to the Win32 form Explorer records:
/// `\\?\C:\x` -> `C:\x`, `\\?\UNC\server\share\x` -> `\\server\share\x`. Anything else is kept.
pub fn win32_path(p: &str) -> (s: String)
    ensures
        s@ == win32_form(p@),
{
    let chars: Vec<char> = chars_of(p);
    if let Some(rest) = strip_prefix(chars.as_slice(), "\\\\?\\UNC\\") {
        let mut s = String::new();
        s.push('\\');
        s.push('\\');
        push_chars(&mut s, rest);
        assert(s@ =~= win32_form(p@));
        return s;
    }
    match strip_prefix(chars.as_slice(), "\\\\?\\") {
        Some(rest) => if rest.len() >= 2 && is_ascii(rest[0]) && rest[1] == ':' {
            string_of(rest)
        } else {
            string_of(chars.as_slice())
        },
        None => string_of(chars.as_slice()),
    }
}

/// What is known while looking for the tray icon's entry.
#[derive(Debug)]
pub enum Entry {
    /// Whether there are per-icon settings at all.
    Base(bool),
    /// The next entry's name, `None` past the end.
    Name(Option<String>),
    /// The entry could not be opened.
    Closed,
    /// The executable the entry is for, `None` if it says none.
    Path(Option<String>),
    /// Whether the matching entry holds a choice, of whatever kind.
    Choice(bool),
    /// The choice has been written, or writing it failed.
    Written,
}

/// What to do next to show the tray icon beside the clock.
#[derive(Debug)]
pub enum Promotion {
    /// Read the name of the entry with this index.
    ReadName(u32),
    /// Open this key and read the executable's path from it.
    ReadPath(String),
    /// Read whether the entry holds a choice.
    ReadChoice,
    /// Promote the icon.
    Write,
    /// Finished: whether nothing more is to be done.
    Done(bool),
}

/// `p` is what follows `e` in looking for the entry of `exe`, entry `index` being looked at.
pub open spec fn promotes(exe: Seq<char>, index: u32, e: Entry, p: Promotion) -> bool {
    match e {
        Entry::Base(there) => p == (if there {
            Promotion::ReadName(0)
        } else {
            Promotion::Done(true)
        }),
        Entry::Name(None) => p == Promotion::Done(false),
        Entry::Name(Some(sub)) => p matches Promotion::ReadPath(key) && key@
            == NOTIFY_ICONS@ + seq!['\\'] + sub@,
        Entry::Closed => p == Promotion::ReadName((index + 1) as u32),
        Entry::Path(path) => p == (if path matches Some(path) && same_but_ascii_case(path@, exe) {
            Promotion::ReadChoice
        } else {
            Promotion::ReadName((index + 1) as u32)
        }),
        Entry::Choice(made) => p == (if made {
            Promotion::Done(true)
        } else {
            Promotion::Write
        }),
        Entry::Written => p == Promotion::Done(true),
    }
}

/// Windows 11 hides new tray icons in the overflow flyout by default. The per-icon choice lives in
/// an entry with the path of the executable; promoting the icon shows it next to the clock. Only
/// an absent choice is written: if the user has already hidden or shown the icon, that stands.
///
/// Finished with true once the entry was found and handled, or when this Windows version has no
/// such settings, and with false if there is no entry (yet).
pub fn promote_tray_icon(exe: &str, index: u32, e: Entry) -> (p: Promotion)
    requires
        index < u32::MAX,
    ensures
        promotes(exe@, index, e, p),
{
    match e {
        Entry::Base(true) => Promotion::ReadName(0),
        Entry::Base(false) => Promotion::Done(true),
        Entry::Name(None) => Promotion::Done(false),
        Entry::Name(Some(sub)) => {
            let mut key = String::new();
            key.append(NOTIFY_ICONS);
            key.push('\\');
            key.append(sub.as_str());
            assert(key@ =~= NOTIFY_ICONS@ + seq!['\\'] + sub@);
            Promotion::ReadPath(key)
        },
        Entry::Closed => Promotion::ReadName(index + 1),
        Entry::Path(None) => Promotion::ReadName(index + 1),
        Entry::Path(Some(path)) => if eq_ignore_ascii_case(path.as_str(), exe) {
            Promotion::ReadChoice
        } else {
            Promotion::ReadName(index + 1)
        },
        Entry::Choice(false) => Promotion::Write,
        Entry::Choice(true) => Promotion::Done(true),
        Entry::Written => Promotion::Done(true),
    }
}

/// A choice the user made stands: the icon is promoted only where there is no choice.
pub proof fn choice_stands(exe: Seq<char>, index: u32, e: Entry, p: Promotion)
    requires
        promotes(exe, index, e, p),
        p is Write,
    ensures
        e == Entry::Choice(false),
{
}

/// One of Explorer's entries: whether it can be opened, the executable it is for, and whether
/// it holds a choice of the user.
pub struct Slot {
    pub opened: bool,
    pub path: Option<Seq<char>>,
    pub chosen: bool,
}

/// The entry is that of `exe`.
pub open spec fn is_for(slot: Slot, exe: Seq<char>) -> bool {
    slot.opened && (slot.path matches Some(path) && same_but_ascii_case(path, exe))
}

/// `e` is what the entries answer to `p` while entry `index` is looked at.
pub open spec fn answers(slots: Seq<Slot>, index: u32, p: Promotion, e: Entry) -> bool {
    match p {
        Promotion::ReadName(_) => e matches Entry::Name(name) && (name is Some) == (index
            < slots.len()),
        Promotion::ReadPath(_) => if slots[index as int].opened {
            e matches Entry::Path(path) && text_of(path) == slots[index as int].path
        } else {
            e is Closed
        },
        Promotion::ReadChoice => e == Entry::Choice(slots[index as int].chosen),
        Promotion::Write => e is Written,
        Promotion::Done(_) => false,
    }
}

/// A step of looking for the icon's entry: the entry looked at, what is known, what to do next.
pub struct Looking {
    pub index: u32,
    pub seen: Entry,
    pub next: Promotion,
}

/// `run` looks for the entry of `exe` among `slots`, from the start on.
pub open spec fn is_run(exe: Seq<char>, slots: Seq<Slot>, run: Seq<Looking>) -> bool {
    &&& run.len() > 0
    &&& run[0].index == 0 && run[0].seen == Entry::Base(true)
    &&& forall|k: int|
        0 <= k < run.len() ==> promotes(
            exe,
            (#[trigger] run[k]).index,
            run[k].seen,
            run[k].next,
        )
    &&& forall|k: int|
        0 < k < run.len() ==> (#[trigger] run[k]).index == (match run[k - 1].next {
            Promotion::ReadName(n) => n,
            _ => run[k - 1].index,
        }) && answers(slots, run[k].index, run[k - 1].next, run[k].seen)
}

/// What holds at a step: no entry before the one looked at is that of `exe`, and what is known is
/// known of the one looked at.
spec fn looking_ok(exe: Seq<char>, slots: Seq<Slot>, at: Looking) -> bool {
    let i = at.index as int;
    &&& forall|j: int| 0 <= j < i && j < slots.len() ==> !is_for(#[trigger] slots[j], exe)
    &&& match at.seen {
        Entry::Base(there) => there && i == 0,
        Entry::Name(name) => (name is Some) == (i < slots.len()),
        Entry::Closed => i < slots.len() && !slots[i].opened,
        Entry::Path(path) => i < slots.len() && slots[i].opened && text_of(path) == slots[i].path,
        Entry::Choice(made) => i < slots.len() && is_for(slots[i], exe) && made
            == slots[i].chosen,
        Entry::Written => i < slots.len() && is_for(slots[i], exe) && !slots[i].chosen,
    }
}

proof fn lemma_looking(exe: Seq<char>, slots: Seq<Slot>, run: Seq<Looking>, k: int)
    requires
        slots.len() < u32::MAX,
        is_run(exe, slots, run),
        0 <= k < run.len(),
    ensures
        looking_ok(exe, slots, run[k]),
    decreases k,
{
    if k > 0 {
        lemma_looking(exe, slots, run, k - 1);
        let before = run[k - 1];
        assert(promotes(exe, before.index, before.seen, before.next));
        assert(answers(slots, run[k].index, before.next, run[k].seen));
    }
}

/// Looking for the icon's entry ends well exactly if there is one, and promotes the icon exactly
/// if the user has made no choice in the first one.
pub proof fn promotion_finds_the_entry(
    exe: Seq<char>,
    slots: Seq<Slot>,
    run: Seq<Looking>,
    done: bool,
)
    requires
        slots.len() < u32::MAX,
        is_run(exe, slots, run),
        run.last().next == Promotion::Done(done),
    ensures
        done == exists|i: int| 0 <= i < slots.len() && is_for(#[trigger] slots[i], exe),
        forall|i: int|
            0 <= i < slots.len() && is_for(#[trigger] slots[i], exe) && (forall|j: int|
                0 <= j < i ==> !is_for(#[trigger] slots[j], exe)) ==> !slots[i].chosen == (
            exists|k: int| 0 <= k < run.len() && (#[trigger] run[k]).next is Write),
{
    let n = run.len() - 1;
    lemma_looking(exe, slots, run, n);
    assert(promotes(exe, run[n].index, run[n].seen, run[n].next));
    let at = run[n].index as int;
    if done {
        assert(is_for(slots[at], exe));
    }
    assert forall|i: int|
        0 <= i < slots.len() && is_for(#[trigger] slots[i], exe) && (forall|j: int|
            0 <= j < i ==> !is_for(#[trigger] slots[j], exe)) implies !slots[i].chosen == (
    exists|k: int| 0 <= k < run.len() && (#[trigger] run[k]).next is Write) by {
        assert(i == at);
        if !slots[i].chosen {
            assert(run[n].seen is Written);
            assert(n > 0);
            assert(answers(slots, run[n].index, run[n - 1].next, run[n].seen));
            assert(run[n - 1].next is Write);
        } else if exists|k: int| 0 <= k < run.len() && (#[trigger] run[k]).next is Write {
            let k = choose|k: int| 0 <= k < run.len() && (#[trigger] run[k]).next is Write;
            lemma_looking(exe, slots, run, k);
            assert(promotes(exe, run[k].index, run[k].seen, run[k].next));
            assert(is_for(slots[run[k].index as int], exe));
            assert(run[k].index == i);
        }
    }
}

/// A path in Win32 form is kept.
pub proof fn win32_form_is_kept(p: Seq<char>)
    requires
        !begins(p, "\\\\?\\"@),
    ensures
        win32_form(p) == p,
{
    reveal_strlit("\\\\?\\");
    reveal_strlit("\\\\?\\UNC\\");
    if begins(p, "\\\\?\\UNC\\"@) {
        let long = "\\\\?\\UNC\\"@;
        assert forall|i: int| 0 <= i < 4 implies p[i] == long[i] by {
            assert(p.take(8)[i] == p[i]);
        }
        assert(p.take(4) =~= "\\\\?\\"@);
    }
}

/// A resolved drive path is the plain drive path.
pub proof fn drive_path_loses_prefix(p: Seq<char>)
    requires
        p.len() >= 2,
        p[0] as int <= 0x7F,
        p[1] == ':',
    ensures
        win32_form("\\\\?\\"@ + p) == p,
{
    reveal_strlit("\\\\?\\");
    reveal_strlit("\\\\?\\UNC\\");
    let s = "\\\\?\\"@ + p;
    assert(s.take(4) =~= "\\\\?\\"@);
    assert(s.skip(4) =~= p);
    assert(!begins(s, "\\\\?\\UNC\\"@)) by {
        assert(s[5] == ':');
        if begins(s, "\\\\?\\UNC\\"@) {
            assert(s.take(8)[5] == "\\\\?\\UNC\\"@[5]);
        }
    }
}

/// A resolved network path is the plain network path.
pub proof fn network_path_loses_prefix(rest: Seq<char>)
    ensures
        win32_form("\\\\?\\UNC\\"@ + rest) == seq!['\\', '\\'] + rest,
{
    let long = "\\\\?\\UNC\\"@;
    let s = long + rest;
    assert(s.take(long.len() as int) =~= long);
    assert(s.skip(long.len() as int) =~= rest);
}

} // verus!
