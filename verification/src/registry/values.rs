//! Laws of the registry: what was written is read, failures are told, and other paths are kept.
use vstd::prelude::*;
use vstd::string::*;

use crate::text::decimal;
use crate::text::reading::{ends_telling, tells};
use crate::utf16::{encoded, encoded_text_decodes, units};
use crate::win32::{REG_DWORD, REG_EXPAND_SZ, REG_SZ};

use super::{
    before_nul, begins, key_failure, name_value, number_value, promotes, run_failure, string_value,
    win32_form, Entry, Promotion, NOTIFY_ICONS,
};

verus! {

/// No NUL among the characters.
pub open spec fn has_no_nul(s: Seq<char>) -> bool {
    forall|i: int| 0 <= i < s.len() ==> #[trigger] s[i] != '\0'
}

proof fn lemma_units_nonzero(c: char)
    requires
        c != '\0',
    ensures
        forall|i: int| 0 <= i < units(c).len() ==> #[trigger] units(c)[i] != 0,
{
    let u = c as int;
    if u >= 0x1_0000 {
        assert(0xD800 <= 0xD800 + (u - 0x1_0000) / 0x400 < 0x1_0000);
        assert(0xDC00 <= 0xDC00 + (u - 0x1_0000) % 0x400 < 0x1_0000);
    }
}

pub(crate) proof fn lemma_encoded_nonzero(s: Seq<char>)
    requires
        has_no_nul(s),
    ensures
        forall|i: int| 0 <= i < encoded(s).len() ==> #[trigger] encoded(s)[i] != 0,
    decreases s.len(),
{
    if s.len() > 0 {
        assert(s[0] != '\0');
        lemma_units_nonzero(s[0]);
        assert forall|i: int| 0 <= i < s.skip(1).len() implies #[trigger] s.skip(1)[i] != '\0' by {
            assert(s[i + 1] != '\0');
        }
        lemma_encoded_nonzero(s.skip(1));
        let (a, b) = (units(s[0]), encoded(s.skip(1)));
        assert forall|i: int| 0 <= i < encoded(s).len() implies #[trigger] encoded(s)[i] != 0 by {
            if i < a.len() {
                assert(a[i] != 0);
            } else {
                assert(b[i - a.len()] != 0);
            }
        }
    }
}

/// What stands before the first NUL is all of it, and nothing behind.
pub proof fn nul_ends_a_text(u: Seq<u16>, rest: Seq<u16>)
    requires
        forall|i: int| 0 <= i < u.len() ==> #[trigger] u[i] != 0,
        rest.len() == 0 || rest[0] == 0,
    ensures
        before_nul(u + rest) == u,
    decreases u.len(),
{
    if u.len() > 0 {
        assert((u + rest).skip(1) =~= u.skip(1) + rest);
        assert forall|i: int| 0 <= i < u.skip(1).len() implies #[trigger] u.skip(1)[i] != 0 by {
            assert(u[i + 1] != 0);
        }
        assert((u + rest)[0] == u[0] && u[0] != 0);
        nul_ends_a_text(u.skip(1), rest);
        assert(seq![u[0]] + u.skip(1) =~= u);
    } else {
        assert(u + rest =~= rest);
        assert(before_nul(rest) =~= seq![]);
    }
}

/// A text that was written with its NUL is read back, into any buffer with room for it and
/// whatever the buffer held behind it; so is one whose NUL was left out.
pub proof fn written_text_reads_back(s: Seq<char>, junk: Seq<u16>, typ: u32, len: u32)
    requires
        has_no_nul(s),
        typ == REG_SZ || typ == REG_EXPAND_SZ,
    ensures
        len / 2 == encoded(s).len() + 1 ==> string_value(0, typ, encoded(s).push(0) + junk, len)
            == Some(s),
        len / 2 == encoded(s).len() ==> string_value(0, typ, encoded(s) + junk, len) == Some(s),
{
    let e = encoded(s);
    lemma_encoded_nonzero(s);
    encoded_text_decodes(s);
    if len / 2 == e.len() + 1 {
        let buf = e.push(0) + junk;
        nul_ends_a_text(e, seq![0u16]);
        assert(e + seq![0u16] =~= e.push(0));
        if len / 2 < buf.len() {
            assert(buf.take(len as int / 2) =~= e.push(0));
        } else {
            assert(buf =~= e.push(0));
        }
    }
    if len / 2 == e.len() {
        let buf = e + junk;
        nul_ends_a_text(e, seq![]);
        assert(e + Seq::<u16>::empty() =~= e);
        if len / 2 < buf.len() {
            assert(buf.take(len as int / 2) =~= e);
        } else {
            assert(buf =~= e);
        }
    }
}

/// A value is there exactly if it could be read and has the type asked for.
pub proof fn other_values_are_absent(code: u32, typ: u32, buf: Seq<u16>, len: u32, value: u32)
    ensures
        string_value(code, typ, buf, len) is Some <==> code == 0 && (typ == 1 || typ == 2),
        number_value(code, typ, value) is Some <==> code == 0 && typ == 4,
        number_value(0, REG_DWORD, value) == Some(value),
{
}

/// A name is read as it is written, and nothing behind it.
pub proof fn written_name_reads_back(s: Seq<char>, junk: Seq<u16>, code: u32)
    ensures
        name_value(0, encoded(s) + junk, encoded(s).len() as int) == Some(s),
        code != 0 ==> name_value(code, junk, 0) is None,
{
    encoded_text_decodes(s);
    assert((encoded(s) + junk).take(encoded(s).len() as int) =~= encoded(s));
}

/// Only success is silent; a failure is told with the key and the code.
pub proof fn key_failures_are_told(what: Seq<char>, sub: Seq<char>, code: u32)
    ensures
        key_failure(what, sub, code) is None <==> code == 0,
        key_failure(what, sub, code) matches Some(text) ==> {
            &&& text.take(what.len() as int) == what
            &&& tells(text, what, sub + " ("@)
            &&& ends_telling(text, " ("@, decimal(code as nat) + ")"@)
        },
{
    if let Some(text) = key_failure(what, sub, code) {
        let d = decimal(code as nat);
        let none = Seq::<char>::empty();
        let after = d + ")"@;
        assert(text == what + sub + " ("@ + d + ")"@);
        assert(text =~= none + what + (sub + " ("@) + after);
        let front = what + sub;
        assert(text =~= front + " ("@ + after);
        assert(text.take(what.len() as int) =~= what);
    }
}

/// A failure to turn autostart on or off is told with the code, and only a failure is.
pub proof fn autostart_failures_are_told(code: u32)
    ensures
        run_failure(code) is Some <==> code != 0,
        run_failure(code) matches Some(text) ==> ends_telling(
            text,
            " ("@,
            decimal(code as nat) + ")"@,
        ),
{
    if let Some(text) = run_failure(code) {
        reveal_strlit("cannot write Run value (");
        reveal_strlit(" (");
        let front = "cannot write Run value ("@;
        let words = front.take(front.len() - 2);
        assert(front =~= words + " ("@);
        assert(text =~= words + " ("@ + (decimal(code as nat) + ")"@));
    }
}

/// Where there are no per-icon settings there is nothing more to do; where no entry is left, the
/// icon's may still come. An entry is read from the key of its name below the settings' key.
pub proof fn entries_stand_below_the_settings(exe: Seq<char>, index: u32, e: Entry, p: Promotion)
    requires
        promotes(exe, index, e, p),
    ensures
        e == Entry::Base(false) ==> p == Promotion::Done(true),
        e == Entry::Base(true) ==> p == Promotion::ReadName(0),
        e == Entry::Name(None) ==> p == Promotion::Done(false),
        e matches Entry::Name(Some(sub)) ==> (p matches Promotion::ReadPath(key) && ({
            let n = NOTIFY_ICONS@.len() as int;
            &&& key@.take(n) == NOTIFY_ICONS@
            &&& key@[n] == '\\'
            &&& key@.skip(n + 1) == sub@
        })),
{
    if let Entry::Name(Some(sub)) = e {
        if let Promotion::ReadPath(key) = p {
            let n = NOTIFY_ICONS@.len() as int;
            assert(key@.take(n) =~= NOTIFY_ICONS@);
            assert(key@.skip(n + 1) =~= sub@);
        }
    }
}

/// A resolved path that is neither on a drive nor on the network is kept as it is.
pub proof fn other_resolved_paths_are_kept(p: Seq<char>)
    requires
        !begins(p, "UNC\\"@),
        p.len() < 2 || p[1] != ':' || p[0] as int > 0x7F,
    ensures
        win32_form("\\\\?\\"@ + p) == "\\\\?\\"@ + p,
{
    reveal_strlit("\\\\?\\");
    reveal_strlit("\\\\?\\UNC\\");
    reveal_strlit("UNC\\");
    let q = "\\\\?\\"@ + p;
    assert("\\\\?\\UNC\\"@ =~= "\\\\?\\"@ + "UNC\\"@);
    assert(q.skip(4) =~= p);
    if begins(q, "\\\\?\\UNC\\"@) {
        assert(q.take(8).skip(4) =~= p.take(4));
        assert("\\\\?\\UNC\\"@.skip(4) =~= "UNC\\"@);
        assert(begins(p, "UNC\\"@));
    }
}

} // verus!
