//! The command line.
use vstd::prelude::*;
use vstd::slice::*;
use vstd::string::*;

use crate::duration::{duration_of, parse_duration};
use crate::text::{chars_of, push_chars, same_chars, string_of, text_of, texts};

pub mod turns;

verus! {

/// Image name of the WSL2 VM process on Windows 11.
pub const DEFAULT_PROCESS: &'static str = "vmmemWSL";

/// Image name of the WSL2 VM process on Windows 10.
pub const DEFAULT_PROCESS_WIN10: &'static str = "vmmem";

/// How often to check whether WSL2 is running, unless told otherwise: 7.5 s.
pub const DEFAULT_POLL: u64 = 7_500_000_000;

/// How often to refresh the numbers, unless told otherwise: 30 s.
pub const DEFAULT_INTERVAL: u64 = 30_000_000_000;

/// The help text before the default of `--process`.
pub const USAGE_HEAD: &'static str = "wsl-tray [--poll 7.5s] [--interval 30s] [--process ";

/// The help text behind it.
pub const USAGE_TAIL: &'static str =
    "] [--log FILE] [--render-test DIR]\n\n  --poll         how often to check whether WSL2 is running (cheap)\n  --interval     how often to refresh CPU/memory while WSL2 is running\n  --process      name of the WSL2 VM process\n  --log          append diagnostic log lines to this file\n  --render-test  write sample icon PNGs to this directory and exit";

/// Parsed command line.
#[derive(Debug)]
pub struct Options {
    /// Interval of the presence check (`-poll`), ns.
    pub poll: u64,
    /// Interval of the CPU/memory refresh while the VM runs (`-interval`), ns.
    pub stats: u64,
    /// Image name of the VM process (`-process`), matched case-insensitively.
    pub process: String,
    /// Diagnostics log file (`-log`), appended to.
    pub log: Option<String>,
    /// Directory for the icon PNG dump (`-render-test`); exits afterwards.
    pub render_test: Option<String>,
}

/// What a command line asks for.
pub struct Asked {
    pub poll: nat,
    pub stats: nat,
    pub process: Seq<char>,
    pub log: Option<Seq<char>>,
    pub render_test: Option<Seq<char>>,
}

/// What becomes of a command line.
pub enum Parsed {
    /// It is understood.
    Run(Asked),
    /// It asks for help.
    Help,
    /// It is wrong, with this message.
    Wrong(Seq<char>),
}

impl View for Options {
    type V = Asked;

    open spec fn view(&self) -> Asked {
        Asked {
            poll: self.poll as nat,
            stats: self.stats as nat,
            process: self.process@,
            log: text_of(self.log),
            render_test: text_of(self.render_test),
        }
    }
}

/// The help text where `process` is looked for by default.
pub open spec fn usage_text(process: Seq<char>) -> Seq<char> {
    USAGE_HEAD@ + process + USAGE_TAIL@
}

/// Help text for `-h` and flag errors.
pub fn usage(process: &str) -> (s: String)
    ensures
        s@ == usage_text(process@),
{
    let mut s = String::new();
    s.append(USAGE_HEAD);
    s.append(process);
    s.append(USAGE_TAIL);
    assert(s@ =~= usage_text(process@));
    s
}

/// What is asked for if nothing is said.
pub open spec fn defaults(process: Seq<char>) -> Asked {
    Asked {
        poll: DEFAULT_POLL as nat,
        stats: DEFAULT_INTERVAL as nat,
        process,
        log: None,
        render_test: None,
    }
}

/// The argument ends the flags: `--`, or it does not begin with `-`, or it is `-` alone.
pub open spec fn ends_flags(a: Seq<char>) -> bool {
    a == seq!['-', '-'] || a.len() < 2 || a[0] != '-'
}

/// The argument without its one or two leading dashes.
pub open spec fn flag_name(a: Seq<char>) -> Seq<char> {
    if a.len() >= 2 && a[1] == '-' {
        a.skip(2)
    } else {
        a.skip(1)
    }
}

/// Where the first `c` stands in `s` (`s.len()` if nowhere).
pub open spec fn first_at(s: Seq<char>, c: char) -> int
    decreases s.len(),
{
    if s.len() == 0 || s[0] == c {
        0
    } else {
        1 + first_at(s.skip(1), c)
    }
}

/// The flag's name up to an equals sign.
pub open spec fn key_of(name: Seq<char>) -> Seq<char> {
    name.take(first_at(name, '='))
}

/// The flag carries its value behind an equals sign.
pub open spec fn is_inline(name: Seq<char>) -> bool {
    first_at(name, '=') < name.len()
}

/// The value of the flag at `i`: behind its equals sign, or else the next argument.
pub open spec fn value_of(args: Seq<Seq<char>>, i: int) -> Option<Seq<char>> {
    let name = flag_name(args[i]);
    if is_inline(name) {
        Some(name.skip(first_at(name, '=') + 1))
    } else if i + 1 < args.len() {
        Some(args[i + 1])
    } else {
        None
    }
}

/// A message and the help text.
pub open spec fn with_usage(what: Seq<char>, about: Seq<char>, process: Seq<char>) -> Seq<char> {
    what + about + seq!['\n', '\n'] + usage_text(process)
}

/// What the command line from argument `i` on asks for, on top of `o`.
pub open spec fn parsed(args: Seq<Seq<char>>, i: int, o: Asked, process: Seq<char>) -> Parsed
    decreases args.len() - i,
{
    if i < 0 || i >= args.len() || ends_flags(args[i]) {
        Parsed::Run(o)
    } else {
        let name = flag_name(args[i]);
        let key = key_of(name);
        let next = if is_inline(name) {
            i + 1
        } else {
            i + 2
        };
        let missing = Parsed::Wrong(with_usage("missing value for --"@, key, process));
        if name[0] == '-' || name[0] == '=' {
            Parsed::Wrong(with_usage("bad flag syntax: "@, args[i], process))
        } else if key == "poll"@ {
            match value_of(args, i) {
                None => missing,
                Some(v) => match duration_of(v) {
                    None => Parsed::Wrong("bad --poll duration"@),
                    Some(poll) => parsed(args, next, Asked { poll, ..o }, process),
                },
            }
        } else if key == "interval"@ {
            match value_of(args, i) {
                None => missing,
                Some(v) => match duration_of(v) {
                    None => Parsed::Wrong("bad --interval duration"@),
                    Some(stats) => parsed(args, next, Asked { stats, ..o }, process),
                },
            }
        } else if key == "process"@ {
            match value_of(args, i) {
                None => missing,
                Some(v) => parsed(args, next, Asked { process: v, ..o }, process),
            }
        } else if key == "log"@ {
            match value_of(args, i) {
                None => missing,
                Some(v) => parsed(args, next, Asked { log: Some(v), ..o }, process),
            }
        } else if key == "render-test"@ {
            match value_of(args, i) {
                None => missing,
                Some(v) => parsed(args, next, Asked { render_test: Some(v), ..o }, process),
            }
        } else if key == "h"@ || key == "help"@ {
            Parsed::Help
        } else {
            Parsed::Wrong(with_usage("unknown flag: "@, args[i], process))
        }
    }
}

/// What `r` says becomes of a command line.
pub open spec fn result_of(r: Result<Option<Options>, String>) -> Parsed {
    match r {
        Ok(Some(o)) => Parsed::Run(o@),
        Ok(None) => Parsed::Help,
        Err(e) => Parsed::Wrong(e@),
    }
}

/// A message and the help text.
fn message_with_usage(what: &str, about: &[char], process: &str) -> (s: String)
    ensures
        s@ == with_usage(what@, about@, process@),
{
    let mut s = String::new();
    s.append(what);
    push_chars(&mut s, about);
    s.push('\n');
    s.push('\n');
    s.append(usage(process).as_str());
    assert(s@ =~= with_usage(what@, about@, process@));
    s
}

/// Whether the characters are those of `text`.
fn reads(chars: &[char], text: &str) -> (r: bool)
    ensures
        r == (chars@ == text@),
{
    same_chars(chars, chars_of(text).as_slice())
}

/// Finds the first `c`.
fn find_char(s: &[char], c: char) -> (k: usize)
    ensures
        k == first_at(s@, c),
        k <= s@.len(),
{
    let mut k: usize = 0;
    assert(s@.skip(0) =~= s@);
    while k < s.len() && s[k] != c
        invariant
            k <= s@.len(),
            first_at(s@, c) == k + first_at(s@.skip(k as int), c),
        decreases s@.len() - k,
    {
        assert(s@.skip(k as int).skip(1) =~= s@.skip(k + 1));
        k += 1;
    }
    k
}

/// The value of the flag at `i` with this name, whose equals sign (if it has one) is at `eq`.
fn flag_value(args: &Vec<String>, i: usize, name: &[char], eq: usize) -> (v: Option<String>)
    requires
        i < args@.len(),
        name@ == flag_name(args@[i as int]@),
        eq == first_at(name@, '='),
        eq <= name@.len(),
    ensures
        text_of(v) == value_of(texts(args@), i as int),
        v is Some && !is_inline(name@) ==> i + 1 < args@.len(),
{
    assert(texts(args@)[i as int] == args@[i as int]@);
    if eq < name.len() {
        let value = slice_subrange(name, eq + 1, name.len());
        assert(value@ =~= name@.skip(eq + 1));
        return Some(string_of(value));
    }
    assert(args.len() == args@.len());
    if i + 1 < args.len() {
        assert(texts(args@)[i + 1] == args@[i + 1]@);
        return Some(string_of(chars_of(args[i + 1].as_str()).as_slice()));
    }
    None
}

/// Parses the command line (without the program's name) the way Go's `flag` package does:
/// `-name value`, `-name=value` and `--name...` are all accepted; `--` or the first argument not
/// starting with `-` ends flag parsing and the rest is ignored. `Ok(None)` means `-h`/`-help` was
/// given. `process` is the image name looked for unless `-process` names another.
pub fn parse_args(args: &Vec<String>, process: &str) -> (r: Result<Option<Options>, String>)
    ensures
        result_of(r) == parsed(texts(args@), 0, defaults(process@), process@),
{
    let mut o = Options {
        poll: DEFAULT_POLL,
        stats: DEFAULT_INTERVAL,
        process: string_of(chars_of(process).as_slice()),
        log: None,
        render_test: None,
    };
    let ghost t = texts(args@);
    let ghost asked = parsed(t, 0, defaults(process@), process@);
    let mut i: usize = 0;
    assert(o@ == defaults(process@));
    while i < args.len()
        invariant
            i <= args@.len(),
            t == texts(args@),
            asked == parsed(t, 0, defaults(process@), process@),
            asked == parsed(t, i as int, o@, process@),
        decreases args@.len() - i,
    {
        let a: Vec<char> = chars_of(args[i].as_str());
        assert(t[i as int] == a@);
        assert(seq!['-', '-'].len() == 2 && seq!['-', '-'][0] == '-' && seq!['-', '-'][1] == '-');
        if a.len() < 2 || a[0] != '-' || (a.len() == 2 && a[1] == '-') {
            assert(a@.len() == 2 && a@[0] == '-' && a@[1] == '-' ==> a@ =~= seq!['-', '-']);
            return Ok(Some(o));
        }
        let start: usize = if a[1] == '-' {
            2
        } else {
            1
        };
        let name = slice_subrange(a.as_slice(), start, a.len());
        assert(name@ =~= flag_name(a@));
        if name[0] == '-' || name[0] == '=' {
            return Err(message_with_usage("bad flag syntax: ", a.as_slice(), process));
        }
        let eq: usize = find_char(name, '=');
        let key = slice_subrange(name, 0, eq);
        assert(key@ =~= key_of(name@));
        let value = flag_value(args, i, name, eq);
        let inline = eq < name.len();
        if reads(key, "poll") {
            match value {
                None => {
                    return Err(message_with_usage("missing value for --", key, process));
                },
                Some(v) => match parse_duration(v.as_str()) {
                    None => {
                        return Err(string_of(chars_of("bad --poll duration").as_slice()));
                    },
                    Some(ns) => {
                        o.poll = ns;
                    },
                },
            }
        } else if reads(key, "interval") {
            match value {
                None => {
                    return Err(message_with_usage("missing value for --", key, process));
                },
                Some(v) => match parse_duration(v.as_str()) {
                    None => {
                        return Err(string_of(chars_of("bad --interval duration").as_slice()));
                    },
                    Some(ns) => {
                        o.stats = ns;
                    },
                },
            }
        } else if reads(key, "process") {
            match value {
                None => {
                    return Err(message_with_usage("missing value for --", key, process));
                },
                Some(v) => {
                    o.process = v;
                },
            }
        } else if reads(key, "log") {
            match value {
                None => {
                    return Err(message_with_usage("missing value for --", key, process));
                },
                Some(v) => {
                    o.log = Some(v);
                },
            }
        } else if reads(key, "render-test") {
            match value {
                None => {
                    return Err(message_with_usage("missing value for --", key, process));
                },
                Some(v) => {
                    o.render_test = Some(v);
                },
            }
        } else if reads(key, "h") || reads(key, "help") {
            return Ok(None);
        } else {
            return Err(message_with_usage("unknown flag: ", a.as_slice(), process));
        }
        i = if inline {
            i + 1
        } else {
            i + 2
        };
    }
    Ok(Some(o))
}

/// What a command line asks for depends on the arguments that are left, not on those before.
proof fn lemma_parsed_shifts(
    a: Seq<Seq<char>>,
    i: int,
    b: Seq<Seq<char>>,
    j: int,
    o: Asked,
    process: Seq<char>,
)
    requires
        0 <= i <= a.len(),
        0 <= j <= b.len(),
        a.skip(i) == b.skip(j),
    ensures
        parsed(a, i, o, process) == parsed(b, j, o, process),
    decreases a.len() - i,
{
    assert(a.len() - i == a.skip(i).len() == b.skip(j).len());
    if i < a.len() {
        assert(a[i] == a.skip(i)[0] && b[j] == b.skip(j)[0]);
        if i + 1 < a.len() {
            assert(a[i + 1] == a.skip(i)[1] && b[j + 1] == b.skip(j)[1]);
        }
        let name = flag_name(a[i]);
        let k: int = if is_inline(name) {
            1
        } else {
            2
        };
        assert(value_of(a, i) == value_of(b, j));
        if i + k <= a.len() {
            assert(a.skip(i + k) =~= a.skip(i).skip(k));
            assert(b.skip(j + k) =~= b.skip(j).skip(k));
            if let Some(v) = value_of(a, i) {
                if let Some(ns) = duration_of(v) {
                    lemma_parsed_shifts(a, i + k, b, j + k, Asked { poll: ns, ..o }, process);
                    lemma_parsed_shifts(a, i + k, b, j + k, Asked { stats: ns, ..o }, process);
                }
                lemma_parsed_shifts(a, i + k, b, j + k, Asked { process: v, ..o }, process);
                lemma_parsed_shifts(a, i + k, b, j + k, Asked { log: Some(v), ..o }, process);
                lemma_parsed_shifts(a, i + k, b, j + k, Asked { render_test: Some(v), ..o }, process);
            }
        }
    }
}

/// A flag may be written with one dash or two.
pub proof fn one_dash_or_two(name: Seq<char>)
    requires
        name.len() > 0,
        name[0] != '-',
    ensures
        flag_name(seq!['-'] + name) == name,
        flag_name(seq!['-', '-'] + name) == name,
        !ends_flags(seq!['-'] + name),
        !ends_flags(seq!['-', '-'] + name),
{
    assert((seq!['-'] + name).skip(1) =~= name);
    assert((seq!['-', '-'] + name).skip(2) =~= name);
    assert((seq!['-'] + name)[1] == name[0]);
    assert((seq!['-', '-'] + name).len() > 2);
}

/// The flags that have a value.
pub open spec fn takes_value(key: Seq<char>) -> bool {
    key == "poll"@ || key == "interval"@ || key == "process"@ || key == "log"@ || key
        == "render-test"@
}

proof fn lemma_no_equals(key: Seq<char>, tail: Seq<char>)
    requires
        first_at(key, '=') == key.len(),
    ensures
        first_at(key + seq!['='] + tail, '=') == key.len(),
    decreases key.len(),
{
    let s = key + seq!['='] + tail;
    if key.len() == 0 {
        assert(s[0] == '=');
    } else {
        assert(s[0] == key[0]);
        assert(s.skip(1) =~= key.skip(1) + seq!['='] + tail);
        lemma_no_equals(key.skip(1), tail);
    }
}

/// No equals sign in `s`.
proof fn lemma_absent(s: Seq<char>)
    requires
        forall|i: int| 0 <= i < s.len() ==> s[i] != '=',
    ensures
        first_at(s, '=') == s.len(),
    decreases s.len(),
{
    if s.len() > 0 {
        lemma_absent(s.skip(1));
    }
}

proof fn lemma_keys(key: Seq<char>)
    requires
        takes_value(key),
    ensures
        key.len() > 0,
        key[0] != '-',
        key[0] != '=',
        first_at(key, '=') == key.len(),
{
    reveal_strlit("poll");
    reveal_strlit("interval");
    reveal_strlit("process");
    reveal_strlit("log");
    reveal_strlit("render-test");
    lemma_absent(key);
}

/// A flag's value may stand behind an equals sign or in the next argument.
pub proof fn inline_or_separate(
    key: Seq<char>,
    value: Seq<char>,
    rest: Seq<Seq<char>>,
    o: Asked,
    process: Seq<char>,
)
    requires
        takes_value(key),
    ensures
        parsed(seq![seq!['-'] + key + seq!['='] + value] + rest, 0, o, process) == parsed(
            seq![seq!['-'] + key, value] + rest,
            0,
            o,
            process,
        ),
{
    lemma_keys(key);
    let name = key + seq!['='] + value;
    let a = seq![seq!['-'] + key + seq!['='] + value] + rest;
    let b = seq![seq!['-'] + key, value] + rest;
    assert(a[0] =~= seq!['-'] + name);
    assert(name[0] == key[0]);
    one_dash_or_two(name);
    one_dash_or_two(key);
    lemma_no_equals(key, value);
    assert(name.take(key.len() as int) =~= key);
    assert(name.skip(key.len() as int + 1) =~= value);
    assert(key.take(key.len() as int) =~= key);
    assert(b[1] == value);
    assert(value_of(a, 0) == Some(value));
    assert(value_of(b, 0) == Some(value));
    assert(a.skip(1) =~= rest);
    assert(b.skip(2) =~= rest);
    if let Some(ns) = duration_of(value) {
        lemma_parsed_shifts(a, 1, b, 2, Asked { poll: ns, ..o }, process);
        lemma_parsed_shifts(a, 1, b, 2, Asked { stats: ns, ..o }, process);
    }
    lemma_parsed_shifts(a, 1, b, 2, Asked { process: value, ..o }, process);
    lemma_parsed_shifts(a, 1, b, 2, Asked { log: Some(value), ..o }, process);
    lemma_parsed_shifts(a, 1, b, 2, Asked { render_test: Some(value), ..o }, process);
}

/// What follows the end of the flags is ignored.
pub proof fn rest_is_ignored(
    end: Seq<char>,
    rest: Seq<Seq<char>>,
    o: Asked,
    process: Seq<char>,
)
    requires
        ends_flags(end),
    ensures
        parsed(seq![end] + rest, 0, o, process) == Parsed::Run(o),
{
    assert((seq![end] + rest)[0] == end);
}

/// `o` with the one field that the flag `key` sets, for the value `v`; `None` if `v` is not valid
/// for it.
pub open spec fn with_field(o: Asked, key: Seq<char>, v: Seq<char>) -> Option<Asked> {
    if key == "poll"@ {
        match duration_of(v) {
            Some(poll) => Some(Asked { poll, ..o }),
            None => None,
        }
    } else if key == "interval"@ {
        match duration_of(v) {
            Some(stats) => Some(Asked { stats, ..o }),
            None => None,
        }
    } else if key == "process"@ {
        Some(Asked { process: v, ..o })
    } else if key == "log"@ {
        Some(Asked { log: Some(v), ..o })
    } else {
        Some(Asked { render_test: Some(v), ..o })
    }
}

/// Nothing, or a list that ends the flags at once.
pub open spec fn is_end(tail: Seq<Seq<char>>) -> bool {
    tail.len() == 0 || ends_flags(tail[0])
}

/// The flag at the start of a command line sets its field, and what follows it is parsed on.
proof fn lemma_flag_sets_field(
    args: Seq<Seq<char>>,
    next: int,
    key: Seq<char>,
    v: Seq<char>,
    o: Asked,
    process: Seq<char>,
)
    requires
        args.len() > 0,
        !ends_flags(args[0]),
        takes_value(key),
        key_of(flag_name(args[0])) == key,
        flag_name(args[0])[0] == key[0],
        value_of(args, 0) == Some(v),
        next == (if is_inline(flag_name(args[0])) {
            1int
        } else {
            2
        }),
        with_field(o, key, v) is Some,
    ensures
        parsed(args, 0, o, process) == parsed(args, next, with_field(o, key, v)->0, process),
{
    lemma_keys(key);
}

/// All spellings of one flag, `-name value`, `--name value`, `-name=value` and `--name=value`, set
/// the field of that flag and no other, also before a list that ends the flags, of which nothing
/// counts.
pub proof fn one_flag_sets_one_field(
    key: Seq<char>,
    v: Seq<char>,
    tail: Seq<Seq<char>>,
    o: Asked,
    process: Seq<char>,
)
    requires
        takes_value(key),
        with_field(o, key, v) is Some,
        is_end(tail),
    ensures
        parsed(seq![seq!['-'] + key, v] + tail, 0, o, process) == Parsed::Run(
            with_field(o, key, v)->0,
        ),
        parsed(seq![seq!['-', '-'] + key, v] + tail, 0, o, process) == Parsed::Run(
            with_field(o, key, v)->0,
        ),
        parsed(seq![seq!['-'] + key + seq!['='] + v] + tail, 0, o, process) == Parsed::Run(
            with_field(o, key, v)->0,
        ),
        parsed(seq![seq!['-', '-'] + key + seq!['='] + v] + tail, 0, o, process) == Parsed::Run(
            with_field(o, key, v)->0,
        ),
{
    lemma_keys(key);
    let set = with_field(o, key, v)->0;
    let name = key + seq!['='] + v;
    assert(name[0] == key[0]);
    one_dash_or_two(key);
    one_dash_or_two(name);
    lemma_no_equals(key, v);
    assert(key.take(key.len() as int) =~= key);
    assert(name.take(key.len() as int) =~= key);
    assert(name.skip(key.len() as int + 1) =~= v);
    let a = seq![seq!['-'] + key, v] + tail;
    let b = seq![seq!['-', '-'] + key, v] + tail;
    let c = seq![seq!['-'] + key + seq!['='] + v] + tail;
    let d = seq![seq!['-', '-'] + key + seq!['='] + v] + tail;
    assert(a[1] == v && b[1] == v);
    assert(c[0] =~= seq!['-'] + name);
    assert(d[0] =~= seq!['-', '-'] + name);
    assert(a.skip(2) =~= tail && b.skip(2) =~= tail && c.skip(1) =~= tail && d.skip(1) =~= tail);
    lemma_flag_sets_field(a, 2, key, v, o, process);
    lemma_flag_sets_field(b, 2, key, v, o, process);
    lemma_flag_sets_field(c, 1, key, v, o, process);
    lemma_flag_sets_field(d, 1, key, v, o, process);
    assert(tail.len() > 0 ==> a[2] == tail[0] && b[2] == tail[0] && c[1] == tail[0] && d[1]
        == tail[0]);
}

/// Without a flag, or with a list that ends the flags at once, everything is as documented.
pub proof fn no_flag_gives_defaults(tail: Seq<Seq<char>>, process: Seq<char>)
    requires
        is_end(tail),
    ensures
        parsed(tail, 0, defaults(process), process) == Parsed::Run(defaults(process)),
{
}

} // verus!
