//! Laws of the command line: flags in turn, and what is refused.
use vstd::prelude::*;
use vstd::string::*;

use crate::duration::duration_of;
use crate::text::reading::tells;

use super::{
    ends_flags, flag_name, is_inline, key_of, lemma_absent, lemma_flag_sets_field, lemma_keys,
    lemma_no_equals, lemma_parsed_shifts, one_dash_or_two, parsed, result_of, takes_value,
    usage_text, value_of, with_field, with_usage, Asked, Options, Parsed, USAGE_HEAD, USAGE_TAIL,
};

verus! {

/// A flag and its value, with one dash or two, the value behind an equals sign or in an argument of
/// its own.
pub open spec fn flag(key: Seq<char>, v: Seq<char>, two: bool, inline: bool) -> Seq<Seq<char>> {
    let dashed = (if two {
        seq!['-', '-']
    } else {
        seq!['-']
    }) + key;
    if inline {
        seq![dashed + seq!['='] + v]
    } else {
        seq![dashed, v]
    }
}

/// How a flag is read.
proof fn lemma_flag(key: Seq<char>, v: Seq<char>, two: bool, inline: bool, rest: Seq<Seq<char>>)
    requires
        takes_value(key),
    ensures
        ({
            let args = flag(key, v, two, inline) + rest;
            let name = flag_name(args[0]);
            &&& args.len() > 0
            &&& !ends_flags(args[0])
            &&& name.len() > 0 && name[0] == key[0]
            &&& key_of(name) == key
            &&& is_inline(name) == inline
            &&& value_of(args, 0) == Some(v)
            &&& args.skip(if inline {
                1
            } else {
                2
            }) == rest
        }),
{
    lemma_keys(key);
    let args = flag(key, v, two, inline) + rest;
    let name = if inline {
        key + seq!['='] + v
    } else {
        key
    };
    assert(name[0] == key[0]);
    one_dash_or_two(name);
    if two {
        assert(args[0] =~= seq!['-', '-'] + name);
    } else {
        assert(args[0] =~= seq!['-'] + name);
    }
    if inline {
        lemma_no_equals(key, v);
        assert(name.take(key.len() as int) =~= key);
        assert(name.skip(key.len() as int + 1) =~= v);
        assert(args.skip(1) =~= rest);
    } else {
        assert(key.take(key.len() as int) =~= key);
        assert(args[1] == v);
        assert(args.skip(2) =~= rest);
    }
}

/// What options say stands in the field of that name; help and a wrong command line are told apart
/// from them.
pub proof fn options_say_what_is_asked(o: Options, why: String)
    ensures
        o@.poll == o.poll,
        o@.stats == o.stats,
        o@.process == o.process@,
        o.log matches Some(file) ==> o@.log == Some(file@),
        o.log is None ==> o@.log is None,
        o.render_test matches Some(dir) ==> o@.render_test == Some(dir@),
        o.render_test is None ==> o@.render_test is None,
        result_of(Ok(Some(o))) == Parsed::Run(o@),
        result_of(Ok(None)) == Parsed::Help,
        result_of(Err(why)) == Parsed::Wrong(why@),
{
}

/// Flags are read in turn: each sets its field for what follows. A value that is no duration where
/// one is needed ends it, whatever follows.
pub proof fn flags_are_read_in_turn(
    key: Seq<char>,
    v: Seq<char>,
    two: bool,
    inline: bool,
    rest: Seq<Seq<char>>,
    o: Asked,
    process: Seq<char>,
)
    requires
        takes_value(key),
    ensures
        with_field(o, key, v) matches Some(set) ==> parsed(
            flag(key, v, two, inline) + rest,
            0,
            o,
            process,
        ) == parsed(rest, 0, set, process),
        with_field(o, key, v) is None ==> (parsed(flag(key, v, two, inline) + rest, 0, o, process)
            matches Parsed::Wrong(why) && why == (if key == "poll"@ {
            "bad --poll duration"@
        } else {
            "bad --interval duration"@
        })),
{
    let args = flag(key, v, two, inline) + rest;
    let next: int = if inline {
        1
    } else {
        2
    };
    lemma_flag(key, v, two, inline, rest);
    lemma_keys(key);
    if let Some(set) = with_field(o, key, v) {
        lemma_flag_sets_field(args, next, key, v, o, process);
        assert(rest.skip(0) =~= rest);
        lemma_parsed_shifts(args, next, rest, 0, set, process);
    }
}

/// Each flag sets the field it is named after, to its value or the duration that its value stands
/// for, and leaves every other field alone.
pub proof fn flags_set_their_own_fields(o: Asked, key: Seq<char>, v: Seq<char>, set: Asked)
    requires
        takes_value(key),
        with_field(o, key, v) == Some(set),
    ensures
        set.poll != o.poll ==> key == "poll"@,
        set.stats != o.stats ==> key == "interval"@,
        set.process != o.process ==> key == "process"@,
        set.log != o.log ==> key == "log"@,
        set.render_test != o.render_test ==> key == "render-test"@,
        key == "poll"@ ==> duration_of(v) == Some(set.poll),
        key == "interval"@ ==> duration_of(v) == Some(set.stats),
        key == "process"@ ==> set.process == v,
        key == "log"@ ==> set.log == Some(v),
        key == "render-test"@ ==> set.render_test == Some(v),
{
    lemma_keys_differ();
}

proof fn lemma_keys_differ()
    ensures
        "poll"@.len() == 4,
        "interval"@.len() == 8,
        "process"@.len() == 7,
        "log"@.len() == 3,
        "render-test"@.len() == 11,
        "h"@.len() == 1,
        "help"@.len() == 4,
        "poll"@[0] == 'p',
        "help"@[0] == 'h',
        "h"@[0] == 'h',
{
    reveal_strlit("poll");
    reveal_strlit("interval");
    reveal_strlit("process");
    reveal_strlit("log");
    reveal_strlit("render-test");
    reveal_strlit("h");
    reveal_strlit("help");
}

/// Of two values for one flag the last one counts.
pub proof fn last_value_counts(
    key: Seq<char>,
    v: Seq<char>,
    w: Seq<char>,
    rest: Seq<Seq<char>>,
    o: Asked,
    process: Seq<char>,
)
    requires
        takes_value(key),
        with_field(o, key, v) is Some,
        with_field(o, key, w) is Some,
    ensures
        parsed(flag(key, v, false, false) + (flag(key, w, false, false) + rest), 0, o, process)
            == parsed(flag(key, w, false, false) + rest, 0, o, process),
{
    let more = flag(key, w, false, false) + rest;
    let first = with_field(o, key, v)->0;
    flags_are_read_in_turn(key, v, false, false, more, o, process);
    flags_are_read_in_turn(key, w, false, false, rest, first, process);
    flags_are_read_in_turn(key, w, false, false, rest, o, process);
    assert(with_field(first, key, w) == with_field(o, key, w));
}

/// Flags for different fields may stand in either order.
pub proof fn order_does_not_matter(
    key: Seq<char>,
    v: Seq<char>,
    other: Seq<char>,
    w: Seq<char>,
    rest: Seq<Seq<char>>,
    o: Asked,
    process: Seq<char>,
)
    requires
        takes_value(key),
        takes_value(other),
        key != other,
        with_field(o, key, v) is Some,
        with_field(o, other, w) is Some,
    ensures
        parsed(flag(key, v, false, false) + (flag(other, w, false, false) + rest), 0, o, process)
            == parsed(
            flag(other, w, false, false) + (flag(key, v, false, false) + rest),
            0,
            o,
            process,
        ),
{
    let a = with_field(o, key, v)->0;
    let b = with_field(o, other, w)->0;
    flags_are_read_in_turn(
        key,
        v,
        false,
        false,
        flag(other, w, false, false) + rest,
        o,
        process,
    );
    flags_are_read_in_turn(other, w, false, false, rest, a, process);
    flags_are_read_in_turn(
        other,
        w,
        false,
        false,
        flag(key, v, false, false) + rest,
        o,
        process,
    );
    flags_are_read_in_turn(key, v, false, false, rest, b, process);
    lemma_keys_differ();
    assert(with_field(a, other, w) == with_field(b, key, v));
}

/// The flags end at `--`, at `-`, at an empty argument, and at anything that does not begin with a
/// dash; what comes then, flags or not, is never read.
pub proof fn flags_end_without_a_dash(
    a: Seq<char>,
    rest: Seq<Seq<char>>,
    o: Asked,
    process: Seq<char>,
)
    requires
        a.len() == 0 || a[0] != '-' || a == seq!['-'] || a == seq!['-', '-'],
    ensures
        parsed(seq![a] + rest, 0, o, process) == Parsed::Run(o),
{
    assert((seq![a] + rest)[0] == a);
}

/// A dash and a name are a flag: they never end the flags.
pub proof fn names_behind_dashes_are_flags(name: Seq<char>)
    requires
        name.len() > 0,
        name != seq!['-'],
    ensures
        !ends_flags(seq!['-'] + name),
{
    let a = seq!['-'] + name;
    if a == seq!['-', '-'] {
        assert(a.skip(1) =~= name);
        assert(seq!['-', '-'].skip(1) =~= seq!['-']);
    }
}

/// Help is given wherever it is asked for among the flags, with one dash or two.
pub proof fn help_is_given(
    key: Seq<char>,
    two: bool,
    rest: Seq<Seq<char>>,
    o: Asked,
    process: Seq<char>,
)
    requires
        key == "h"@ || key == "help"@,
    ensures
        parsed(
            seq![(if two {
                seq!['-', '-']
            } else {
                seq!['-']
            }) + key] + rest,
            0,
            o,
            process,
        ) == Parsed::Help,
{
    reveal_strlit("h");
    reveal_strlit("help");
    lemma_keys_differ();
    one_dash_or_two(key);
    assert forall|i: int| 0 <= i < key.len() implies key[i] != '=' by {}
    lemma_absent(key);
    assert(key.take(key.len() as int) =~= key);
    let args = seq![(if two {
        seq!['-', '-']
    } else {
        seq!['-']
    }) + key] + rest;
    assert(flag_name(args[0]) == key);
}

/// A flag that is not known is refused, in whatever place, and told together with the help text.
pub proof fn unknown_flags_are_refused(
    arg: Seq<char>,
    rest: Seq<Seq<char>>,
    o: Asked,
    process: Seq<char>,
)
    requires
        !ends_flags(arg),
        ({
            let key = key_of(flag_name(arg));
            !takes_value(key) && key != "h"@ && key != "help"@
        }),
    ensures
        parsed(seq![arg] + rest, 0, o, process) matches Parsed::Wrong(why) && tells(
            why,
            arg,
            seq!['\n', '\n'] + usage_text(process),
        ),
{
    let args = seq![arg] + rest;
    assert(args[0] == arg);
    let name = flag_name(arg);
    let what = if name[0] == '-' || name[0] == '=' {
        "bad flag syntax: "@
    } else {
        "unknown flag: "@
    };
    let why = with_usage(what, arg, process);
    assert(parsed(args, 0, o, process) == Parsed::Wrong(why));
    let none = Seq::<char>::empty();
    assert(why =~= what + arg + (seq!['\n', '\n'] + usage_text(process)) + none);
}

/// A flag at the end without its value is refused, and told by its name.
pub proof fn missing_values_are_refused(key: Seq<char>, two: bool, o: Asked, process: Seq<char>)
    requires
        takes_value(key),
    ensures
        parsed(
            seq![(if two {
                seq!['-', '-']
            } else {
                seq!['-']
            }) + key],
            0,
            o,
            process,
        ) matches Parsed::Wrong(why) && tells(
            why,
            "missing value for --"@,
            key + seq!['\n', '\n'] + usage_text(process),
        ),
{
    lemma_keys(key);
    one_dash_or_two(key);
    assert(key.take(key.len() as int) =~= key);
    let args = seq![(if two {
        seq!['-', '-']
    } else {
        seq!['-']
    }) + key];
    assert(flag_name(args[0]) == key);
    let why = with_usage("missing value for --"@, key, process);
    assert(parsed(args, 0, o, process) == Parsed::Wrong(why));
    let none = Seq::<char>::empty();
    assert(why =~= none + "missing value for --"@ + (key + seq!['\n', '\n'] + usage_text(process))
        + none);
}

/// The help text names the process that is looked for by default, and nothing else of it depends
/// on that.
pub proof fn usage_names_the_process(process: Seq<char>)
    ensures
        tells(usage_text(process), "[--process "@, process + "]"@),
{
    reveal_strlit("[--process ");
    reveal_strlit("]");
    reveal_strlit("wsl-tray [--poll 7.5s] [--interval 30s] [--process ");
    reveal_strlit(
        "] [--log FILE] [--render-test DIR]\n\n  --poll         how often to check whether WSL2 is running (cheap)\n  --interval     how often to refresh CPU/memory while WSL2 is running\n  --process      name of the WSL2 VM process\n  --log          append diagnostic log lines to this file\n  --render-test  write sample icon PNGs to this directory and exit",
    );
    let head = USAGE_HEAD@;
    let tail = USAGE_TAIL@;
    let before = head.take(head.len() - 11);
    let after = tail.skip(1);
    assert(head =~= before + "[--process "@);
    assert(tail =~= "]"@ + after);
    assert(usage_text(process) =~= before + "[--process "@ + (process + "]"@) + after);
}

} // verus!
