//! Command lines of Windows programs: how arguments are written into one line, and how a program
//! splits the line again.
use vstd::prelude::*;
use vstd::string::*;

use crate::text::{chars_of, push_chars, texts};

verus! {

/// What separates arguments.
pub open spec fn is_blank(c: char) -> bool {
    c == ' ' || c == '\t'
}

/// `n` backslashes.
pub open spec fn slashes(n: nat) -> Seq<char> {
    Seq::new(n, |i: int| '\\')
}

/// How many backslashes `s` begins with.
pub open spec fn leading(s: Seq<char>) -> nat
    decreases s.len(),
{
    if s.len() > 0 && s[0] == '\\' {
        1 + leading(s.skip(1))
    } else {
        0
    }
}

/// `c`, then the rest of an argument.
pub open spec fn prefixed(c: Seq<char>, more: (Seq<char>, Seq<char>)) -> (Seq<char>, Seq<char>) {
    (c + more.0, more.1)
}

/// The program's name at the start of a line, and the line behind it. A quote begins or ends a
/// part in which blanks belong to the name.
pub open spec fn program(line: Seq<char>, quoted: bool) -> (Seq<char>, Seq<char>)
    decreases line.len(),
{
    if line.len() == 0 {
        (seq![], seq![])
    } else if line[0] == '"' {
        program(line.skip(1), !quoted)
    } else if is_blank(line[0]) && !quoted {
        (seq![], line.skip(1))
    } else {
        prefixed(seq![line[0]], program(line.skip(1), quoted))
    }
}

/// The argument at the start of a line, and the line behind it. A quote begins or ends a part in
/// which blanks belong to the argument, and two quotes in such a part are one. Backslashes stand
/// for themselves, but before a quote two of them are one, and one that is left over takes the
/// quote's meaning away.
pub open spec fn argument(line: Seq<char>, quoted: bool) -> (Seq<char>, Seq<char>)
    decreases line.len(),
{
    let n = leading(line);
    if line.len() == 0 {
        (seq![], seq![])
    } else if n > 0 {
        if n >= line.len() {
            (line, seq![])
        } else if line[n as int] != '"' {
            prefixed(slashes(n), argument(line.skip(n as int), quoted))
        } else if n % 2 == 0 {
            prefixed(slashes(n / 2), argument(line.skip(n as int), quoted))
        } else {
            prefixed(slashes(n / 2).push('"'), argument(line.skip(n as int + 1), quoted))
        }
    } else if line[0] == '"' {
        if quoted && line.len() > 1 && line[1] == '"' {
            prefixed(seq!['"'], argument(line.skip(2), quoted))
        } else {
            argument(line.skip(1), !quoted)
        }
    } else if is_blank(line[0]) && !quoted {
        (seq![], line.skip(1))
    } else {
        prefixed(seq![line[0]], argument(line.skip(1), quoted))
    }
}

/// The arguments in a line; blanks before, between and behind them do not count.
pub open spec fn arguments(line: Seq<char>) -> Seq<Seq<char>>
    decreases line.len(),
{
    if line.len() == 0 {
        seq![]
    } else if is_blank(line[0]) {
        arguments(line.skip(1))
    } else {
        let (first, rest) = argument(line, false);
        if rest.len() < line.len() {
            seq![first] + arguments(rest)
        } else {
            seq![first]
        }
    }
}

/// A command line as the program that it starts sees it: its own name, then its arguments.
pub open spec fn split(line: Seq<char>) -> Seq<Seq<char>> {
    let (name, rest) = program(line, false);
    seq![name] + arguments(rest)
}

/// An argument that has to be quoted to come through as it is.
pub open spec fn needs_quotes(a: Seq<char>) -> bool {
    a.len() == 0 || exists|i: int| 0 <= i < a.len() && (is_blank(#[trigger] a[i]) || a[i] == '"')
}

/// An argument as it stands between quotes: backslashes before a quote, or before the end, are
/// doubled, and a quote has one more before it.
pub open spec fn escaped(a: Seq<char>) -> Seq<char>
    decreases a.len(),
{
    let n = leading(a);
    if n >= a.len() {
        slashes(2 * n)
    } else if a[n as int] == '"' {
        slashes(2 * n + 1).push('"') + escaped(a.skip(n as int + 1))
    } else {
        slashes(n).push(a[n as int]) + escaped(a.skip(n as int + 1))
    }
}

/// An argument as it is written into a line.
pub open spec fn written(a: Seq<char>) -> Seq<char> {
    if needs_quotes(a) {
        seq!['"'] + escaped(a) + seq!['"']
    } else {
        a
    }
}

/// Arguments one after the other, each behind a blank.
pub open spec fn spaced(args: Seq<Seq<char>>) -> Seq<char>
    decreases args.len(),
{
    if args.len() == 0 {
        seq![]
    } else {
        seq![' '] + written(args[0]) + spaced(args.skip(1))
    }
}

/// The command line that starts `exe` with these arguments.
pub open spec fn command_line(exe: Seq<char>, args: Seq<Seq<char>>) -> Seq<char> {
    seq!['"'] + exe + seq!['"'] + spaced(args)
}

proof fn lemma_leading_slashes(n: nat, s: Seq<char>)
    requires
        s.len() == 0 || s[0] != '\\',
    ensures
        leading(slashes(n) + s) == n,
    decreases n,
{
    let t = slashes(n) + s;
    if n > 0 {
        assert(t.skip(1) =~= slashes((n - 1) as nat) + s);
        lemma_leading_slashes((n - 1) as nat, s);
    } else {
        assert(t =~= s);
    }
}

/// A text is its leading backslashes and what follows them.
proof fn lemma_after_slashes(s: Seq<char>)
    ensures
        leading(s) <= s.len(),
        s.take(leading(s) as int) == slashes(leading(s)),
        leading(s) < s.len() ==> s[leading(s) as int] != '\\',
    decreases s.len(),
{
    let n = leading(s);
    if s.len() > 0 && s[0] == '\\' {
        lemma_after_slashes(s.skip(1));
        assert(s.take(n as int) =~= seq![s[0]] + s.skip(1).take(n - 1));
        assert(slashes(n) =~= seq!['\\'] + slashes((n - 1) as nat));
    } else {
        assert(s.take(0) =~= slashes(0));
    }
}

/// What may follow an argument: nothing, or a blank and more.
spec fn ends_argument(tail: Seq<char>) -> bool {
    tail.len() == 0 || is_blank(tail[0])
}

/// The line behind an argument that `tail` follows.
spec fn behind(tail: Seq<char>) -> Seq<char> {
    if tail.len() == 0 {
        tail
    } else {
        tail.skip(1)
    }
}

proof fn lemma_argument_ends(tail: Seq<char>)
    requires
        ends_argument(tail),
    ensures
        argument(tail, false) == (Seq::<char>::empty(), behind(tail)),
{
}

/// Between quotes, an escaped argument is read as it was.
proof fn lemma_escaped_reads(a: Seq<char>, tail: Seq<char>)
    requires
        ends_argument(tail),
    ensures
        argument(escaped(a) + seq!['"'] + tail, true) == (a, behind(tail)),
    decreases a.len(),
{
    let n = leading(a);
    let line = escaped(a) + seq!['"'] + tail;
    lemma_after_slashes(a);
    if n >= a.len() {
        let close = seq!['"'] + tail;
        assert(line =~= slashes(2 * n) + close);
        lemma_leading_slashes(2 * n, close);
        assert(line.skip(2 * n as int) =~= close);
        assert(close.skip(1) =~= tail);
        lemma_leading_slashes(0, close);
        assert(slashes(0) + close =~= close);
        lemma_argument_ends(tail);
        assert(argument(close, true) == (Seq::<char>::empty(), behind(tail)));
        assert(a =~= slashes(n));
        assert(slashes(n) + Seq::<char>::empty() =~= a);
        if n == 0 {
            assert(line =~= close);
        }
    } else {
        let c = a[n as int];
        let rest = escaped(a.skip(n as int + 1)) + seq!['"'] + tail;
        lemma_escaped_reads(a.skip(n as int + 1), tail);
        if c == '"' {
            let k = 2 * n + 1;
            let quote = seq!['"'] + rest;
            assert(line =~= slashes(k) + quote);
            lemma_leading_slashes(k, quote);
            assert(line[k as int] == '"');
            assert(line.skip(k as int + 1) =~= rest);
            assert(k / 2 == n && k % 2 == 1);
            assert(slashes(n).push('"') + a.skip(n as int + 1) =~= a) by {
                assert(a =~= a.take(n as int) + seq![c] + a.skip(n as int + 1));
            }
        } else {
            let after = seq![c] + rest;
            assert(line =~= slashes(n) + after);
            lemma_leading_slashes(n, after);
            lemma_leading_slashes(0, after);
            assert(slashes(0) + after =~= after);
            assert(after.skip(1) =~= rest);
            assert(argument(after, true) == (seq![c] + a.skip(n as int + 1), behind(tail)));
            assert(slashes(n) + (seq![c] + a.skip(n as int + 1)) =~= a) by {
                assert(a =~= a.take(n as int) + seq![c] + a.skip(n as int + 1));
            }
            if n == 0 {
                assert(line =~= after);
            } else {
                assert(line.skip(n as int) =~= after);
            }
        }
    }
}

/// An argument without blanks and quotes is read as it is.
proof fn lemma_plain_reads(a: Seq<char>, tail: Seq<char>)
    requires
        ends_argument(tail),
        forall|i: int| 0 <= i < a.len() ==> !is_blank(#[trigger] a[i]) && a[i] != '"',
    ensures
        argument(a + tail, false) == (a, behind(tail)),
    decreases a.len(),
{
    let n = leading(a);
    let line = a + tail;
    lemma_after_slashes(a);
    if a.len() == 0 {
        assert(line =~= tail);
        lemma_argument_ends(tail);
    } else if n >= a.len() {
        assert(a =~= slashes(n));
        lemma_leading_slashes(n, tail);
        assert(line.skip(n as int) =~= tail);
        lemma_argument_ends(tail);
        assert(a + Seq::<char>::empty() =~= a);
        if tail.len() == 0 {
            assert(line =~= a);
        }
    } else {
        let c = a[n as int];
        let rest = a.skip(n as int + 1);
        let after = seq![c] + rest + tail;
        lemma_plain_reads(rest, tail);
        assert(a =~= slashes(n) + seq![c] + rest) by {
            assert(a =~= a.take(n as int) + seq![c] + rest);
        }
        assert(line =~= slashes(n) + after);
        lemma_leading_slashes(n, after);
        lemma_leading_slashes(0, after);
        assert(slashes(0) + after =~= after);
        assert(after.skip(1) =~= rest + tail);
        assert(argument(after, false) == (seq![c] + rest, behind(tail)));
        assert(slashes(n) + (seq![c] + rest) =~= a);
        if n == 0 {
            assert(line =~= after);
        } else {
            assert(line.skip(n as int) =~= after);
        }
    }
}

/// A written argument is read as it was.
proof fn lemma_written_reads(a: Seq<char>, tail: Seq<char>)
    requires
        ends_argument(tail),
    ensures
        written(a).len() > 0,
        !is_blank(written(a)[0]),
        argument(written(a) + tail, false) == (a, behind(tail)),
{
    if needs_quotes(a) {
        let rest = escaped(a) + seq!['"'] + tail;
        let line = written(a) + tail;
        assert(line =~= seq!['"'] + rest);
        assert(line.skip(1) =~= rest);
        lemma_escaped_reads(a, tail);
    } else {
        assert forall|i: int| 0 <= i < a.len() implies !is_blank(#[trigger] a[i]) && a[i]
            != '"' by {}
        lemma_plain_reads(a, tail);
    }
}

/// Written arguments are read as they were, with or without the first blank.
proof fn lemma_spaced_reads(args: Seq<Seq<char>>)
    ensures
        arguments(spaced(args)) == args,
        arguments(behind(spaced(args))) == args,
        ends_argument(spaced(args)),
    decreases args.len(),
{
    let line = spaced(args);
    if args.len() == 0 {
        assert(args =~= seq![]);
    } else {
        let tail = spaced(args.skip(1));
        let rest = written(args[0]) + tail;
        lemma_spaced_reads(args.skip(1));
        lemma_written_reads(args[0], tail);
        assert(line =~= seq![' '] + rest);
        assert(line.skip(1) =~= rest);
        assert(rest[0] == written(args[0])[0]);
        assert(argument(rest, false) == (args[0], behind(tail)));
        assert(behind(tail).len() < rest.len());
        assert(arguments(rest) == seq![args[0]] + args.skip(1));
        assert(seq![args[0]] + args.skip(1) =~= args);
    }
}

/// The part of a program's name between quotes is read as it is.
proof fn lemma_program_reads(exe: Seq<char>, tail: Seq<char>)
    requires
        ends_argument(tail),
        !exe.contains('"'),
    ensures
        program(exe + seq!['"'] + tail, true) == (exe, behind(tail)),
    decreases exe.len(),
{
    let line = exe + seq!['"'] + tail;
    if exe.len() == 0 {
        assert(line =~= seq!['"'] + tail);
        assert(line.skip(1) =~= tail);
        assert(program(tail, false) == (Seq::<char>::empty(), behind(tail)));
    } else {
        let rest = exe.skip(1);
        assert(exe.contains(exe[0]));
        assert(!rest.contains('"')) by {
            if rest.contains('"') {
                let i = choose|i: int| 0 <= i < rest.len() && rest[i] == '"';
                assert(exe[i + 1] == '"');
            }
        }
        lemma_program_reads(rest, tail);
        assert(line.skip(1) =~= rest + seq!['"'] + tail);
        assert(seq![exe[0]] + rest =~= exe);
    }
}

/// How many backslashes stand in `a` from `i` on.
fn count_slashes(a: &[char], i: usize) -> (n: usize)
    requires
        i <= a@.len(),
    ensures
        n == leading(a@.skip(i as int)),
        i + n <= a@.len(),
{
    let mut k: usize = i;
    while k < a.len() && a[k] == '\\'
        invariant
            i <= k <= a@.len(),
            leading(a@.skip(i as int)) == k - i + leading(a@.skip(k as int)),
        decreases a@.len() - k,
    {
        assert(a@.skip(k as int).skip(1) =~= a@.skip(k + 1));
        k += 1;
    }
    k - i
}

/// Appends `n` backslashes.
fn push_slashes(s: &mut String, n: usize)
    ensures
        final(s)@ == old(s)@ + slashes(n as nat),
{
    let mut k: usize = 0;
    assert(s@ =~= old(s)@ + slashes(0));
    while k < n
        invariant
            k <= n,
            s@ == old(s)@ + slashes(k as nat),
        decreases n - k,
    {
        s.push('\\');
        k += 1;
        assert(s@ =~= old(s)@ + slashes(k as nat));
    }
}

/// Appends an argument as it stands between quotes.
fn push_escaped(s: &mut String, a: &[char])
    ensures
        final(s)@ == old(s)@ + escaped(a@),
{
    let len: usize = a.len();
    let mut i: usize = 0;
    assert(a@.skip(0) =~= a@);
    loop
        invariant_except_break
            s@ + escaped(a@.skip(i as int)) == old(s)@ + escaped(a@),
        invariant
            i <= len == a@.len(),
        ensures
            s@ == old(s)@ + escaped(a@),
        decreases len - i,
    {
        let ghost before = s@;
        let ghost left = a@.skip(i as int);
        let n: usize = count_slashes(a, i);
        push_slashes(s, n);
        if n == len - i {
            push_slashes(s, n);
            assert(slashes(n as nat) + slashes(n as nat) =~= slashes(2 * n as nat));
            assert(s@ =~= before + escaped(left));
            break;
        }
        let c: char = a[i + n];
        if c == '"' {
            push_slashes(s, n);
            s.push('\\');
            s.push('"');
        } else {
            s.push(c);
        }
        proof {
            let rest = left.skip(n as int + 1);
            assert(left[n as int] == c);
            assert(rest =~= a@.skip(i + n + 1));
            if c == '"' {
                assert(s@ + escaped(rest) =~= before + (slashes((2 * n + 1) as nat).push('"')
                    + escaped(rest)));
            } else {
                assert(s@ + escaped(rest) =~= before + (slashes(n as nat).push(c) + escaped(rest)));
            }
        }
        i = i + n + 1;
    }
}

/// Whether an argument has to be quoted.
fn must_quote(a: &[char]) -> (r: bool)
    ensures
        r == needs_quotes(a@),
{
    let mut i: usize = 0;
    while i < a.len()
        invariant
            i <= a@.len(),
            forall|k: int| 0 <= k < i ==> !is_blank(#[trigger] a@[k]) && a@[k] != '"',
        decreases a@.len() - i,
    {
        let c: char = a[i];
        if c == ' ' || c == '\t' || c == '"' {
            assert(is_blank(a@[i as int]) || a@[i as int] == '"');
            return true;
        }
        i += 1;
    }
    a.len() == 0
}

/// Appends an argument as it is written into a line.
pub fn push_argument(s: &mut String, a: &str)
    ensures
        final(s)@ == old(s)@ + written(a@),
{
    let chars: Vec<char> = chars_of(a);
    if must_quote(chars.as_slice()) {
        s.push('"');
        push_escaped(s, chars.as_slice());
        s.push('"');
    } else {
        push_chars(s, chars.as_slice());
    }
    assert(s@ =~= old(s)@ + written(a@));
}

/// Appends arguments, each behind a blank.
pub fn push_arguments(s: &mut String, args: &Vec<String>)
    ensures
        final(s)@ == old(s)@ + spaced(texts(args@)),
{
    let ghost all = texts(args@);
    let mut i: usize = 0;
    assert(all.skip(0) =~= all);
    while i < args.len()
        invariant
            i <= args@.len(),
            all == texts(args@),
            s@ + spaced(all.skip(i as int)) == old(s)@ + spaced(all),
        decreases args@.len() - i,
    {
        let ghost before = s@;
        s.push(' ');
        push_argument(s, args[i].as_str());
        proof {
            let left = all.skip(i as int);
            assert(left[0] == args@[i as int]@);
            assert(left.skip(1) =~= all.skip(i + 1));
            assert(s@ + spaced(left.skip(1)) =~= before + (seq![' '] + written(left[0]) + spaced(
                left.skip(1),
            )));
        }
        i += 1;
    }
    assert(all.skip(i as int) =~= seq![]);
    assert(s@ + spaced(seq![]) =~= s@);
}

/// A program started from a written command line gets back its name and exactly the arguments,
/// whatever they hold.
pub proof fn command_line_splits_back(exe: Seq<char>, args: Seq<Seq<char>>)
    requires
        !exe.contains('"'),
    ensures
        split(command_line(exe, args)) == seq![exe] + args,
{
    let tail = spaced(args);
    let line = command_line(exe, args);
    lemma_spaced_reads(args);
    lemma_program_reads(exe, tail);
    assert(line.skip(1) =~= exe + seq!['"'] + tail);
}

proof fn lemma_bare_program_reads(exe: Seq<char>, tail: Seq<char>)
    requires
        ends_argument(tail),
        forall|i: int| 0 <= i < exe.len() ==> !is_blank(#[trigger] exe[i]) && exe[i] != '"',
    ensures
        program(exe + tail, false) == (exe, behind(tail)),
    decreases exe.len(),
{
    let line = exe + tail;
    if exe.len() == 0 {
        assert(line =~= tail);
    } else {
        let rest = exe.skip(1);
        assert forall|i: int| 0 <= i < rest.len() implies !is_blank(#[trigger] rest[i]) && rest[i]
            != '"' by {
            assert(!is_blank(exe[i + 1]) && exe[i + 1] != '"');
        }
        assert(!is_blank(exe[0]) && exe[0] != '"');
        lemma_bare_program_reads(rest, tail);
        assert(line.skip(1) =~= rest + tail);
        assert(seq![exe[0]] + rest =~= exe);
    }
}

/// A program's name without blanks and quotes needs no quotes.
pub proof fn bare_line_splits_back(exe: Seq<char>, args: Seq<Seq<char>>)
    requires
        forall|i: int| 0 <= i < exe.len() ==> !is_blank(#[trigger] exe[i]) && exe[i] != '"',
    ensures
        split(exe + spaced(args)) == seq![exe] + args,
{
    lemma_spaced_reads(args);
    lemma_bare_program_reads(exe, spaced(args));
}

/// Arguments without blanks and quotes keep their text.
pub proof fn plain_argument_is_kept(a: Seq<char>)
    requires
        a.len() > 0,
        forall|i: int| 0 <= i < a.len() ==> !is_blank(#[trigger] a[i]) && a[i] != '"',
    ensures
        written(a) == a,
{
}

} // verus!
