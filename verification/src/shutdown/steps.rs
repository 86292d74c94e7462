//! Laws of `wsl.exe --shutdown`: what is run, and when it has succeeded.
use vstd::prelude::*;
use vstd::string::*;

use crate::argv::{bare_line_splits_back, is_blank, plain_argument_is_kept, spaced, split};
use crate::text::decimal;
use crate::text::reading::tells;
use crate::utf16::encoded;

use super::{follows, Known, Run};

verus! {

/// The process that is created is called `wsl.exe` and gets the one argument `--shutdown`.
pub proof fn shutdown_is_what_is_run(k: Known, exe: Vec<u16>, line: Vec<u16>)
    requires
        follows(k, Run::Create(exe, line)),
    ensures
        exists|text: Seq<char>|
            {
                &&& line@ == #[trigger] encoded(text).push(0)
                &&& split(text) == seq!["wsl.exe"@, "--shutdown"@]
            },
{
    let text = "wsl.exe --shutdown"@;
    let args = seq!["--shutdown"@];
    reveal_strlit("wsl.exe --shutdown");
    reveal_strlit("wsl.exe");
    reveal_strlit("--shutdown");
    let (name, arg) = ("wsl.exe"@, "--shutdown"@);
    assert forall|i: int| 0 <= i < name.len() implies !is_blank(#[trigger] name[i]) && name[i]
        != '"' by {}
    assert forall|i: int| 0 <= i < arg.len() implies !is_blank(#[trigger] arg[i]) && arg[i]
        != '"' by {}
    plain_argument_is_kept(arg);
    assert(args.skip(1) =~= seq![]);
    assert(spaced(args.skip(1)) =~= seq![]);
    assert(spaced(args) =~= seq![' '] + arg);
    assert(text =~= name + spaced(args));
    bare_line_splits_back(name, args);
    assert(seq![name] + args =~= seq![name, arg]);
    assert(line@ == encoded(text).push(0));
}

/// Each step follows what is known: the process is created once the system directory is known,
/// waited for once it is created, and has succeeded only if it ended with 0.
pub proof fn steps_follow_in_order(k: Known, r: Run)
    requires
        follows(k, r),
    ensures
        r is Create <==> (k matches Known::Directory(dir, n, _) && 0 < n < dir@.len()),
        r is Wait <==> (k matches Known::Created(ok, _) && ok != 0),
        (r matches Run::Done(Ok(_))) <==> k == Known::Ended(0),
{
}

/// Every failure is told with its number: the system's error code, or the exit code.
pub proof fn failures_are_told(k: Known, r: Run)
    requires
        follows(k, r),
    ensures
        r matches Run::Done(Err(e)) ==> match k {
            Known::Directory(_, _, code) => tells(
                e@,
                "wsl --shutdown: GetSystemDirectory failed ("@,
                decimal(code as nat) + ")"@,
            ),
            Known::Created(_, code) => tells(
                e@,
                "wsl --shutdown: CreateProcess failed ("@,
                decimal(code as nat) + ")"@,
            ),
            Known::Ended(code) => tells(
                e@,
                "wsl --shutdown: exit status "@,
                decimal(code as nat),
            ) && code != 0,
        },
{
    if let Run::Done(Err(e)) = r {
        let none = Seq::<char>::empty();
        match k {
            Known::Directory(_, _, code) => {
                assert(e@ =~= none + "wsl --shutdown: GetSystemDirectory failed ("@ + (decimal(
                    code as nat,
                ) + ")"@) + none);
            },
            Known::Created(_, code) => {
                assert(e@ =~= none + "wsl --shutdown: CreateProcess failed ("@ + (decimal(
                    code as nat,
                ) + ")"@) + none);
            },
            Known::Ended(code) => {
                assert(e@ =~= none + "wsl --shutdown: exit status "@ + decimal(code as nat) + ""@);
            },
        }
    }
}

} // verus!
