//! `wsl.exe --shutdown`: how it is run and what comes of it.
use vstd::prelude::*;
use vstd::slice::*;
use vstd::string::*;

use crate::text::{numbered, numbered_text};
use crate::utf16::{encoded, wide};

pub mod steps;

verus! {

/// What is known of the shutdown so far.
#[derive(Debug)]
pub enum Known {
    /// The system directory as read into a buffer, how many units of it are the directory (0 if
    /// that failed), and the system's error code.
    Directory(Vec<u16>, usize, u32),
    /// Whether the process was created (not 0), and the system's error code.
    Created(i32, u32),
    /// The process has ended with this exit code.
    Ended(u32),
}

/// What to do next.
#[derive(Debug)]
pub enum Run {
    /// Create a process from this executable with this command line, both NUL-terminated.
    Create(Vec<u16>, Vec<u16>),
    /// Wait for the process to end.
    Wait,
    /// Finished.
    Done(Result<(), String>),
}

/// `r` is what follows `k`.
pub open spec fn follows(k: Known, r: Run) -> bool {
    match k {
        Known::Directory(dir, n, code) => if n == 0 || n >= dir@.len() {
            r matches Run::Done(Err(e)) && e@ == numbered_text(
                "wsl --shutdown: GetSystemDirectory failed ("@,
                code as nat,
                ")"@,
            )
        } else {
            r matches Run::Create(exe, line) && exe@ == dir@.take(n as int) + encoded(
                "\\wsl.exe"@,
            ).push(0) && line@ == encoded("wsl.exe --shutdown"@).push(0)
        },
        Known::Created(ok, code) => if ok == 0 {
            r matches Run::Done(Err(e)) && e@ == numbered_text(
                "wsl --shutdown: CreateProcess failed ("@,
                code as nat,
                ")"@,
            )
        } else {
            r is Wait
        },
        Known::Ended(code) => if code != 0 {
            r matches Run::Done(Err(e)) && e@ == numbered_text(
                "wsl --shutdown: exit status "@,
                code as nat,
                ""@,
            )
        } else {
            r matches Run::Done(Ok(_))
        },
    }
}

/// Runs `wsl.exe --shutdown` and fails with the exit code if it is non-zero: what to do next. The
/// executable is given by full path so that, unlike with a bare command line, the current
/// directory is never searched for a `wsl.exe`.
pub fn shutdown_wsl(k: Known) -> (r: Run)
    ensures
        follows(k, r),
{
    match k {
        Known::Directory(dir, n, code) => {
            if n == 0 || n >= dir.len() {
                return Run::Done(
                    Err(
                        numbered(
                            "wsl --shutdown: GetSystemDirectory failed (",
                            code as u64,
                            ")",
                        ),
                    ),
                );
            }
            let mut exe: Vec<u16> = Vec::new();
            exe.extend_from_slice(slice_subrange(dir.as_slice(), 0, n));
            exe.extend_from_slice(wide("\\wsl.exe").as_slice());
            assert(exe@ =~= dir@.take(n as int) + encoded("\\wsl.exe"@).push(0));
            Run::Create(exe, wide("wsl.exe --shutdown"))
        },
        Known::Created(ok, code) => if ok == 0 {
            Run::Done(
                Err(numbered("wsl --shutdown: CreateProcess failed (", code as u64, ")")),
            )
        } else {
            Run::Wait
        },
        Known::Ended(code) => if code != 0 {
            Run::Done(Err(numbered("wsl --shutdown: exit status ", code as u64, "")))
        } else {
            Run::Done(Ok(()))
        },
    }
}

/// The process is only ever created from a full path: one that begins with the system directory
/// and ends in the program's name.
pub proof fn executable_has_full_path(k: Known, exe: Vec<u16>, line: Vec<u16>)
    requires
        follows(k, Run::Create(exe, line)),
    ensures
        k matches Known::Directory(dir, n, _) && 0 < n < dir@.len() && exe@.take(n as int)
            == dir@.take(n as int) && exe@.skip(n as int) == encoded("\\wsl.exe"@).push(0),
{
    if let Known::Directory(dir, n, _) = k {
        assert(exe@.take(n as int) =~= dir@.take(n as int));
        assert(exe@.skip(n as int) =~= encoded("\\wsl.exe"@).push(0));
    }
}

} // verus!
