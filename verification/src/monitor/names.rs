//! Laws of recognising the VM by its name, and of the snapshot bookkeeping.
use vstd::prelude::*;

use crate::utf16::names::directory_does_not_matter;
use crate::utf16::{encoded, lowered, name_matches_itself};

use super::{
    came_of, grown, names_process, Monitor, Request, Snapshot, Step, SNAPSHOT_SLACK,
    STATUS_INFO_LENGTH_MISMATCH,
};

verus! {

/// A process is recognised by its name, bare or behind any directory, whatever the buffer holds
/// behind it.
pub proof fn name_is_recognised(
    lower: Seq<char>,
    dir: Seq<u16>,
    name: Seq<char>,
    junk: Seq<u16>,
    length: u16,
)
    requires
        dir.len() == 0 || dir.last() == 92,
        forall|i: int| 0 <= i < encoded(name).len() ==> #[trigger] encoded(name)[i] != 92,
        length / 2 == dir.len() + encoded(name).len(),
    ensures
        names_process(lower, 0, dir + encoded(name) + junk, length) <==> lowered(name) == lower,
{
    let full = dir + encoded(name);
    let buf = full + junk;
    if length / 2 < buf.len() {
        assert(buf.take(length as int / 2) =~= full);
    } else {
        assert(buf =~= full);
    }
    directory_does_not_matter(dir, encoded(name));
    name_matches_itself(name);
}

/// A query that failed recognises nothing.
pub proof fn failed_query_recognises_nothing(
    lower: Seq<char>,
    status: i32,
    name: Seq<u16>,
    length: u16,
)
    requires
        status != 0,
    ensures
        !names_process(lower, status, name, length),
{
}

/// A snapshot is there exactly if the kernel says so; it is tried again only where the buffer was
/// too small, with a larger one.
pub proof fn small_buffer_is_tried_again(len: usize, status: i32, needed: u32)
    requires
        0 < len,
    ensures
        came_of(len, status, needed) == Snapshot::Ready <==> status == 0,
        came_of(len, status, needed) is Grow <==> status == STATUS_INFO_LENGTH_MISMATCH,
        came_of(len, status, needed) matches Snapshot::Grow(size) ==> (size > len || len
            == usize::MAX) && (size >= needed + SNAPSHOT_SLACK || size == usize::MAX) && (size >= 2
            * len || size == usize::MAX),
        came_of(len, status, needed) matches Snapshot::Grow(size) ==> size == 2 * len || size
            == needed + SNAPSHOT_SLACK || size == usize::MAX,
{
    assert(0 <= grown(len, needed) <= usize::MAX);
}

/// Only a snapshot that succeeded counts, once each; its size and time are remembered, and the
/// status and the baseline are left alone.
pub proof fn snapshots_are_counted(m: Monitor, len: usize, status: i32, now: u64)
    ensures
        status != 0 ==> m.counted(len, status, now) == m,
        status == 0 ==> m.counted(len, status, now).last_snapshot == Some(now) && m.counted(
            len,
            status,
            now,
        ).snapshot_size == len,
        status == 0 && m.snapshots < u32::MAX ==> m.counted(len, status, now).snapshots
            == m.snapshots + 1,
        m.counted(len, status, now).cur == m.cur,
        m.counted(len, status, now).last_t == m.last_t,
        m.counted(len, status, now).last_cpu == m.last_cpu,
        m.counted(len, status, now).last_pid == m.last_pid,
{
}

/// A new sampler looks at its first poll, whatever it is asked, and until it has looked it knows
/// of no VM.
pub proof fn new_sampler_looks(
    m: Monitor,
    lower: Seq<char>,
    stats_every: u64,
    cores: u32,
    total_mem: u64,
    now: u64,
    r: Request,
)
    requires
        m.is_new_sampler(lower, stats_every, cores, total_mem, now),
    ensures
        m.first_step(r) == Step::Look,
        !m.cur.running,
        m.cur.cpu is None,
        m.snapshots == 0,
        m.ncpu >= 1,
        cores > 0 ==> m.ncpu == cores,
{
}

} // verus!
