//! Laws of sampling: what the CPU numbers of successive polls are measured from.
use vstd::prelude::*;

use crate::snapshot::Sample;
use crate::status::Status;

use super::{cpu_share, share, since, Monitor, Request, Step, SECOND};

verus! {

/// A poll of the VM that `m` knows is to give a CPU number: it is asked for one, or there is none,
/// or the last one is as old as the refresh interval (while nobody is at the machine, no younger
/// than two minutes).
pub open spec fn is_due(m: Monitor, r: Request) -> bool {
    ||| r.force
    ||| m.cur.cpu is None
    ||| since(r.now, m.last_t) >= m.stats_every && (r.relaxed ==> since(r.now, m.last_t)
        >= 120_000_000_000)
}

/// The time that has passed is the difference, or nothing where the clock went backwards.
pub proof fn time_never_runs_backwards(now: u64, t: u64)
    ensures
        now >= t ==> since(now, t) == now - t,
        now < t ==> since(now, t) == 0,
{
}

/// The snapshot `s` is of the VM that `m` knows.
pub open spec fn is_known(m: Monitor, s: Sample) -> bool {
    m.cur.running && s.pid == m.cur.pid
}

/// A poll that is due takes a snapshot, and the numbers of it are published. If a second or more
/// has passed since the baseline, the CPU number is the share of the CPU time since then; what was
/// read is then the baseline of the next one.
pub proof fn due_poll_measures(m: Monitor, r: Request, s: Sample, time: (u16, u16, u16))
    requires
        m.wf(),
        is_known(m, s),
        is_due(m, r),
        r.now - m.last_t >= 1_000_000_000,
    ensures
        m.first_step(r) == Step::Look,
        m.changes(r, Some(s)),
        ({
            let next = m.after(r, Some(s), time);
            &&& next.cur.running && next.cur.pid == s.pid
            &&& next.cur.cpu == Some(
                cpu_share(s.cpu_time - m.last_cpu, r.now - m.last_t, m.ncpu),
            )
            &&& next.cur.mem == s.mem && next.cur.mem_pct == share(s.mem, m.total_mem)
            &&& next.cur.updated == Some(time)
            &&& next.last_t == r.now && next.last_cpu == s.cpu_time && next.last_pid == s.pid
        }),
{
}

/// Whatever a snapshot finds, a new CPU number comes with a new baseline, and no baseline is ever
/// anything but what the snapshot read.
pub proof fn numbers_and_baselines_go_together(
    m: Monitor,
    r: Request,
    s: Sample,
    time: (u16, u16, u16),
)
    requires
        m.wf(),
    ensures
        ({
            let next = m.after(r, Some(s), time);
            let read = (next.last_t, next.last_cpu, next.last_pid) == (r.now, s.cpu_time, s.pid);
            let kept = (next.last_t, next.last_cpu, next.last_pid) == (
                m.last_t,
                m.last_cpu,
                m.last_pid,
            );
            &&& read || kept
            &&& !is_known(m, s) ==> read && next.cur.cpu is None
            &&& is_known(m, s) && next.cur.cpu != m.cur.cpu ==> read
            &&& is_known(m, s) && !read ==> next.cur.cpu == m.cur.cpu
            &&& next.last_pid == s.pid
        }),
{
}

/// Two measurements in a row of the same VM: the second CPU number is the share of the CPU time
/// between the two, of the time between the two, whatever was measured before.
pub proof fn second_number_is_of_the_time_between(
    m: Monitor,
    r1: Request,
    s1: Sample,
    time1: (u16, u16, u16),
    r2: Request,
    s2: Sample,
    time2: (u16, u16, u16),
)
    requires
        m.wf(),
        !is_known(m, s1) || (is_due(m, r1) && r1.now - m.last_t >= SECOND),
        s2.pid == s1.pid,
        is_due(m.after(r1, Some(s1), time1), r2),
        r2.now - r1.now >= SECOND,
    ensures
        m.after(r1, Some(s1), time1).after(r2, Some(s2), time2).cur.cpu == Some(
            cpu_share(s2.cpu_time - s1.cpu_time, r2.now - r1.now, m.ncpu),
        ),
{
}

/// A poll with what its snapshot found.
pub struct Poll {
    pub r: Request,
    pub s: Sample,
    pub time: (u16, u16, u16),
}

/// `states` are those of a sampler before the first of these polls, and after each of them.
pub open spec fn goes_through(states: Seq<Monitor>, polls: Seq<Poll>) -> bool {
    &&& states.len() == polls.len() + 1
    &&& states[0].wf()
    &&& forall|k: int|
        0 <= k < polls.len() ==> #[trigger] states[k + 1] == states[k].after(
            polls[k].r,
            Some(polls[k].s),
            polls[k].time,
        )
}

/// The polls are all of one VM, a second or more apart, and each is to give a CPU number.
pub open spec fn are_refreshes(states: Seq<Monitor>, polls: Seq<Poll>) -> bool {
    &&& forall|k: int| 0 <= k < polls.len() ==> is_due(states[k], (#[trigger] polls[k]).r)
    &&& forall|j: int, k: int|
        0 <= j < k < polls.len() ==> (#[trigger] polls[k]).s.pid == (#[trigger] polls[j]).s.pid
    &&& forall|j: int, k: int|
        0 <= j < k < polls.len() ==> (#[trigger] polls[k]).r.now - (#[trigger] polls[j]).r.now
            >= SECOND
}

proof fn lemma_refreshes(states: Seq<Monitor>, polls: Seq<Poll>, k: int)
    requires
        goes_through(states, polls),
        are_refreshes(states, polls),
        0 < k <= polls.len(),
        !is_known(states[0], polls[0].s) || polls[0].r.now - states[0].last_t >= SECOND,
    ensures
        states[k].cur.running,
        states[k].cur.pid == polls[k - 1].s.pid,
        states[k].last_pid == polls[k - 1].s.pid,
        states[k].last_t == polls[k - 1].r.now,
        states[k].last_cpu == polls[k - 1].s.cpu_time,
        states[k].ncpu == states[0].ncpu,
        k > 1 ==> states[k].cur.cpu == Some(
            cpu_share(
                polls[k - 1].s.cpu_time - polls[k - 2].s.cpu_time,
                polls[k - 1].r.now - polls[k - 2].r.now,
                states[0].ncpu,
            ),
        ),
    decreases k,
{
    assert(is_due(states[k - 1], polls[k - 1].r));
    assert(states[(k - 1) + 1] == states[k - 1].after(
        polls[k - 1].r,
        Some(polls[k - 1].s),
        polls[k - 1].time,
    ));
    if k > 1 {
        lemma_refreshes(states, polls, k - 1);
        assert(polls[k - 1].s.pid == polls[k - 2].s.pid);
        assert(polls[k - 1].r.now - polls[k - 2].r.now >= SECOND);
    }
}

/// Over any number of refreshes, each CPU number but the first is the share of the CPU time since
/// the refresh before it.
pub proof fn every_number_is_of_its_own_window(states: Seq<Monitor>, polls: Seq<Poll>, k: int)
    requires
        goes_through(states, polls),
        are_refreshes(states, polls),
        0 < k < polls.len(),
        !is_known(states[0], polls[0].s) || polls[0].r.now - states[0].last_t >= SECOND,
    ensures
        states[k + 1].cur.cpu == Some(
            cpu_share(
                polls[k].s.cpu_time - polls[k - 1].s.cpu_time,
                polls[k].r.now - polls[k - 1].r.now,
                states[0].ncpu,
            ),
        ),
{
    lemma_refreshes(states, polls, k + 1);
}

/// A VM with a constant load reports the same number at every refresh: if the CPU time and the
/// time between two refreshes are always the same, so is the CPU number, from the second on.
pub proof fn constant_load_gives_one_number(
    states: Seq<Monitor>,
    polls: Seq<Poll>,
    work: int,
    pause: int,
    j: int,
    k: int,
)
    requires
        goes_through(states, polls),
        are_refreshes(states, polls),
        0 < j < polls.len(),
        0 < k < polls.len(),
        !is_known(states[0], polls[0].s) || polls[0].r.now - states[0].last_t >= SECOND,
        forall|i: int|
            0 < i < polls.len() ==> (#[trigger] polls[i]).s.cpu_time - polls[i - 1].s.cpu_time
                == work && polls[i].r.now - polls[i - 1].r.now == pause,
    ensures
        states[j + 1].cur.cpu == states[k + 1].cur.cpu,
        states[k + 1].cur.cpu == Some(cpu_share(work, pause, states[0].ncpu)),
{
    every_number_is_of_its_own_window(states, polls, j);
    every_number_is_of_its_own_window(states, polls, k);
}

/// A poll that is not due only checks the pid: nothing of a VM that still runs changes.
pub proof fn poll_that_is_not_due_keeps_everything(
    m: Monitor,
    r: Request,
    found: Option<Sample>,
    time: (u16, u16, u16),
)
    requires
        m.wf(),
        m.cur.running,
        !is_due(m, r),
    ensures
        m.first_step(r) == Step::CheckPid(m.cur.pid),
        m.outcome(r, true, found, time) == (m.cur, false),
        found matches Some(s) && s.pid == m.cur.pid ==> m.after(r, found, time) == m && !m.changes(
            r,
            found,
        ),
{
}

/// A VM that is off is looked for at every poll while somebody is at the machine or the numbers
/// are asked for, and otherwise once half a minute has passed since the last look, or if there was
/// none.
pub proof fn stopped_vm_is_looked_for(m: Monitor, r: Request)
    requires
        m.wf(),
        !m.cur.running,
    ensures
        m.first_step(r) == Step::Look <==> r.force || !r.relaxed || m.last_snapshot is None || since(
            r.now,
            m.last_snapshot->0,
        ) >= 30_000_000_000,
        m.first_step(r) != Step::Look ==> m.first_step(r) == Step::Report(m.cur, false),
{
}

/// What is not reported as a change cannot be seen: everything shown but the time of the last look
/// is as it was.
pub proof fn no_change_shows_nothing_new(
    m: Monitor,
    r: Request,
    found: Option<Sample>,
    time: (u16, u16, u16),
)
    requires
        m.wf(),
        !m.changes(r, found),
    ensures
        ({
            let st = m.status_after(r, found, time);
            st == (Status { updated: st.updated, ..m.cur })
        }),
        found is Some ==> m.status_after(r, found, time) == m.cur,
{
}

/// After a snapshot the status says what the snapshot found: whether the VM runs and under which
/// pid, and unless the numbers were still good, its memory and the time.
pub proof fn status_shows_the_snapshot(
    m: Monitor,
    r: Request,
    found: Option<Sample>,
    time: (u16, u16, u16),
)
    requires
        m.wf(),
    ensures
        ({
            let st = m.status_after(r, found, time);
            &&& st.running <==> found is Some
            &&& found matches Some(s) ==> st.pid == s.pid
            &&& found matches Some(s) ==> !is_known(m, s) || is_due(m, r) ==> st.mem == s.mem
                && st.mem_pct == share(s.mem, m.total_mem) && st.updated == Some(time)
            &&& found is None ==> st.pid == 0 && st.cpu is None && st.mem == 0 && st.updated
                == Some(time)
        }),
{
}

/// A VM that stopped and was started again has no CPU number until there is a new window, whatever
/// pid it has: time before the stop is not counted.
pub proof fn stop_forgets_the_baseline(
    m: Monitor,
    r1: Request,
    time1: (u16, u16, u16),
    r2: Request,
    s: Sample,
    time2: (u16, u16, u16),
)
    requires
        m.wf(),
    ensures
        ({
            let stopped = m.after(r1, None, time1);
            let again = stopped.after(r2, Some(s), time2);
            &&& stopped.changes(r2, Some(s))
            &&& again.cur.running && again.cur.cpu is None
            &&& (again.last_t, again.last_cpu, again.last_pid) == (r2.now, s.cpu_time, s.pid)
        }),
{
}

} // verus!
