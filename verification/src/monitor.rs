//! Finds the WSL2 utility VM and measures it: what to ask the system at each poll, and what the
//! answers mean.
//!
//! Times are nanoseconds since any fixed moment.
use vstd::arithmetic::power2::{lemma2_to64, lemma2_to64_rest, pow2};
use vstd::prelude::*;
use vstd::slice::*;
use vstd::string::*;

use crate::double::exact::{lemma_common, lemma_whole_exact, product_is_exact, quotient_is_exact};
use crate::double::order::{product_is_monotone, quotient_is_monotone, whole_is_monotone};
use crate::double::{
    lemma_bounds, lemma_exponent_above, lemma_exponent_below, lemma_nearest_wf,
    lemma_too_little, product, quotient, scaled, whole, zero, Double, END, LOWEST, START,
};
use crate::percent::{hundredths_text, push_hundredths};
use crate::snapshot::{find_process, is_first_named, none_named, Sample};
use crate::status::Status;
use crate::text::{decimal, push_decimal, string_of};
use crate::utf16::{
    base_name, decoded, eq_lowercase_utf16, last_component, lowered, to_lower,
};

pub mod names;
pub mod rates;
pub mod sizes;

verus! {

/// A second.
pub const SECOND: u64 = 1_000_000_000;

/// How often to look for the VM while it is off and nobody is at the machine.
pub const RELAXED_DISCOVERY: u64 = 30_000_000_000;

/// How often to refresh the numbers while the VM runs and nobody is at the machine (or the
/// refresh interval if that is longer).
pub const RELAXED_STATS: u64 = 120_000_000_000;

/// Returned by the kernel when the buffer of a snapshot is too small.
pub const STATUS_INFO_LENGTH_MISMATCH: i32 = -1_073_741_820;

/// Slack added to the size a snapshot needs, for processes started since.
pub const SNAPSHOT_SLACK: usize = 65_536;

/// Size of the first snapshot's buffer.
pub const FIRST_SNAPSHOT: usize = 262_144;

/// Stateful sampler: remembers the previous CPU reading so the next one can be turned into a rate,
/// and how large the last process snapshot was.
pub struct Monitor {
    /// Image name to look for, lower-cased with full Unicode rules.
    pub proc_name: String,
    /// Minimum time between CPU/memory refreshes while the VM runs.
    pub stats_every: u64,
    /// Logical cores of the host, the denominator of the CPU percentage.
    pub ncpu: u32,
    /// Physical RAM in bytes, the denominator of the memory percentage.
    pub total_mem: u64,
    /// Last published status.
    pub cur: Status,
    /// When `last_cpu` was read (the CPU baseline).
    pub last_t: u64,
    /// Kernel+user time of the VM at `last_t`, in 100 ns units.
    pub last_cpu: i64,
    /// Pid the baseline belongs to; a different pid invalidates it.
    pub last_pid: usize,
    /// Size to allocate for the next snapshot.
    pub snapshot_size: usize,
    /// Snapshots taken so far.
    pub snapshots: u32,
    /// When the last snapshot was taken (`None` before the first).
    pub last_snapshot: Option<u64>,
}

/// What a poll is asked: when it runs, whether the numbers are wanted now, and whether nobody is
/// at the machine.
#[derive(Clone, Copy, Debug, PartialEq, Eq, Structural)]
pub struct Request {
    pub now: u64,
    pub force: bool,
    pub relaxed: bool,
}

/// What a poll has learnt so far.
#[derive(Clone, Copy, Debug)]
pub enum Seen {
    /// Nothing yet.
    Start,
    /// Whether the known pid still belongs to the VM.
    Pid(bool),
    /// The VM as a snapshot found it, and the local time (hh, mm, ss).
    Process(Option<Sample>, (u16, u16, u16)),
}

/// What a poll does next.
#[derive(Clone, Copy, Debug)]
pub enum Step {
    /// Ask for the name behind this pid.
    CheckPid(usize),
    /// Take a snapshot and look for the VM in it.
    Look,
    /// Done: the status, and whether anything visible changed.
    Report(Status, bool),
}

/// The time from `t` to `now`, 0 if `now` is earlier.
pub open spec fn since(now: u64, t: u64) -> int {
    if now >= t {
        now - t
    } else {
        0
    }
}

/// `bytes` as a percentage of `total` bytes, 0 if that is not known.
pub open spec fn share(bytes: u64, total: u64) -> Double {
    if total == 0 {
        zero()
    } else {
        product(quotient(whole(bytes as nat), whole(total as nat)), whole(100))
    }
}

/// The CPU time `delta` (in 100 ns units, no less than 0) spent within `elapsed` ns, as a
/// percentage of what `ncpu` cores could have spent.
pub open spec fn cpu_share(delta: int, elapsed: int, ncpu: u32) -> Double {
    if delta <= 0 {
        zero()
    } else {
        let ns = product(whole(delta as nat), whole(100));
        product(
            quotient(quotient(ns, whole(elapsed as nat)), whole(ncpu as nat)),
            whole(100),
        )
    }
}

impl Monitor {
    pub open spec fn wf(self) -> bool {
        &&& self.ncpu >= 1
        &&& self.cur.can_be_shown()
        &&& self.cur.running ==> self.cur.pid == self.last_pid && self.cur.mem_pct == share(
            self.cur.mem,
            self.total_mem,
        )
        &&& !self.cur.running ==> self.cur == Status::stopped(self.cur.updated) && self.last_pid
            == 0
    }

    /// How long the numbers stay good.
    pub open spec fn refresh_every(self, relaxed: bool) -> u64 {
        if relaxed && self.stats_every < RELAXED_STATS {
            RELAXED_STATS
        } else {
            self.stats_every
        }
    }

    /// The numbers are there and not due for a refresh.
    pub open spec fn fresh(self, r: Request) -> bool {
        &&& !r.force
        &&& since(r.now, self.last_t) < self.refresh_every(r.relaxed)
        &&& self.cur.cpu is Some
    }

    /// The VM was off when last looked for, and nobody would see it appear yet.
    pub open spec fn may_wait(self, r: Request) -> bool {
        &&& !self.cur.running
        &&& !r.force
        &&& r.relaxed
        &&& self.last_snapshot matches Some(t) && since(r.now, t) < RELAXED_DISCOVERY
    }

    /// How a poll begins.
    pub open spec fn first_step(self, r: Request) -> Step {
        if self.cur.running && self.fresh(r) {
            Step::CheckPid(self.last_pid)
        } else if self.may_wait(r) {
            Step::Report(self.cur, false)
        } else {
            Step::Look
        }
    }

    /// What follows the check of the known pid.
    pub open spec fn checked(self, alive: bool) -> Step {
        if alive {
            Step::Report(self.cur, false)
        } else {
            Step::Look
        }
    }

    /// The VM was not known under this pid.
    pub open spec fn is_new(self, s: Sample) -> bool {
        !self.cur.running || s.pid != self.last_pid
    }

    /// A snapshot that found the VM is a fresh CPU measurement: the VM was known, and the time
    /// since the baseline is no less than a second.
    pub open spec fn measures(self, r: Request, s: Sample) -> bool {
        !self.is_new(s) && !self.fresh(r) && since(r.now, self.last_t) >= SECOND
    }

    /// The status after a snapshot.
    pub open spec fn status_after(
        self,
        r: Request,
        found: Option<Sample>,
        time: (u16, u16, u16),
    ) -> Status {
        match found {
            None => Status::stopped(Some(time)),
            Some(s) => if !self.is_new(s) && self.fresh(r) {
                self.cur
            } else {
                Status {
                    running: true,
                    pid: s.pid,
                    cpu: if self.is_new(s) {
                        None
                    } else if self.measures(r, s) {
                        Some(
                            cpu_share(
                                s.cpu_time - self.last_cpu,
                                since(r.now, self.last_t),
                                self.ncpu,
                            ),
                        )
                    } else {
                        self.cur.cpu
                    },
                    mem: s.mem,
                    mem_pct: share(s.mem, self.total_mem),
                    updated: Some(time),
                }
            },
        }
    }

    /// A snapshot with this result changes something visible.
    pub open spec fn changes(self, r: Request, found: Option<Sample>) -> bool {
        match found {
            None => self.cur.running,
            Some(s) => self.is_new(s) || !self.fresh(r),
        }
    }

    /// What a whole poll reports, where the check of the pid answers `alive` and a snapshot gives
    /// `found`, as far as the poll asks for them.
    pub open spec fn outcome(
        self,
        r: Request,
        alive: bool,
        found: Option<Sample>,
        time: (u16, u16, u16),
    ) -> (Status, bool) {
        let looked = (self.status_after(r, found, time), self.changes(r, found));
        match self.first_step(r) {
            Step::Report(st, changed) => (st, changed),
            Step::CheckPid(_) => match self.checked(alive) {
                Step::Report(st, changed) => (st, changed),
                _ => looked,
            },
            Step::Look => looked,
        }
    }

    /// The CPU baseline (when, how much, whose) after a snapshot.
    pub open spec fn baseline_after(self, r: Request, found: Option<Sample>) -> (u64, i64, usize) {
        match found {
            None => (self.last_t, self.last_cpu, 0),
            Some(s) => if self.is_new(s) || self.measures(r, s) {
                (r.now, s.cpu_time, s.pid)
            } else {
                (self.last_t, self.last_cpu, self.last_pid)
            },
        }
    }

    /// The sampler after a snapshot.
    pub open spec fn after(
        self,
        r: Request,
        found: Option<Sample>,
        time: (u16, u16, u16),
    ) -> Monitor {
        let (last_t, last_cpu, last_pid) = self.baseline_after(r, found);
        Monitor { cur: self.status_after(r, found, time), last_t, last_cpu, last_pid, ..self }
    }

    /// A sampler that has not looked yet, for the process with this lower-cased name.
    pub open spec fn is_new_sampler(
        self,
        lower: Seq<char>,
        stats_every: u64,
        cores: u32,
        total_mem: u64,
        now: u64,
    ) -> bool {
        &&& self.proc_name@ == lower
        &&& self.stats_every == stats_every
        &&& self.ncpu == (if cores == 0 {
            1
        } else {
            cores
        })
        &&& self.total_mem == total_mem
        &&& self.cur == Status::stopped(None)
        &&& (self.last_t, self.last_cpu, self.last_pid) == (now, 0i64, 0usize)
        &&& self.snapshot_size == FIRST_SNAPSHOT
        &&& self.snapshots == 0
        &&& self.last_snapshot is None
    }

    /// A sampler for the process called `proc_name` on a host with `cores` logical cores (1 if
    /// that could not be read) and `total_mem` bytes of RAM (0 if that could not be read).
    pub fn new(proc_name: &str, stats_every: u64, cores: u32, total_mem: u64, now: u64) -> (m:
        Monitor)
        ensures
            m.wf(),
            m.is_new_sampler(lowered(proc_name@), stats_every, cores, total_mem, now),
    {
        Monitor {
            proc_name: string_of(to_lower(proc_name).as_slice()),
            stats_every,
            ncpu: if cores == 0 {
                1
            } else {
                cores
            },
            total_mem,
            cur: Status::default(),
            last_t: now,
            last_cpu: 0,
            last_pid: 0,
            snapshot_size: FIRST_SNAPSHOT,
            snapshots: 0,
            last_snapshot: None,
        }
    }

    /// The status published by the last poll.
    pub fn current(&self) -> (s: Status)
        ensures
            s == self.cur,
    {
        self.cur
    }

    /// Number of process-list snapshots taken so far. A poll that only checked the pid does not
    /// add one.
    pub fn snapshots(&self) -> (n: u32)
        ensures
            n == self.snapshots,
    {
        self.snapshots
    }

    /// Looks at the VM and updates the status: to be called with `Seen::Start` first and then with
    /// the answer to each step, until a step reports.
    ///
    /// * VM not found: report stopped (changed only if it was running).
    /// * VM newly found, or a different pid than last time: publish memory immediately, remember
    ///   the CPU time as a baseline, CPU stays `None`.
    /// * VM known: recompute CPU and memory when `force` is set, when `stats_every` has elapsed
    ///   since the baseline, or when there is no CPU reading yet. A window shorter than one second
    ///   is too noisy and is skipped. In between, only the pid is checked.
    ///
    /// `relaxed` says nobody is at the machine: a snapshot is then taken at most every
    /// [`RELAXED_DISCOVERY`] while the VM is off and the numbers are refreshed every
    /// [`RELAXED_STATS`] while it runs. The pid check is unaffected, so a stop is still noticed at
    /// the next poll. `force` overrides both.
    pub fn poll(&mut self, r: Request, seen: Seen) -> (step: Step)
        requires
            old(self).wf(),
        ensures
            final(self).wf(),
            match seen {
                Seen::Start => *final(self) == *old(self) && step == old(self).first_step(r),
                Seen::Pid(alive) => *final(self) == *old(self) && step == old(self).checked(alive),
                Seen::Process(found, time) => *final(self) == old(self).after(r, found, time)
                    && step == Step::Report(
                    old(self).status_after(r, found, time),
                    old(self).changes(r, found),
                ),
            },
    {
        let elapsed: u64 = r.now.saturating_sub(self.last_t);
        let fresh = !r.force && elapsed < self.refresh_interval(r.relaxed) && self.cur.cpu.is_some();
        match seen {
            Seen::Start => if self.cur.running && fresh {
                Step::CheckPid(self.last_pid)
            } else if !self.cur.running && !r.force && r.relaxed && self.looked_lately(r.now) {
                Step::Report(self.cur, false)
            } else {
                Step::Look
            },
            Seen::Pid(true) => Step::Report(self.cur, false),
            Seen::Pid(false) => Step::Look,
            Seen::Process(None, time) => {
                let changed = self.cur.running;
                let mut cur = Status::default();
                cur.updated = Some(time);
                self.cur = cur;
                self.last_pid = 0;
                Step::Report(self.cur, changed)
            },
            Seen::Process(Some(s), time) => {
                if !self.cur.running || s.pid != self.last_pid {
                    self.cur = Status {
                        running: true,
                        pid: s.pid,
                        cpu: None,
                        mem: s.mem,
                        mem_pct: self.mem_pct(s.mem),
                        updated: Some(time),
                    };
                    self.last_pid = s.pid;
                    self.last_t = r.now;
                    self.last_cpu = s.cpu_time;
                    return Step::Report(self.cur, true);
                }
                if fresh {
                    return Step::Report(self.cur, false);
                }
                if elapsed >= SECOND {
                    self.cur.cpu = Some(
                        cpu_pct(s.cpu_time as i128 - self.last_cpu as i128, elapsed, self.ncpu),
                    );
                    self.last_t = r.now;
                    self.last_cpu = s.cpu_time;
                }
                self.cur.mem = s.mem;
                self.cur.mem_pct = self.mem_pct(s.mem);
                self.cur.updated = Some(time);
                Step::Report(self.cur, true)
            },
        }
    }

    /// How long the numbers stay good.
    fn refresh_interval(&self, relaxed: bool) -> (t: u64)
        ensures
            t == self.refresh_every(relaxed),
    {
        if relaxed && self.stats_every < RELAXED_STATS {
            RELAXED_STATS
        } else {
            self.stats_every
        }
    }

    /// Whether the last snapshot is younger than [`RELAXED_DISCOVERY`].
    fn looked_lately(&self, now: u64) -> (b: bool)
        ensures
            b == (self.last_snapshot matches Some(t) && since(now, t) < RELAXED_DISCOVERY),
    {
        match self.last_snapshot {
            Some(t) => now.saturating_sub(t) < RELAXED_DISCOVERY,
            None => false,
        }
    }

    /// `bytes` as a percentage of physical RAM (0 if RAM could not be read).
    pub fn mem_pct(&self, bytes: u64) -> (p: Double)
        ensures
            p == share(bytes, self.total_mem),
            p.can_be_shown(),
    {
        if self.total_mem == 0 {
            return Double::nothing();
        }
        proof {
            lemma_whole_range(bytes as nat);
            lemma_whole_range(self.total_mem as nat);
            lemma_hundred();
            lemma_quotient_range(whole(bytes as nat), whole(self.total_mem as nat), 13);
            lemma_product_range(quotient(whole(bytes as nat), whole(self.total_mem as nat)), 15);
        }
        Double::of(bytes).over(Double::of(self.total_mem)).times(Double::of(100))
    }
}

/// What became of a snapshot.
#[derive(Clone, Copy, Debug, PartialEq, Eq, Structural)]
pub enum Snapshot {
    /// The buffer holds the process list.
    Ready,
    /// Try again with a buffer of this size.
    Grow(usize),
    /// There is no process list to be had.
    Failed,
}

/// The size to try after a buffer of `len` bytes was too small: what would have fitted and some
/// slack, and at least twice the size, so that there is progress whatever the kernel says it
/// needs. (No buffer is larger than `usize::MAX`.)
pub open spec fn grown(len: usize, needed: u32) -> int {
    let size = if needed + SNAPSHOT_SLACK > 2 * len {
        needed + SNAPSHOT_SLACK
    } else {
        2 * len
    };
    if size > usize::MAX {
        usize::MAX as int
    } else {
        size
    }
}

/// What came of a snapshot into a buffer of `len` bytes that the kernel answered like this.
pub open spec fn came_of(len: usize, status: i32, needed: u32) -> Snapshot {
    if status == 0 {
        Snapshot::Ready
    } else if status == STATUS_INFO_LENGTH_MISMATCH {
        Snapshot::Grow(grown(len, needed) as usize)
    } else {
        Snapshot::Failed
    }
}

impl Monitor {
    /// The sampler once the kernel has answered: a snapshot that succeeded is counted.
    pub open spec fn counted(self, len: usize, status: i32, now: u64) -> Monitor {
        if status == 0 {
            Monitor {
                snapshot_size: len,
                snapshots: (if self.snapshots == u32::MAX {
                    0
                } else {
                    self.snapshots + 1
                }) as u32,
                last_snapshot: Some(now),
                ..self
            }
        } else {
            self
        }
    }
}

/// What a query for the name behind a pid answered is the name of the process called `lower`: the
/// query succeeded, and the last component of the first `length` bytes of `name` is that name, but
/// for case.
pub open spec fn names_process(
    lower: Seq<char>,
    status: i32,
    name: Seq<u16>,
    length: u16,
) -> bool {
    status == 0 && lowered(
        decoded(
            base_name(
                if length / 2 < name.len() {
                    name.take(length as int / 2)
                } else {
                    name
                },
            ),
        ),
    ) == lower
}

impl Monitor {
    /// Whether the name the kernel gives for a pid is that of the process being looked for.
    /// `name` is the buffer that the query filled, `length` the length of the name in bytes, and
    /// `status` is not 0 where the query failed for any reason. Only the last path component is
    /// compared: for a minimal process the name is bare, for others it is the path of the image.
    pub fn alive(&self, status: i32, name: &[u16], length: u16) -> (r: bool)
        ensures
            r == names_process(self.proc_name@, status, name@, length),
    {
        if status != 0 {
            return false;
        }
        let n: usize = if (length as usize) / 2 < name.len() {
            length as usize / 2
        } else {
            name.len()
        };
        let full = slice_subrange(name, 0, n);
        proof {
            assert(name@.subrange(0, n as int) =~= name@.take(n as int));
            assert(name@.take(name@.len() as int) =~= name@);
        }
        eq_lowercase_utf16(last_component(full), self.proc_name.as_str())
    }

    /// The process being looked for in a snapshot that stands at address `base`: the first one
    /// whose image name matches, case-insensitively.
    pub fn find(&self, buf: &[u8], base: u64) -> (r: Option<Sample>)
        ensures
            match r {
                Some(s) => is_first_named(buf@, base as nat, self.proc_name@, s),
                None => none_named(buf@, base as nat, self.proc_name@),
            },
    {
        find_process(buf, base, self.proc_name.as_str())
    }

    /// What to do with the answer of the kernel to a request for a snapshot into a buffer of `len`
    /// bytes. Also keeps the snapshot bookkeeping. (The number of snapshots starts over after
    /// `u32::MAX`.)
    pub fn snapshot(&mut self, len: usize, status: i32, needed: u32, now: u64) -> (r: Snapshot)
        requires
            old(self).wf(),
        ensures
            final(self).wf(),
            r == came_of(len, status, needed),
            *final(self) == old(self).counted(len, status, now),
    {
        if status == 0 {
            self.snapshot_size = len;
            self.snapshots = self.snapshots.wrapping_add(1);
            self.last_snapshot = Some(now);
            return Snapshot::Ready;
        }
        if status != STATUS_INFO_LENGTH_MISMATCH {
            return Snapshot::Failed;
        }
        let fitting: usize = (needed as usize).saturating_add(SNAPSHOT_SLACK);
        let doubled: usize = len.saturating_add(len);
        if fitting > doubled {
            Snapshot::Grow(fitting)
        } else {
            Snapshot::Grow(doubled)
        }
    }
}

/// How `format_bytes` shows `b` bytes.
pub open spec fn bytes_text(b: nat) -> Seq<char> {
    if b < 0x4000_0000 {
        decimal(b / 0x10_0000) + " MB"@
    } else {
        hundredths_text(scaled(quotient(whole(b), whole(0x4000_0000)), 100)) + " GB"@
    }
}

/// Appends `768 MB` below 1 GiB, otherwise `5.40 GB` (binary units, two decimals).
pub fn push_bytes(s: &mut String, b: u64)
    ensures
        final(s)@ == old(s)@ + bytes_text(b as nat),
{
    if b < 0x4000_0000 {
        push_decimal(s, (b / 0x10_0000) as u128);
        s.append(" MB");
    } else {
        proof {
            lemma_whole_range(b as nat);
            lemma_whole_range(0x4000_0000);
            lemma_quotient_range(whole(b as nat), whole(0x4000_0000), 13);
        }
        push_hundredths(s, Double::of(b).over(Double::of(0x4000_0000)));
        s.append(" GB");
    }
    assert(s@ =~= old(s)@ + bytes_text(b as nat));
}

/// `768 MB` below 1 GiB, otherwise `5.40 GB` (binary units, two decimals).
pub fn format_bytes(b: u64) -> (s: String)
    ensures
        s@ == bytes_text(b as nat),
{
    let mut s = String::new();
    push_bytes(&mut s, b);
    s
}

/// The CPU time `delta` (in 100 ns units) spent within `elapsed` ns, as a percentage of what
/// `ncpu` cores could have spent.
fn cpu_pct(delta: i128, elapsed: u64, ncpu: u32) -> (p: Double)
    requires
        -0xFFFF_FFFF_FFFF_FFFF <= delta <= 0xFFFF_FFFF_FFFF_FFFF,
        elapsed >= 1,
        ncpu >= 1,
    ensures
        p == cpu_share(delta as int, elapsed as int, ncpu),
        p.can_be_shown(),
{
    if delta <= 0 {
        return Double::nothing();
    }
    proof {
        lemma_whole_range(delta as nat);
        lemma_whole_range(elapsed as nat);
        lemma_whole_range(ncpu as nat);
        lemma_hundred();
        let ns = product(whole(delta as nat), whole(100));
        lemma_product_range(whole(delta as nat), 13);
        let a = quotient(ns, whole(elapsed as nat));
        lemma_quotient_range(ns, whole(elapsed as nat), 22);
        let b = quotient(a, whole(ncpu as nat));
        lemma_quotient_range(a, whole(ncpu as nat), 24);
        lemma_product_range(b, 26);
    }
    let ns = Double::of(delta as u64).times(Double::of(100));
    ns.over(Double::of(elapsed)).over(Double::of(ncpu as u64)).times(Double::of(100))
}

/// The exponents of 64-bit numbers.
proof fn lemma_whole_range(n: nat)
    requires
        n <= u64::MAX,
    ensures
        whole(n).wf(),
        whole(n).e <= 13,
        n > 0 ==> whole(n).e >= -52 && whole(n).m >= START,
{
    lemma_nearest_wf(n, 1, 0);
    lemma_bounds();
    lemma2_to64();
    assert(n * 1 == n) by (nonlinear_arith);
    assert(n * pow2(0) < END * (1 * pow2(12)));
    lemma_exponent_below(n, 1, 0, 0, 12);
    if n > 0 {
        assert(n * START >= START) by (nonlinear_arith)
            requires
                n >= 1,
        ;
        assert(n * pow2(52) >= START * (1 * pow2(0)));
        lemma_exponent_above(n, 1, 0, 52, 0);
    }
}

proof fn lemma_hundred()
    ensures
        whole(100).wf(),
        whole(100).e <= -45,
{
    lemma_nearest_wf(100, 1, 0);
    lemma_bounds();
    lemma2_to64_rest();
    assert(100 * pow2(46) < END * (1 * pow2(0)));
    lemma_exponent_below(100, 1, 0, 46, 0);
}

/// The exponent of a quotient by a number of no less than 1.
proof fn lemma_quotient_range(a: Double, b: Double, top: int)
    requires
        a.wf(),
        b.wf(),
        a.e <= top,
        -30 <= top,
        b.e >= -52,
        b.m >= START,
    ensures
        quotient(a, b).wf(),
        quotient(a, b).e <= top + 2,
{
    lemma_nearest_wf(a.m as nat, b.m as nat, a.e - b.e);
    lemma_bounds();
    lemma2_to64_rest();
    assert(a.m * pow2(51) < END * (b.m * pow2(0))) by {
        assert(b.m * 1 == b.m) by (nonlinear_arith);
    }
    lemma_exponent_below(a.m as nat, b.m as nat, a.e - b.e, 51, 0);
}

/// The exponent of a hundredfold.
proof fn lemma_product_range(a: Double, top: int)
    requires
        a.wf(),
        a.e <= top,
        -30 <= top,
        whole(100).wf(),
        whole(100).e <= -45,
    ensures
        product(a, whole(100)).wf(),
        product(a, whole(100)).e <= top + 9,
{
    let b = whole(100);
    let n = a.m as nat * b.m as nat;
    lemma_nearest_wf(n, 1, a.e + b.e);
    lemma_bounds();
    assert(n < END * END) by (nonlinear_arith)
        requires
            n == a.m * b.m,
            a.m < END,
            b.m < END,
    ;
    assert(n * 1 == n) by (nonlinear_arith);
    assert(n * pow2(0) < END * (1 * pow2(53)));
    lemma_exponent_below(n, 1, a.e + b.e, 0, 53);
}

/// A forced poll always looks, and so does any poll before the first snapshot of a VM that is not
/// known to run, and any poll of one while somebody is at the machine.
pub proof fn poll_looks(m: Monitor, r: Request)
    requires
        m.wf(),
        r.force || (!m.cur.running && (m.last_snapshot is None || !r.relaxed)),
    ensures
        m.first_step(r) == Step::Look,
{
}

/// While nobody is at the machine, a VM that is off is looked for again once
/// [`RELAXED_DISCOVERY`] has passed, and not before.
pub proof fn relaxed_discovery_waits(m: Monitor, r: Request, last: u64)
    requires
        m.wf(),
        !m.cur.running,
        m.last_snapshot == Some(last),
        r.relaxed && !r.force,
    ensures
        since(r.now, last) < RELAXED_DISCOVERY ==> m.first_step(r) == Step::Report(m.cur, false),
        since(r.now, last) >= RELAXED_DISCOVERY ==> m.first_step(r) == Step::Look,
{
}

/// Between two refreshes only the pid of a known VM is checked, whether or not somebody is at the
/// machine.
pub proof fn known_vm_is_only_checked(m: Monitor, r: Request)
    requires
        m.wf(),
        m.cur.running,
        m.cur.cpu is Some,
        !r.force,
        since(r.now, m.last_t) < m.stats_every,
    ensures
        m.first_step(r) == Step::CheckPid(m.cur.pid),
{
}

/// Relaxing only ever makes a poll do less: where a relaxed poll looks, so does one that is not
/// relaxed.
pub proof fn relaxing_does_less(m: Monitor, now: u64, force: bool)
    requires
        m.wf(),
        m.first_step(Request { now, force, relaxed: true }) == Step::Look,
    ensures
        m.first_step(Request { now, force, relaxed: false }) == Step::Look,
{
}

/// A stop is noticed at the next poll, whether or not somebody is at the machine: if the pid is
/// gone and a snapshot does not find the VM, the poll reports it as stopped, as a change.
pub proof fn stop_is_noticed(m: Monitor, r: Request, time: (u16, u16, u16))
    requires
        m.wf(),
        m.cur.running,
    ensures
        m.outcome(r, false, None, time) == (Status::stopped(Some(time)), true),
{
}

/// A VM that stays off is no change.
pub proof fn staying_off_is_no_change(m: Monitor, r: Request, time: (u16, u16, u16))
    requires
        m.wf(),
        !m.cur.running,
    ensures
        !m.outcome(r, false, None, time).0.running,
        !m.outcome(r, false, None, time).1,
{
}

/// A VM that was started or restarted is reported at once, with its memory and no CPU number, and
/// its CPU time is the new baseline.
pub proof fn start_is_reported(m: Monitor, r: Request, s: Sample, time: (u16, u16, u16))
    requires
        m.wf(),
        !m.cur.running || s.pid != m.cur.pid,
    ensures
        m.changes(r, Some(s)),
        m.baseline_after(r, Some(s)) == (r.now, s.cpu_time, s.pid),
        ({
            let st = m.status_after(r, Some(s), time);
            &&& st.running && st.pid == s.pid && st.cpu is None
            &&& st.mem == s.mem && st.mem_pct == share(s.mem, m.total_mem)
        }),
{
}

/// After the baseline, the first poll that is a second or more later gives a CPU number, however
/// long the refresh interval is.
pub proof fn first_number_comes_soon(m: Monitor, r: Request, s: Sample, time: (u16, u16, u16))
    requires
        m.wf(),
        m.cur.running,
        m.cur.cpu is None,
        s.pid == m.cur.pid,
        since(r.now, m.last_t) >= SECOND,
    ensures
        m.first_step(r) == Step::Look,
        m.changes(r, Some(s)),
        m.status_after(r, Some(s), time).cpu == Some(
            cpu_share(s.cpu_time - m.last_cpu, since(r.now, m.last_t), m.ncpu),
        ),
{
}

/// A window shorter than a second never changes the CPU number nor the baseline of a VM that runs
/// on.
pub proof fn short_window_is_skipped(m: Monitor, r: Request, s: Sample, time: (u16, u16, u16))
    requires
        m.wf(),
        m.cur.running,
        s.pid == m.cur.pid,
        since(r.now, m.last_t) < SECOND,
    ensures
        m.status_after(r, Some(s), time).cpu == m.cur.cpu,
        m.baseline_after(r, Some(s)) == (m.last_t, m.last_cpu, m.last_pid),
{
}

/// With every core busy for the whole window the CPU number is 100 percent, whatever the number
/// of cores and the length of the window (a whole number of 100 ns units, as long as the time of
/// all cores together is less than 2 to the 53rd nanoseconds).
pub proof fn all_cores_busy_is_full(units: u64, ncpu: u32)
    requires
        units >= 1,
        ncpu >= 1,
        units * ncpu * 100 < END,
    ensures
        cpu_share(units * ncpu, units * 100, ncpu) == whole(100),
        cpu_share(units * ncpu, units * 100, ncpu).reaches(100),
        !cpu_share(units * ncpu, units * 100, ncpu).exceeds(100),
{
    let n = ncpu as nat;
    let busy = (units * n) as nat;
    let window = (units * 100) as nat;
    assert(busy > 0 && n * window == busy * 100 && n * 1 == n && 1 * n == n && n < END)
        by (nonlinear_arith)
        requires
            units >= 1,
            n >= 1,
            n <= u32::MAX,
            busy == units * n,
            window == units * 100,
    ;
    product_is_exact(busy, 100);
    quotient_is_exact(n, window);
    quotient_is_exact(1, n);
    product_is_exact(1, 100);
    lemma_whole_threshold(100);
}

/// All of the memory is 100 percent, however much there is, and none is 0 percent.
pub proof fn full_memory_is_full(total: u64)
    requires
        total > 0,
    ensures
        share(total, total) == whole(100),
        share(total, total).reaches(100),
        !share(total, total).exceeds(100),
        share(0, total) == zero(),
{
    let x = whole(total as nat);
    lemma_whole_range(total as nat);
    let m = x.m as nat;
    lemma_common(1, 1, 0, m);
    assert(m * 1 == m) by (nonlinear_arith);
    product_is_exact(1, 100);
    lemma_whole_threshold(100);
    lemma_too_little(0, 1, 0);
    lemma_too_little(0, m, LOWEST - x.e);
    let c = whole(100);
    assert(0 * c.m == 0) by (nonlinear_arith);
    lemma_too_little(0, 1, LOWEST + c.e);
}

/// More memory in use is never a smaller share.
pub proof fn memory_share_grows(a: u64, b: u64, total: u64)
    requires
        a <= b,
    ensures
        !share(b, total).less(share(a, total)),
{
    if total > 0 {
        let (x, y, t) = (whole(a as nat), whole(b as nat), whole(total as nat));
        lemma_whole_range(a as nat);
        lemma_whole_range(b as nat);
        lemma_whole_range(total as nat);
        lemma_hundred();
        whole_is_monotone(a as nat, b as nat);
        quotient_is_monotone(x, y, t);
        lemma_nearest_wf(x.m as nat, t.m as nat, x.e - t.e);
        lemma_nearest_wf(y.m as nat, t.m as nat, y.e - t.e);
        product_is_monotone(quotient(x, t), quotient(y, t), whole(100));
    }
}

/// More CPU time in the same window is never a smaller share.
pub proof fn cpu_share_grows(a: int, b: int, elapsed: u64, ncpu: u32)
    requires
        a <= b <= u64::MAX,
        elapsed > 0,
        ncpu > 0,
    ensures
        !cpu_share(b, elapsed as int, ncpu).less(cpu_share(a, elapsed as int, ncpu)),
{
    let (t, n, c) = (whole(elapsed as nat), whole(ncpu as nat), whole(100));
    lemma_whole_range(elapsed as nat);
    lemma_whole_range(ncpu as nat);
    lemma_hundred();
    if b > 0 {
        let y = whole(b as nat);
        lemma_whole_range(b as nat);
        let y1 = product(y, c);
        lemma_nearest_wf(y.m as nat * c.m as nat, 1, y.e + c.e);
        let y2 = quotient(y1, t);
        lemma_nearest_wf(y1.m as nat, t.m as nat, y1.e - t.e);
        let y3 = quotient(y2, n);
        lemma_nearest_wf(y2.m as nat, n.m as nat, y2.e - n.e);
        lemma_nearest_wf(y3.m as nat * c.m as nat, 1, y3.e + c.e);
        if a > 0 {
            let x = whole(a as nat);
            lemma_whole_range(a as nat);
            whole_is_monotone(a as nat, b as nat);
            let x1 = product(x, c);
            lemma_nearest_wf(x.m as nat * c.m as nat, 1, x.e + c.e);
            product_is_monotone(x, y, c);
            let x2 = quotient(x1, t);
            lemma_nearest_wf(x1.m as nat, t.m as nat, x1.e - t.e);
            quotient_is_monotone(x1, y1, t);
            let x3 = quotient(x2, n);
            lemma_nearest_wf(x2.m as nat, n.m as nat, x2.e - n.e);
            quotient_is_monotone(x2, y2, n);
            product_is_monotone(x3, y3, c);
        }
    }
}

/// A whole number below 2 to the 53rd reaches itself and no more.
proof fn lemma_whole_threshold(n: nat)
    requires
        0 < n < END,
    ensures
        whole(n).reaches(n),
        !whole(n).exceeds(n),
{
    lemma_whole_exact(n);
    let x = whole(n);
    if x.e == 0 {
        lemma_bounds();
        assert(n * 1 == n && x.m * 1 == x.m) by (nonlinear_arith);
    }
}

/// A buffer that was too small is followed by a larger one, in which what the kernel asked for
/// has room, up to the largest size there is.
pub proof fn snapshot_makes_progress(len: usize, needed: u32)
    requires
        len > 0,
    ensures
        grown(len, needed) > len || len == usize::MAX,
        grown(len, needed) >= needed + SNAPSHOT_SLACK || grown(len, needed) == usize::MAX,
{
}

} // verus!
