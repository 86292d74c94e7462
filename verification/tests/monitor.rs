use wsl_tray::monitor::{
    format_bytes, Monitor, Request, Seen, Snapshot, Step, RELAXED_DISCOVERY, RELAXED_STATS, SECOND,
    STATUS_INFO_LENGTH_MISMATCH,
};
use wsl_tray::double::Double;
use wsl_tray::shutdown::{shutdown_wsl, Known, Run};
use wsl_tray::snapshot::{find_process, Sample, ENTRY_SIZE};
use wsl_tray::status::Status;
use wsl_tray::utf16::{decode_utf16, eq_lowercase_utf16, last_component, wide};

fn u16s(s: &str) -> Vec<u16> {
    s.encode_utf16().collect()
}

/// Address at which the pretended snapshots stand.
const BASE: u64 = 0x7F00_0000_0000;

/// A process of a pretended system.
#[derive(Clone)]
struct Process {
    name: &'static str,
    pid: u64,
    user: i64,
    kernel: i64,
    mem: u64,
}

fn process(name: &'static str, pid: u64) -> Process {
    Process { name, pid, user: 3, kernel: 4, mem: 1 << 30 }
}

/// The process list as the kernel writes it.
fn list(processes: &[Process]) -> Vec<u8> {
    let mut buf: Vec<u8> = Vec::new();
    for (i, p) in processes.iter().enumerate() {
        let off = buf.len();
        let name = u16s(p.name);
        let size = ENTRY_SIZE + 2 * name.len() + 5;
        buf.resize(off + size, 0xEE);
        let mut put = |at: usize, bytes: &[u8]| {
            buf[off + at..off + at + bytes.len()].copy_from_slice(bytes);
        };
        let next = if i + 1 < processes.len() { size as u32 } else { 0 };
        put(0, &next.to_le_bytes());
        put(40, &p.user.to_le_bytes());
        put(48, &p.kernel.to_le_bytes());
        put(56, &(2 * name.len() as u16).to_le_bytes());
        let address = if name.is_empty() { 0 } else { BASE + (off + ENTRY_SIZE) as u64 };
        put(64, &address.to_le_bytes());
        put(80, &p.pid.to_le_bytes());
        put(144, &p.mem.to_le_bytes());
        for (k, u) in name.iter().enumerate() {
            put(ENTRY_SIZE + 2 * k, &u.to_le_bytes());
        }
    }
    buf
}

/// A machine whose process list and clock are set by hand.
struct Machine {
    processes: Vec<Process>,
    now: u64,
    time: (u16, u16, u16),
    /// How often the kernel was asked for a snapshot.
    queries: u32,
}

impl Machine {
    fn new(processes: &[Process]) -> Machine {
        Machine { processes: processes.to_vec(), now: 0, time: (12, 34, 56), queries: 0 }
    }

    /// The name behind a pid: status, buffer, length in bytes.
    fn name_of(&self, pid: usize) -> (i32, Vec<u16>, u16) {
        let mut buf = vec![0u16; 260];
        match self.processes.iter().find(|p| p.pid == pid as u64) {
            Some(p) => {
                let path = u16s(&format!(r"\Device\Volume3\{}", p.name));
                buf[..path.len()].copy_from_slice(&path);
                (0, buf, 2 * path.len() as u16)
            }
            None => (0xC000_000Bu32 as i32, buf, 0),
        }
    }

    fn alive(&self, m: &Monitor, pid: usize) -> bool {
        let (status, name, length) = self.name_of(pid);
        m.alive(status, &name, length)
    }

    /// A snapshot with the buffer sizes that the monitor asks for.
    fn find(&mut self, m: &mut Monitor) -> Option<Sample> {
        let data = list(&self.processes);
        let mut len = m.snapshot_size;
        loop {
            self.queries += 1;
            let status = if len < data.len() { STATUS_INFO_LENGTH_MISMATCH } else { 0 };
            match m.snapshot(len, status, data.len() as u32, self.now) {
                Snapshot::Ready => {
                    let mut buf = data.clone();
                    buf.resize(len, 0);
                    return m.find(&buf, BASE);
                }
                Snapshot::Grow(size) => len = size,
                Snapshot::Failed => return None,
            }
        }
    }

    /// One whole poll.
    fn poll(&mut self, m: &mut Monitor, force: bool, relaxed: bool) -> (Status, bool) {
        let r = Request { now: self.now, force, relaxed };
        let mut seen = Seen::Start;
        loop {
            match m.poll(r, seen) {
                Step::CheckPid(pid) => seen = Seen::Pid(self.alive(m, pid)),
                Step::Look => {
                    let found = self.find(m);
                    seen = Seen::Process(found, self.time);
                }
                Step::Report(st, changed) => return (st, changed),
            }
        }
    }
}

fn monitor(name: &str) -> Monitor {
    Monitor::new(name, 30 * SECOND, 4, 8 << 30, 0)
}

#[test]
fn format_bytes_units() {
    assert_eq!(format_bytes(600 << 20), "600 MB");
    assert_eq!(format_bytes(1024 << 20), "1.00 GB");
    assert_eq!(format_bytes((5 << 30) + (1 << 29)), "5.50 GB");
}

#[test]
fn format_bytes_edges() {
    assert_eq!(format_bytes(0), "0 MB");
    assert_eq!(format_bytes((1 << 30) - 1), "1023 MB");
    assert_eq!(format_bytes((5 << 30) + (2 << 27) + (1 << 26)), "5.31 GB");
}

#[test]
fn utf16_compare() {
    let u16s = |s: &str| s.encode_utf16().collect::<Vec<u16>>();
    assert!(eq_lowercase_utf16(&u16s("vmmemWSL"), "vmmemwsl"));
    assert!(!eq_lowercase_utf16(&u16s("vmmem"), "vmmemwsl"));
    assert!(!eq_lowercase_utf16(&u16s("vmmemWSLx"), "vmmemwsl"));
    // Non-ASCII letters fold too.
    assert!(eq_lowercase_utf16(&u16s("ÄBC.exe"), "äbc.exe"));
    assert!(eq_lowercase_utf16(&u16s("ZOË.EXE"), "zoë.exe"));
    assert!(!eq_lowercase_utf16(&u16s("ABC.exe"), "äbc.exe"));
}

#[test]
fn lowering_may_lengthen() {
    // U+0130 becomes two characters.
    assert!(eq_lowercase_utf16(&u16s("İ"), "i\u{307}"));
    assert_eq!(monitor("İX").proc_name, "i\u{307}x");
}

#[test]
fn wide_strings_are_terminated() {
    assert_eq!(wide("aé"), vec![0x61, 0xE9, 0]);
    assert_eq!(wide("🐧"), vec![0xD83D, 0xDC27, 0]);
    assert_eq!(wide(""), vec![0]);
}

/// Exercises the sampler against a process that is there and one that is not.
#[test]
fn poll_live() {
    let mut machine = Machine::new(&[process("System", 4), process("services.exe", 800)]);
    for name in ["vmmemWSL", "services.exe"] {
        machine.now = 0;
        let mut m = Monitor::new(name, 30 * SECOND, 4, 8 << 30, 0);
        let (st, changed) = machine.poll(&mut m, true, false);
        println!("{name}: first poll -> {st:?} changed={changed}");
        if !st.running {
            continue;
        }
        assert!(st.cpu.is_none(), "CPU must be unknown after baseline");
        machine.now += 1_500_000_000;
        let (st, changed) = machine.poll(&mut m, true, false);
        println!("{name}: second poll -> {st:?} changed={changed}");
        assert!(
            st.cpu.is_some(),
            "expected a CPU measurement after forced second poll"
        );
        assert!(changed);
        let before = m.snapshots();
        for relaxed in [false, true] {
            let (_, changed) = machine.poll(&mut m, false, relaxed);
            assert!(
                !changed,
                "unforced poll within interval should not report a change"
            );
            assert_eq!(
                m.snapshots(),
                before,
                "a poll within the interval must not take a snapshot"
            );
        }
    }
}

/// While the VM is off, a relaxed poll looks for it at most every
/// `RELAXED_DISCOVERY`; a normal or forced poll always does.
#[test]
fn relaxed_discovery() {
    let mut machine = Machine::new(&[process("System", 4)]);
    let mut m = monitor("no-such-process.exe");
    let (st, _) = machine.poll(&mut m, false, true);
    assert!(!st.running);
    assert_eq!(m.snapshots(), 1, "the first poll always looks");
    machine.poll(&mut m, false, true);
    assert_eq!(
        m.snapshots(),
        1,
        "relaxed: no second look within the interval"
    );
    machine.poll(&mut m, false, false);
    assert_eq!(m.snapshots(), 2, "someone is there: every poll looks");
    machine.poll(&mut m, true, true);
    assert_eq!(m.snapshots(), 3, "forced: always");
    machine.now += RELAXED_DISCOVERY - 1;
    machine.poll(&mut m, false, true);
    assert_eq!(m.snapshots(), 3);
    machine.now += 1;
    machine.poll(&mut m, false, true);
    assert_eq!(m.snapshots(), 4, "relaxed: looks again after the interval");
}

/// The pid check behind the fast path: a process that is always there,
/// a pid that never is, and a pid whose process has another name.
#[test]
fn alive_by_pid() {
    let mut machine = Machine::new(&[process("System", 4), process("services.exe", 800)]);
    let mut m = monitor("services.exe");
    let pid = machine.find(&mut m).expect("services.exe is running").pid;
    assert!(machine.alive(&m, pid));
    assert!(!machine.alive(&m, 1 << 40), "no such pid");
    assert!(!machine.alive(&m, 4), "pid 4 is System, not services.exe");
    assert!(
        !machine.alive(&monitor("notepad.exe"), pid),
        "right pid, wrong name"
    );
}

#[test]
fn bare_names_are_compared_too() {
    let m = monitor("vmmemWSL");
    let name = u16s("vmmemWSL");
    assert!(m.alive(0, &name, 16));
    assert!(!m.alive(0, &name, 14), "the length counts, not the buffer");
    assert!(m.alive(0, &name, 600), "the buffer bounds the length");
    assert!(!m.alive(1, &name, 16), "the query failed");
    assert!(!m.alive(0, &u16s(r"vmmemWSL\"), 18));
}

/// A snapshot that starts with a buffer far too small grows it and
/// succeeds; the size is remembered for the next one.
#[test]
fn snapshot_grows() {
    let mut machine = Machine::new(&[process("System", 4), process("services.exe", 800)]);
    let mut m = monitor("services.exe");
    m.snapshot_size = 64;
    assert!(machine.find(&mut m).is_some());
    assert!(m.snapshot_size > 64);
    assert_eq!(machine.queries, 2);
    let grown = m.snapshot_size;
    assert!(machine.find(&mut m).is_some());
    assert_eq!(m.snapshot_size, grown, "no regrowth once it fits");
    assert_eq!(machine.queries, 3);
    assert_eq!(m.snapshots(), 2);
}

#[test]
fn snapshot_sizes_are_exact() {
    let mut m = monitor("x");
    assert_eq!(
        m.snapshot(64, STATUS_INFO_LENGTH_MISMATCH, 1000, 5),
        Snapshot::Grow(66_536)
    );
    assert_eq!(
        m.snapshot(262_144, STATUS_INFO_LENGTH_MISMATCH, 0, 5),
        Snapshot::Grow(524_288)
    );
    assert_eq!(m.snapshot(64, -1, 0, 5), Snapshot::Failed);
    assert_eq!((m.snapshots(), m.last_snapshot, m.snapshot_size), (0, None, 262_144));
    assert_eq!(m.snapshot(64, 0, 0, 5), Snapshot::Ready);
    assert_eq!((m.snapshots(), m.last_snapshot, m.snapshot_size), (1, Some(5), 64));
}

#[test]
fn first_matching_process_is_found() {
    let mut twin = process("VMMEMwsl", 7);
    twin.user = -5;
    twin.mem = 99;
    let buf = list(&[process("", 0), process("vmmemWSLx", 1), twin, process("vmmemWSL", 8)]);
    let s = find_process(&buf, BASE, "vmmemwsl");
    assert_eq!(s, Some(Sample { pid: 7, cpu_time: -1, mem: 99 }));
    assert_eq!(find_process(&buf, BASE, "vmmem"), None);
    // An entry that does not fit ends the list.
    assert_eq!(find_process(&buf[..buf.len() - 30], BASE, "other"), None);
    assert_eq!(find_process(&[], BASE, "other"), None);
    // Names outside the buffer match nothing.
    assert_eq!(find_process(&buf, BASE + 100_000, "vmmemwsl"), None);
}

#[test]
fn cpu_is_a_share_of_all_cores() {
    let mut machine = Machine::new(&[process("vmmemWSL", 8)]);
    let mut m = monitor("vmmemWSL");
    machine.poll(&mut m, false, false);
    // Two of four cores busy for two seconds.
    machine.processes[0].user += 40_000_000;
    machine.processes[0].mem = 2 << 30;
    machine.now += 2 * SECOND;
    let (st, changed) = machine.poll(&mut m, false, false);
    assert!(changed, "the first number comes at the next poll");
    let cpu = st.cpu.unwrap();
    assert!(cpu.is_at_least(50) && !cpu.is_above(50));
    assert!(st.mem_pct.is_at_least(25) && !st.mem_pct.is_above(25));
    assert_eq!(st.updated, Some((12, 34, 56)));
    // Time that seems to run backwards is no load.
    machine.processes[0].user -= 50_000_000;
    machine.now += 30 * SECOND;
    let (st, _) = machine.poll(&mut m, false, false);
    assert!(!st.cpu.unwrap().is_above(0));
}

#[test]
fn short_windows_keep_the_number() {
    let mut machine = Machine::new(&[process("vmmemWSL", 8)]);
    let mut m = monitor("vmmemWSL");
    machine.poll(&mut m, false, false);
    machine.now += SECOND - 1;
    machine.processes[0].mem = 5;
    let (st, changed) = machine.poll(&mut m, true, false);
    assert!(changed && st.cpu.is_none());
    assert_eq!(st.mem, 5, "memory is fresh all the same");
}

#[test]
fn restart_resets_the_baseline() {
    let mut machine = Machine::new(&[process("vmmemWSL", 8)]);
    let mut m = monitor("vmmemWSL");
    machine.poll(&mut m, false, false);
    machine.now += SECOND;
    machine.poll(&mut m, false, false);
    machine.processes[0].pid = 9;
    machine.now += SECOND;
    let (st, changed) = machine.poll(&mut m, false, true);
    assert!(changed && st.running && st.cpu.is_none());
    assert_eq!(st.pid, 9);
    assert_eq!(m.current().pid, 9);
}

#[test]
fn stop_is_noticed_while_relaxed() {
    let mut machine = Machine::new(&[process("vmmemWSL", 8)]);
    let mut m = monitor("vmmemWSL");
    machine.poll(&mut m, false, false);
    machine.now += SECOND;
    machine.poll(&mut m, false, false);
    machine.processes.clear();
    machine.processes.push(process("System", 4));
    machine.now += SECOND;
    let (st, changed) = machine.poll(&mut m, false, true);
    assert!(changed && !st.running);
    assert_eq!((st.pid, st.mem), (0, 0));
    let (_, changed) = machine.poll(&mut m, true, false);
    assert!(!changed, "staying off is no change");
}

#[test]
fn relaxed_numbers_stay_longer() {
    let mut machine = Machine::new(&[process("vmmemWSL", 8)]);
    let mut m = monitor("vmmemWSL");
    machine.poll(&mut m, false, false);
    machine.now += SECOND;
    machine.poll(&mut m, false, false);
    let before = m.snapshots();
    machine.now += RELAXED_STATS - 1;
    machine.poll(&mut m, false, true);
    assert_eq!(m.snapshots(), before);
    machine.now += 1;
    machine.poll(&mut m, false, true);
    assert_eq!(m.snapshots(), before + 1);
}

#[test]
fn unknown_hosts_have_safe_numbers() {
    let m = Monitor::new("x", SECOND, 0, 0, 0);
    assert_eq!(m.ncpu, 1);
    assert_eq!(m.mem_pct(77), Double::nothing());
}

#[test]
fn shutdown_runs_the_system_program() {
    let mut dir = u16s(r"C:\Windows\system32");
    let n = dir.len();
    dir.resize(260, 0);
    match shutdown_wsl(Known::Directory(dir, n, 0)) {
        Run::Create(exe, line) => {
            assert_eq!(exe, wide(r"C:\Windows\system32\wsl.exe"));
            assert_eq!(line, wide("wsl.exe --shutdown"));
        }
        other => panic!("{other:?}"),
    }
    assert!(matches!(shutdown_wsl(Known::Created(1, 0)), Run::Wait));
    assert!(matches!(shutdown_wsl(Known::Ended(0)), Run::Done(Ok(()))));
}

#[test]
fn shutdown_failures_are_told() {
    let told = |k: Known| match shutdown_wsl(k) {
        Run::Done(Err(e)) => e,
        other => panic!("{other:?}"),
    };
    assert_eq!(
        told(Known::Directory(vec![0; 260], 0, 5)),
        "wsl --shutdown: GetSystemDirectory failed (5)"
    );
    assert_eq!(
        told(Known::Directory(vec![0; 260], 260, 6)),
        "wsl --shutdown: GetSystemDirectory failed (6)"
    );
    assert_eq!(
        told(Known::Created(0, 2)),
        "wsl --shutdown: CreateProcess failed (2)"
    );
    assert_eq!(told(Known::Ended(4294967295)), "wsl --shutdown: exit status 4294967295");
}

#[test]
fn encoded_text_is_read_back() {
    let text = "Zoë 🐧 \u{10FFFF}";
    let u = wide(text);
    let back: String = decode_utf16(&u[..u.len() - 1]).into_iter().collect();
    assert_eq!(back, text);
    assert_eq!(decode_utf16(&[0xDC00, 0xD83D, 0xD83D, 0xDC27]), vec!['\u{FFFD}', '\u{FFFD}', '🐧']);
    assert_eq!(last_component(&u16s(r"\a\b.exe")), &u16s("b.exe")[..]);
    assert_eq!(last_component(&u16s("b")), &u16s("b")[..]);
    assert!(last_component(&u16s(r"\a\")).is_empty());
}
