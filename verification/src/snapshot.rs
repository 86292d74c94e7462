//! A process list as the kernel writes it: a chain of entries in one buffer, each linked to the
//! next by its distance in bytes.
use vstd::prelude::*;
use vstd::string::*;

use crate::utf16::{decoded, eq_lowercase_utf16, lowered};

pub mod fields;

verus! {

/// Size of the leading part of an entry, which is all that is read.
pub const ENTRY_SIZE: usize = 152;

// Where an entry keeps what is read (x64 layout).
pub const NEXT_ENTRY: usize = 0;

pub const USER_TIME: usize = 40;

pub const KERNEL_TIME: usize = 48;

pub const NAME_LENGTH: usize = 56;

pub const NAME_ADDRESS: usize = 64;

pub const PROCESS_ID: usize = 80;

pub const WORKING_SET: usize = 144;

/// One process as measured by a snapshot.
#[derive(Clone, Copy, Debug, PartialEq, Eq, Structural)]
pub struct Sample {
    /// Process id.
    pub pid: usize,
    /// Kernel and user time together, in units of 100 ns.
    pub cpu_time: i64,
    /// Working set, bytes.
    pub mem: u64,
}

/// The number in the `n` bytes at `at`, low byte first.
pub open spec fn number(buf: Seq<u8>, at: int, n: nat) -> nat
    decreases n,
{
    if n == 0 {
        0
    } else {
        buf[at] as nat + 256 * number(buf, at + 1, (n - 1) as nat)
    }
}

/// The 64-bit two's complement number with these bits.
pub open spec fn signed(bits: nat) -> int {
    if bits < 0x8000_0000_0000_0000 {
        bits as int
    } else {
        bits - 0x1_0000_0000_0000_0000
    }
}

/// The words in the buffer from `at` on, `n` of them.
pub open spec fn words(buf: Seq<u8>, at: int, n: nat) -> Seq<u16> {
    Seq::new(n, |i: int| number(buf, at + 2 * i, 2) as u16)
}

/// Distance in bytes from the entry at `off` to the one after it, 0 for the last.
pub open spec fn distance(buf: Seq<u8>, off: int) -> nat {
    number(buf, off + NEXT_ENTRY, 4)
}

/// Where the entries of the chain that starts at `off` begin. The chain ends where the next entry
/// would not fit.
pub open spec fn chain(buf: Seq<u8>, off: int) -> Seq<int>
    decreases if off < buf.len() { buf.len() - off } else { 0 },
{
    if off < 0 || off + ENTRY_SIZE > buf.len() {
        seq![]
    } else if distance(buf, off) == 0 {
        seq![off]
    } else {
        seq![off] + chain(buf, off + distance(buf, off))
    }
}

/// The image name of the entry at `off` in a buffer that stands at address `base`; `None` where
/// the entry has no name or the name does not lie in the buffer.
pub open spec fn image_name(buf: Seq<u8>, base: nat, off: int) -> Option<Seq<u16>> {
    let len = number(buf, off + NAME_LENGTH, 2);
    let at = number(buf, off + NAME_ADDRESS, 8) - base;
    if len == 0 || number(buf, off + NAME_ADDRESS, 8) == 0 || at < 0 || at + 2 * (len / 2)
        > buf.len() {
        None
    } else {
        Some(words(buf, at, len / 2))
    }
}

/// The entry at `off` is that of a process whose lower-cased image name is `lower`.
pub open spec fn named(buf: Seq<u8>, base: nat, off: int, lower: Seq<char>) -> bool {
    image_name(buf, base, off) matches Some(name) && lowered(decoded(name)) == lower
}

/// What the entry at `off` says of its process. Times are added as 64-bit numbers that wrap.
pub open spec fn is_sample(buf: Seq<u8>, off: int, s: Sample) -> bool {
    &&& s.pid == number(buf, off + PROCESS_ID, 8) as usize
    &&& s.cpu_time == i64::wrapping_add(
        signed(number(buf, off + USER_TIME, 8)) as i64,
        signed(number(buf, off + KERNEL_TIME, 8)) as i64,
    )
    &&& s.mem == number(buf, off + WORKING_SET, 8)
}

/// `s` is what the first entry named `lower` says.
pub open spec fn is_first_named(buf: Seq<u8>, base: nat, lower: Seq<char>, s: Sample) -> bool {
    exists|k: int|
        {
            &&& 0 <= k < chain(buf, 0).len()
            &&& #[trigger] named(buf, base, chain(buf, 0)[k], lower)
            &&& forall|j: int| 0 <= j < k ==> !#[trigger] named(buf, base, chain(buf, 0)[j], lower)
            &&& is_sample(buf, chain(buf, 0)[k], s)
        }
}

/// No entry is named `lower`.
pub open spec fn none_named(buf: Seq<u8>, base: nat, lower: Seq<char>) -> bool {
    forall|j: int|
        0 <= j < chain(buf, 0).len() ==> !#[trigger] named(buf, base, chain(buf, 0)[j], lower)
}

fn read_u16(buf: &[u8], at: usize) -> (v: u16)
    requires
        at + 2 <= buf@.len(),
    ensures
        v == number(buf@, at as int, 2),
{
    reveal_with_fuel(number, 3);
    buf[at] as u16 + 256 * (buf[at + 1] as u16)
}

fn read_u32(buf: &[u8], at: usize) -> (v: u32)
    requires
        at + 4 <= buf@.len(),
    ensures
        v == number(buf@, at as int, 4),
{
    assert(buf.len() == buf@.len());
    let lo: u16 = read_u16(buf, at);
    let hi: u16 = read_u16(buf, at + 2);
    reveal_with_fuel(number, 5);
    lo as u32 + 0x1_0000 * (hi as u32)
}

fn read_u64(buf: &[u8], at: usize) -> (v: u64)
    requires
        at + 8 <= buf@.len(),
    ensures
        v == number(buf@, at as int, 8),
{
    assert(buf.len() == buf@.len());
    let lo: u32 = read_u32(buf, at);
    let hi: u32 = read_u32(buf, at + 4);
    reveal_with_fuel(number, 9);
    lo as u64 + 0x1_0000_0000 * (hi as u64)
}

fn read_i64(buf: &[u8], at: usize) -> (v: i64)
    requires
        at + 8 <= buf@.len(),
    ensures
        v == signed(number(buf@, at as int, 8)),
{
    let bits: u64 = read_u64(buf, at);
    if bits < 0x8000_0000_0000_0000 {
        bits as i64
    } else {
        (bits - 0x8000_0000_0000_0000) as i64 + i64::MIN
    }
}

/// Reads `n` words.
fn read_words(buf: &[u8], at: usize, n: usize) -> (v: Vec<u16>)
    requires
        at + 2 * n <= buf@.len(),
    ensures
        v@ == words(buf@, at as int, n as nat),
{
    let mut v: Vec<u16> = Vec::new();
    let mut i: usize = 0;
    assert(buf.len() == buf@.len());
    while i < n
        invariant
            i <= n,
            at + 2 * n <= buf@.len() <= usize::MAX,
            v@ == words(buf@, at as int, i as nat),
        decreases n - i,
    {
        v.push(read_u16(buf, at + 2 * i));
        i += 1;
        assert(v@ =~= words(buf@, at as int, i as nat));
    }
    v
}

/// Whether the entry at `off` is that of a process whose lower-cased image name is `lower`.
fn is_named(buf: &[u8], base: u64, off: usize, lower: &str) -> (r: bool)
    requires
        off + ENTRY_SIZE <= buf@.len(),
    ensures
        r == named(buf@, base as nat, off as int, lower@),
{
    let size: usize = buf.len();
    let len: usize = read_u16(buf, off + NAME_LENGTH) as usize;
    let address: u64 = read_u64(buf, off + NAME_ADDRESS);
    if len == 0 || address == 0 || address < base || address - base > size as u64 {
        return false;
    }
    let at: usize = (address - base) as usize;
    if 2 * (len / 2) > size - at {
        return false;
    }
    eq_lowercase_utf16(read_words(buf, at, len / 2).as_slice(), lower)
}

/// Walks the entries of a snapshot that stands at address `base`: the first process whose
/// lower-cased image name is `lower`.
pub fn find_process(buf: &[u8], base: u64, lower: &str) -> (r: Option<Sample>)
    ensures
        match r {
            Some(s) => is_first_named(buf@, base as nat, lower@, s),
            None => none_named(buf@, base as nat, lower@),
        },
{
    let size: usize = buf.len();
    let mut off: usize = 0;
    let ghost mut seen: Seq<int> = seq![];
    let ghost all = chain(buf@, 0);
    assert(seen + all =~= all);
    while off <= size && size - off >= ENTRY_SIZE
        invariant
            size == buf@.len(),
            all == chain(buf@, 0),
            all == seen + chain(buf@, off as int),
            forall|j: int|
                0 <= j < seen.len() ==> !#[trigger] named(buf@, base as nat, all[j], lower@),
        decreases size - off,
    {
        let ghost rest = chain(buf@, off as int);
        assert(rest.len() >= 1 && rest[0] == off as int);
        assert(all[seen.len() as int] == off as int);
        let next: u32 = read_u32(buf, off + NEXT_ENTRY);
        if is_named(buf, base, off, lower) {
            let s = Sample {
                pid: read_u64(buf, off + PROCESS_ID) as usize,
                cpu_time: read_i64(buf, off + USER_TIME).wrapping_add(
                    read_i64(buf, off + KERNEL_TIME),
                ),
                mem: read_u64(buf, off + WORKING_SET),
            };
            assert(named(buf@, base as nat, all[seen.len() as int], lower@));
            return Some(s);
        }
        if next == 0 {
            assert forall|j: int| 0 <= j < all.len() implies !#[trigger] named(
                buf@,
                base as nat,
                all[j],
                lower@,
            ) by {
                assert(rest =~= seq![off as int]);
                assert(j < seen.len() || j == seen.len());
            }
            return None;
        }
        proof {
            assert(rest == seq![off as int] + chain(buf@, off + next));
            assert(seen + rest =~= seen.push(off as int) + chain(buf@, off + next));
            seen = seen.push(off as int);
        }
        if next as usize > size - off {
            assert(chain(buf@, off + next) =~= seq![]);
            return None;
        }
        off += next as usize;
    }
    assert(chain(buf@, off as int) =~= seq![]);
    assert(all =~= seen);
    None
}

/// The entries of a chain lie in the buffer, each behind the one before.
pub proof fn entries_lie_in_buffer(buf: Seq<u8>, off: int)
    ensures
        forall|k: int|
            0 <= k < chain(buf, off).len() ==> off <= #[trigger] chain(buf, off)[k] && chain(
                buf,
                off,
            )[k] + ENTRY_SIZE <= buf.len(),
        forall|j: int, k: int|
            0 <= j < k < chain(buf, off).len() ==> #[trigger] chain(buf, off)[j]
                < #[trigger] chain(buf, off)[k],
    decreases if off < buf.len() { buf.len() - off } else { 0 },
{
    let all = chain(buf, off);
    if 0 <= off && off + ENTRY_SIZE <= buf.len() && distance(buf, off) != 0 {
        let next = off + distance(buf, off);
        let rest = chain(buf, next);
        entries_lie_in_buffer(buf, next);
        assert forall|k: int| 0 <= k < all.len() implies off <= #[trigger] all[k] && all[k]
            + ENTRY_SIZE <= buf.len() by {
            if k > 0 {
                assert(all[k] == rest[k - 1]);
            }
        }
        assert forall|j: int, k: int| 0 <= j < k < all.len() implies #[trigger] all[j]
            < #[trigger] all[k] by {
            assert(all[k] == rest[k - 1]);
            if j > 0 {
                assert(all[j] == rest[j - 1]);
            }
        }
    }
}

/// A list has one first process of a name, and none where no process has it.
pub proof fn first_named_is_unique(
    buf: Seq<u8>,
    base: nat,
    lower: Seq<char>,
    s: Sample,
    t: Sample,
)
    requires
        is_first_named(buf, base, lower, s),
    ensures
        !none_named(buf, base, lower),
        is_first_named(buf, base, lower, t) ==> s == t,
{
    let all = chain(buf, 0);
    let k = choose|k: int|
        {
            &&& 0 <= k < all.len()
            &&& #[trigger] named(buf, base, all[k], lower)
            &&& forall|j: int| 0 <= j < k ==> !#[trigger] named(buf, base, all[j], lower)
            &&& is_sample(buf, all[k], s)
        };
    assert(named(buf, base, all[k], lower));
    if is_first_named(buf, base, lower, t) {
        let m = choose|k: int|
            {
                &&& 0 <= k < all.len()
                &&& #[trigger] named(buf, base, all[k], lower)
                &&& forall|j: int| 0 <= j < k ==> !#[trigger] named(buf, base, all[j], lower)
                &&& is_sample(buf, all[k], t)
            };
        assert(named(buf, base, all[m], lower));
        assert(k == m);
    }
}

} // verus!
