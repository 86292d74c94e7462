//! Laws of process lists: how numbers are read from bytes, and what is read of a process.
use vstd::prelude::*;

use crate::utf16::{encoded, lowered, name_matches_itself};

use super::{
    chain, distance, image_name, is_sample, named, number, signed, Sample, ENTRY_SIZE, KERNEL_TIME,
    PROCESS_ID, USER_TIME, WORKING_SET,
};

verus! {

/// A number is its bytes: numbers of the same length are the same exactly if all their bytes are,
/// wherever they stand.
pub proof fn numbers_are_their_bytes(a: Seq<u8>, i: int, b: Seq<u8>, j: int, n: nat)
    ensures
        number(a, i, n) == number(b, j, n) <==> forall|k: int|
            0 <= k < n ==> #[trigger] a[i + k] == b[j + k],
    decreases n,
{
    if n > 0 {
        let m = (n - 1) as nat;
        numbers_are_their_bytes(a, i + 1, b, j + 1, m);
        let (x, y) = (number(a, i + 1, m), number(b, j + 1, m));
        if number(a, i, n) == number(b, j, n) {
            assert(a[i] as int + 256 * x == b[j] as int + 256 * y);
            assert(a[i] == b[j] && x == y);
            assert forall|k: int| 0 <= k < n implies #[trigger] a[i + k] == b[j + k] by {
                if k > 0 {
                    assert(a[(i + 1) + (k - 1)] == b[(j + 1) + (k - 1)]);
                }
            }
        }
        if forall|k: int| 0 <= k < n ==> #[trigger] a[i + k] == b[j + k] {
            assert(a[i + 0] == b[j + 0]);
            assert forall|k: int| 0 <= k < m implies #[trigger] a[(i + 1) + k] == b[(j + 1) + k] by {
                assert(a[i + (k + 1)] == b[j + (k + 1)]);
            }
        }
    }
}

/// The first byte counts ones, and each further one 256 times as much as the one before.
pub proof fn low_byte_stands_first(a: Seq<u8>, i: int, n: nat)
    requires
        n > 0,
    ensures
        number(a, i, n) % 256 == a[i],
        number(a, i, n) / 256 == number(a, i + 1, (n - 1) as nat),
        number(a, i, 0) == 0,
{
}

/// The sign bit makes a number negative, and nothing else of it changes.
pub proof fn signed_numbers_wrap(bits: nat)
    requires
        bits < 0x1_0000_0000_0000_0000,
    ensures
        -0x8000_0000_0000_0000 <= signed(bits) < 0x8000_0000_0000_0000,
        signed(bits) == bits || signed(bits) == bits - 0x1_0000_0000_0000_0000,
{
}

/// What an entry says of its process: the CPU time is the user's and the kernel's together, the
/// pid, and the working set.
pub proof fn times_are_added(buf: Seq<u8>, off: int, s: Sample)
    requires
        is_sample(buf, off, s),
        -0x8000_0000_0000_0000 <= signed(number(buf, off + USER_TIME, 8)) + signed(
            number(buf, off + KERNEL_TIME, 8),
        ) < 0x8000_0000_0000_0000,
    ensures
        s.cpu_time == signed(number(buf, off + 40, 8)) + signed(number(buf, off + 48, 8)),
        s.mem == number(buf, off + 144, 8),
        s.pid == number(buf, off + 80, 8) as usize,
{
    lemma_eight_bytes(buf, off + USER_TIME);
    lemma_eight_bytes(buf, off + KERNEL_TIME);
}

proof fn lemma_eight_bytes(a: Seq<u8>, i: int)
    ensures
        number(a, i, 8) < 0x1_0000_0000_0000_0000,
{
    reveal_with_fuel(number, 9);
}

/// The two times count alike: an entry in which they are exchanged says the same.
pub proof fn both_times_count_alike(a: Seq<u8>, b: Seq<u8>, off: int, s: Sample)
    requires
        is_sample(a, off, s),
        number(b, off + USER_TIME, 8) == number(a, off + KERNEL_TIME, 8),
        number(b, off + KERNEL_TIME, 8) == number(a, off + USER_TIME, 8),
        number(b, off + PROCESS_ID, 8) == number(a, off + PROCESS_ID, 8),
        number(b, off + WORKING_SET, 8) == number(a, off + WORKING_SET, 8),
    ensures
        is_sample(b, off, s),
{
    lemma_eight_bytes(a, off + USER_TIME);
    lemma_eight_bytes(a, off + KERNEL_TIME);
}

/// The entries are linked: each is as far behind the one before as that one says, and the last one
/// says 0 or leads out of the buffer.
pub proof fn entries_are_linked(buf: Seq<u8>, off: int, k: int)
    requires
        0 <= k < chain(buf, off).len(),
    ensures
        chain(buf, off)[0] == off,
        k + 1 < chain(buf, off).len() ==> chain(buf, off)[k + 1] == chain(buf, off)[k] + distance(
            buf,
            chain(buf, off)[k],
        ),
        k + 1 == chain(buf, off).len() ==> distance(buf, chain(buf, off)[k]) == 0 || chain(
            buf,
            off,
        )[k] + distance(buf, chain(buf, off)[k]) + ENTRY_SIZE > buf.len(),
    decreases if off < buf.len() { buf.len() - off } else { 0 },
{
    if distance(buf, off) != 0 {
        let next = off + distance(buf, off);
        let rest = chain(buf, next);
        assert(chain(buf, off) == seq![off] + rest);
        if k > 0 {
            entries_are_linked(buf, next, k - 1);
            assert(chain(buf, off)[k] == rest[k - 1]);
            if k + 1 < chain(buf, off).len() {
                assert(chain(buf, off)[k + 1] == rest[k]);
            }
        } else if rest.len() > 0 {
            entries_are_linked(buf, next, 0);
            assert(chain(buf, off)[1] == rest[0]);
        }
    }
}

/// A process is found by its name but for case: an entry with that image name is the one looked
/// for exactly if the lower-cased names are the same.
pub proof fn names_match_but_for_case(
    buf: Seq<u8>,
    base: nat,
    off: int,
    name: Seq<char>,
    lower: Seq<char>,
)
    requires
        image_name(buf, base, off) == Some(encoded(name)),
    ensures
        named(buf, base, off, lower) <==> lowered(name) == lower,
        named(buf, base, off, lowered(name)),
{
    name_matches_itself(name);
}

/// A name is read from where its address points, and has half as many units as it has bytes.
pub proof fn name_stands_at_its_address(buf: Seq<u8>, base: nat, off: int, at: int)
    requires
        0 <= at,
        number(buf, off + 64, 8) == base + at,
        base + at > 0,
        number(buf, off + 56, 2) > 0,
        at + number(buf, off + 56, 2) <= buf.len(),
    ensures
        image_name(buf, base, off) matches Some(name) && name.len() == number(buf, off + 56, 2) / 2
            && forall|i: int|
            0 <= i < name.len() ==> #[trigger] name[i] == buf[at + 2 * i] + 256 * buf[at + 2 * i
                + 1],
{
    reveal_with_fuel(number, 3);
    let name = image_name(buf, base, off)->0;
    assert forall|i: int| 0 <= i < name.len() implies #[trigger] name[i] == buf[at + 2 * i] + 256
        * buf[at + 2 * i + 1] by {
        let p = at + 2 * i;
        assert(number(buf, p, 2) == buf[p] + 256 * (buf[p + 1] + 256 * 0));
    }
}

} // verus!
