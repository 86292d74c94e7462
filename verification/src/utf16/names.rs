//! Laws of names: the last component of a path, and comparing but for case.
use vstd::prelude::*;

use super::{base_name, decoded, encoded, lowercase_of, lowered, units};

verus! {

/// The name of a file does not depend on the directory: behind any path that ends in a backslash,
/// a name without one is the last component, and so it is alone.
pub proof fn directory_does_not_matter(dir: Seq<u16>, name: Seq<u16>)
    requires
        dir.len() == 0 || dir.last() == 92,
        forall|i: int| 0 <= i < name.len() ==> #[trigger] name[i] != 92,
    ensures
        base_name(dir + name) == name,
    decreases name.len(),
{
    if name.len() == 0 {
        assert(dir + name =~= dir);
        assert(base_name(dir) =~= seq![]);
    } else {
        let front = name.drop_last();
        assert forall|i: int| 0 <= i < front.len() implies #[trigger] front[i] != 92 by {
            assert(name[i] != 92);
        }
        assert(name[name.len() - 1] != 92);
        directory_does_not_matter(dir, front);
        assert((dir + name).drop_last() =~= dir + front);
        assert((dir + name).last() == name.last());
        assert(front.push(name.last()) =~= name);
    }
}

/// The last component holds no backslash, and is the end of the path.
pub proof fn last_component_is_the_end(u: Seq<u16>)
    ensures
        forall|i: int| 0 <= i < base_name(u).len() ==> #[trigger] base_name(u)[i] != 92,
        base_name(u).len() <= u.len(),
        u.skip(u.len() - base_name(u).len()) == base_name(u),
        base_name(u).len() < u.len() ==> u[u.len() - base_name(u).len() - 1] == 92,
    decreases u.len(),
{
    if u.len() == 0 || u.last() == 92 {
        assert(u.skip(u.len() as int) =~= seq![]);
    } else {
        let front = u.drop_last();
        last_component_is_the_end(front);
        let b = base_name(front);
        assert(base_name(u) =~= b.push(u.last()));
        let k = front.len() - b.len();
        assert(front.skip(k) == b);
        assert forall|i: int| 0 <= i < base_name(u).len() implies #[trigger] base_name(u)[i]
            != 92 by {
            if i < b.len() {
                assert(b[i] != 92);
            }
        }
        assert(u.skip(k) =~= front.skip(k).push(u.last()));
        if b.len() < front.len() {
            assert(front[k - 1] == 92);
            assert(u[k - 1] == front[k - 1]);
        }
    }
}

/// Lower-casing works character by character.
pub proof fn lowering_goes_by_characters(a: Seq<char>, b: Seq<char>)
    ensures
        lowered(a + b) == lowered(a) + lowered(b),
    decreases a.len(),
{
    if a.len() == 0 {
        assert(a + b =~= b);
        assert(lowered(a) + lowered(b) =~= lowered(b));
    } else {
        lowering_goes_by_characters(a.skip(1), b);
        assert((a + b).skip(1) =~= a.skip(1) + b);
        assert((a + b)[0] == a[0]);
        let first = lowercase_of(a[0]);
        assert(first + (lowered(a.skip(1)) + lowered(b)) =~= (first + lowered(a.skip(1))) + lowered(
            b,
        ));
    }
}

/// Encodings of texts one behind the other stand one behind the other.
pub proof fn encodings_join(a: Seq<char>, b: Seq<char>)
    ensures
        encoded(a + b) == encoded(a) + encoded(b),
    decreases a.len(),
{
    if a.len() == 0 {
        assert(a + b =~= b);
        assert(encoded(a) + encoded(b) =~= encoded(b));
    } else {
        encodings_join(a.skip(1), b);
        assert((a + b).skip(1) =~= a.skip(1) + b);
        assert((a + b)[0] == a[0]);
        let first = units(a[0]);
        assert(first + (encoded(a.skip(1)) + encoded(b)) =~= (first + encoded(a.skip(1))) + encoded(
            b,
        ));
    }
}

/// A unit that is no surrogate is a character by itself; a surrogate without its other half is
/// replaced by U+FFFD, and what follows it is decoded as if it stood alone.
pub proof fn lone_surrogates_are_replaced(u: Seq<u16>)
    requires
        u.len() > 0,
        !(0xD800 <= u[0] < 0xDC00 && u.len() > 1 && 0xDC00 <= u[1] < 0xE000),
    ensures
        decoded(u) == seq![
            if 0xD800 <= u[0] < 0xE000 {
                '\u{FFFD}'
            } else {
                u[0] as char
            },
        ] + decoded(u.skip(1)),
{
}

/// The two halves of a pair are one character, counted from U+10000 on in steps of 1024 by the
/// first half and of one by the second.
pub proof fn pairs_are_one_character(u: Seq<u16>)
    requires
        u.len() > 1,
        0xD800 <= u[0] < 0xDC00,
        0xDC00 <= u[1] < 0xE000,
    ensures
        decoded(u).len() == 1 + decoded(u.skip(2)).len(),
        decoded(u)[0] as int == 0x1_0000 + 1024 * (u[0] - 0xD800) + (u[1] - 0xDC00),
        decoded(u).skip(1) == decoded(u.skip(2)),
{
    let c = 0x1_0000 + (u[0] - 0xD800) * 0x400 + (u[1] - 0xDC00);
    assert(0x1_0000 <= c <= 0x10FFFF);
    assert(decoded(u).skip(1) =~= decoded(u.skip(2)));
}

/// Decoding never fails and never makes a text longer.
pub proof fn decoding_is_no_longer(u: Seq<u16>)
    ensures
        decoded(u).len() <= u.len() <= 2 * decoded(u).len(),
    decreases u.len(),
{
    if u.len() > 0 {
        decoding_is_no_longer(u.skip(1));
        if u.len() >= 2 {
            decoding_is_no_longer(u.skip(2));
        }
    }
}

} // verus!
