//! UTF-16 strings as Windows hands them out and takes them.
use vstd::prelude::*;
use vstd::slice::*;
use vstd::string::*;

use crate::text::{chars_of, same_chars};

pub mod names;

verus! {

/// `u` is a Unicode scalar value: a code point that is no surrogate.
pub open spec fn is_scalar(u: int) -> bool {
    0 <= u < 0xD800 || 0xE000 <= u <= 0x10FFFF
}

/// `std`'s `char::from_u32` returns the character with that code point, and `None` where the
/// number is no Unicode scalar value.
pub assume_specification[ char::from_u32 ](u: u32) -> (r: Option<char>)
    ensures
        match r {
            Some(c) => is_scalar(u as int) && c == u as char,
            None => !is_scalar(u as int),
        },
;

/// What `char::to_lowercase` yields for a character.
pub uninterp spec fn lowercase_of(c: char) -> Seq<char>;

/// `std`'s `char::to_lowercase`, collected: the lower-case mapping of the character, which has
/// one character or more and depends on nothing else.
#[verifier::external_body]
fn lowercase(c: char) -> (v: Vec<char>)
    ensures
        v@ == lowercase_of(c),
        v@.len() >= 1,
{
    c.to_lowercase().collect()
}

/// The UTF-16 code units of a character.
pub open spec fn units(c: char) -> Seq<u16> {
    let u = c as int;
    if u < 0x1_0000 {
        seq![u as u16]
    } else {
        seq![(0xD800 + (u - 0x1_0000) / 0x400) as u16, (0xDC00 + (u - 0x1_0000) % 0x400) as u16]
    }
}

/// The UTF-16 encoding of a string.
pub open spec fn encoded(s: Seq<char>) -> Seq<u16>
    decreases s.len(),
{
    if s.len() == 0 {
        seq![]
    } else {
        units(s[0]) + encoded(s.skip(1))
    }
}

pub open spec fn is_high_surrogate(u: u16) -> bool {
    0xD800 <= u < 0xDC00
}

pub open spec fn is_low_surrogate(u: u16) -> bool {
    0xDC00 <= u < 0xE000
}

/// What stands for a unit that belongs to no character.
pub open spec fn replacement() -> char {
    '\u{FFFD}'
}

/// The characters of a UTF-16 string, unpaired surrogates replaced by U+FFFD.
pub open spec fn decoded(u: Seq<u16>) -> Seq<char>
    decreases u.len(),
{
    if u.len() == 0 {
        seq![]
    } else if is_high_surrogate(u[0]) && u.len() >= 2 && is_low_surrogate(u[1]) {
        seq![(0x1_0000 + (u[0] - 0xD800) * 0x400 + (u[1] - 0xDC00)) as char] + decoded(u.skip(2))
    } else if is_high_surrogate(u[0]) || is_low_surrogate(u[0]) {
        seq![replacement()] + decoded(u.skip(1))
    } else {
        seq![u[0] as char] + decoded(u.skip(1))
    }
}

/// Appends the code units of a character.
fn push_units(buf: &mut Vec<u16>, c: char)
    ensures
        final(buf)@ == old(buf)@ + units(c),
{
    let u: u32 = c as u32;
    if u < 0x1_0000 {
        buf.push(u as u16);
    } else {
        let v: u32 = u - 0x1_0000;
        buf.push((0xD800 + v / 0x400) as u16);
        buf.push((0xDC00 + v % 0x400) as u16);
    }
    assert(buf@ =~= old(buf)@ + units(c));
}

/// Appends the UTF-16 encoding of a string.
pub fn push_utf16(buf: &mut Vec<u16>, s: &str)
    ensures
        final(buf)@ == old(buf)@ + encoded(s@),
{
    let chars: Vec<char> = chars_of(s);
    let ghost buf0 = buf@;
    let mut i: usize = 0;
    assert(s@.skip(0) =~= s@);
    while i < chars.len()
        invariant
            i <= chars@.len(),
            chars@ == s@,
            buf@ + encoded(s@.skip(i as int)) == buf0 + encoded(s@),
        decreases chars@.len() - i,
    {
        let ghost before = buf@;
        let ghost rest = s@.skip(i as int);
        push_units(buf, chars[i]);
        proof {
            assert(rest.skip(1) =~= s@.skip(i + 1));
            assert(rest[0] == chars@[i as int]);
            assert(before + (units(rest[0]) + encoded(rest.skip(1))) =~= buf@ + encoded(
                rest.skip(1),
            ));
        }
        i += 1;
    }
    assert(s@.skip(i as int) =~= seq![]);
    assert(buf@ + encoded(seq![]) =~= buf@);
}

/// Encodes a string as NUL-terminated UTF-16 for the `*W` Win32 functions.
pub fn wide(s: &str) -> (u: Vec<u16>)
    ensures
        u@ == encoded(s@).push(0),
{
    let mut u: Vec<u16> = Vec::new();
    push_utf16(&mut u, s);
    u.push(0);
    assert(u@ =~= encoded(s@).push(0));
    u
}

/// Decodes UTF-16, replacing unpaired surrogates.
pub fn decode_utf16(u: &[u16]) -> (chars: Vec<char>)
    ensures
        chars@ == decoded(u@),
{
    let mut chars: Vec<char> = Vec::new();
    let mut i: usize = 0;
    let n: usize = u.len();
    assert(u@.skip(0) =~= u@);
    while i < n
        invariant
            i <= n == u@.len(),
            chars@ + decoded(u@.skip(i as int)) == decoded(u@),
        decreases n - i,
    {
        let ghost before = chars@;
        let ghost rest = u@.skip(i as int);
        let a: u16 = u[i];
        if 0xD800 <= a && a < 0xDC00 && n - i >= 2 && 0xDC00 <= u[i + 1] && u[i + 1] < 0xE000 {
            let b: u16 = u[i + 1];
            let code: u32 = 0x1_0000 + (a as u32 - 0xD800) * 0x400 + (b as u32 - 0xDC00);
            let c: char = char::from_u32(code).unwrap();
            chars.push(c);
            i += 2;
            proof {
                assert(rest.skip(2) =~= u@.skip(i as int));
                assert(before + (seq![c] + decoded(rest.skip(2))) =~= chars@ + decoded(
                    rest.skip(2),
                ));
            }
        } else {
            let c: char = if 0xD800 <= a && a < 0xE000 {
                '\u{FFFD}'
            } else {
                char::from_u32(a as u32).unwrap()
            };
            chars.push(c);
            i += 1;
            proof {
                assert(rest.skip(1) =~= u@.skip(i as int));
                assert(before + (seq![c] + decoded(rest.skip(1))) =~= chars@ + decoded(
                    rest.skip(1),
                ));
            }
        }
    }
    assert(u@.skip(i as int) =~= seq![]);
    assert(chars@ + decoded(seq![]) =~= chars@);
    chars
}

proof fn lemma_char_decodes(c: char, rest: Seq<u16>)
    ensures
        decoded(units(c) + rest) == seq![c] + decoded(rest),
{
    vstd::utf8::char_is_scalar(c);
    let u = units(c) + rest;
    let n = c as int;
    if n < 0x1_0000 {
        assert(u.skip(1) =~= rest);
        assert(u[0] as char == c);
    } else {
        assert(u.skip(2) =~= rest);
        assert(u[0] == 0xD800 + (n - 0x1_0000) / 0x400);
        assert(u[1] == 0xDC00 + (n - 0x1_0000) % 0x400);
        assert(0x1_0000 + (u[0] - 0xD800) * 0x400 + (u[1] - 0xDC00) == n);
    }
}

/// Decoding an encoded string gives the string back.
pub proof fn encoded_text_decodes(s: Seq<char>)
    ensures
        decoded(encoded(s)) == s,
    decreases s.len(),
{
    if s.len() > 0 {
        encoded_text_decodes(s.skip(1));
        lemma_char_decodes(s[0], encoded(s.skip(1)));
        assert(seq![s[0]] + s.skip(1) =~= s);
    }
}

/// Every character replaced by its lower-case mapping.
pub open spec fn lowered(s: Seq<char>) -> Seq<char>
    decreases s.len(),
{
    if s.len() == 0 {
        seq![]
    } else {
        lowercase_of(s[0]) + lowered(s.skip(1))
    }
}

/// The pieces one after the other.
pub open spec fn joined(parts: Seq<Vec<char>>) -> Seq<char>
    decreases parts.len(),
{
    if parts.len() == 0 {
        seq![]
    } else {
        parts[0]@ + joined(parts.skip(1))
    }
}

/// Joins the pieces.
pub fn join(parts: &Vec<Vec<char>>) -> (v: Vec<char>)
    ensures
        v@ == joined(parts@),
{
    let mut v: Vec<char> = Vec::new();
    let mut i: usize = 0;
    assert(parts@.skip(0) =~= parts@);
    while i < parts.len()
        invariant
            i <= parts@.len(),
            v@ + joined(parts@.skip(i as int)) == joined(parts@),
        decreases parts@.len() - i,
    {
        let ghost before = v@;
        let ghost rest = parts@.skip(i as int);
        let mut k: usize = 0;
        assert(before + rest[0]@.take(0) =~= before);
        while k < parts[i].len()
            invariant
                i < parts@.len(),
                k <= parts@[i as int]@.len(),
                rest == parts@.skip(i as int),
                v@ == before + rest[0]@.take(k as int),
            decreases parts@[i as int]@.len() - k,
        {
            v.push(parts[i][k]);
            k += 1;
            assert(rest[0]@.take(k as int) =~= rest[0]@.take(k - 1).push(rest[0]@[k - 1]));
        }
        proof {
            assert(rest[0]@.take(k as int) =~= rest[0]@);
            assert(rest.skip(1) =~= parts@.skip(i + 1));
            assert(before + (rest[0]@ + joined(rest.skip(1))) =~= v@ + joined(rest.skip(1)));
        }
        i += 1;
    }
    assert(parts@.skip(i as int) =~= seq![]);
    assert(v@ + joined(seq![]) =~= v@);
    v
}

/// Whether the pieces, one after the other, spell `text`.
pub fn spells(parts: &Vec<Vec<char>>, text: &str) -> (r: bool)
    ensures
        r == (joined(parts@) == text@),
{
    same_chars(join(parts).as_slice(), chars_of(text).as_slice())
}

/// The lower-case mapping of each character.
fn lower_parts(chars: &[char]) -> (parts: Vec<Vec<char>>)
    ensures
        joined(parts@) == lowered(chars@),
{
    let mut parts: Vec<Vec<char>> = Vec::new();
    let mut i: usize = 0;
    while i < chars.len()
        invariant
            i <= chars@.len(),
            parts@.len() == i,
            forall|k: int| 0 <= k < i ==> (#[trigger] parts@[k])@ == lowercase_of(chars@[k]),
        decreases chars@.len() - i,
    {
        parts.push(lowercase(chars[i]));
        i += 1;
    }
    proof {
        lemma_parts_joined(parts@, chars@);
    }
    parts
}

proof fn lemma_parts_joined(parts: Seq<Vec<char>>, chars: Seq<char>)
    requires
        parts.len() == chars.len(),
        forall|k: int| 0 <= k < parts.len() ==> (#[trigger] parts[k])@ == lowercase_of(chars[k]),
    ensures
        joined(parts) == lowered(chars),
    decreases parts.len(),
{
    if parts.len() > 0 {
        assert forall|k: int| 0 <= k < parts.skip(1).len() implies (#[trigger] parts.skip(1)[k])@
            == lowercase_of(chars.skip(1)[k]) by {
            assert(parts.skip(1)[k] == parts[k + 1]);
        }
        lemma_parts_joined(parts.skip(1), chars.skip(1));
        assert(parts[0]@ == lowercase_of(chars[0]));
    }
}

/// Lower-cases a string with full Unicode rules.
pub fn to_lower(s: &str) -> (v: Vec<char>)
    ensures
        v@ == lowered(s@),
{
    join(&lower_parts(chars_of(s).as_slice()))
}

/// Compares a UTF-16 image name against a pre-lowercased string, lowering every character (not
/// just A-Z).
pub fn eq_lowercase_utf16(name: &[u16], lower: &str) -> (r: bool)
    ensures
        r == (lowered(decoded(name@)) == lower@),
{
    spells(&lower_parts(decode_utf16(name).as_slice()), lower)
}

/// A name matches its own lower-cased form, whatever its case.
pub proof fn name_matches_itself(name: Seq<char>)
    ensures
        lowered(decoded(encoded(name))) == lowered(name),
{
    encoded_text_decodes(name);
}

/// The last component of a path: what follows the last backslash.
pub open spec fn base_name(u: Seq<u16>) -> Seq<u16>
    decreases u.len(),
{
    if u.len() == 0 || u.last() == 92 {
        seq![]
    } else {
        base_name(u.drop_last()).push(u.last())
    }
}

/// The last component of a path.
pub fn last_component(u: &[u16]) -> (r: &[u16])
    ensures
        r@ == base_name(u@),
{
    let n: usize = u.len();
    let mut i: usize = n;
    assert(u@.subrange(n as int, n as int) =~= seq![]);
    assert(u@.take(n as int) =~= u@);
    assert(base_name(u@) + seq![] =~= base_name(u@));
    while i > 0 && u[i - 1] != 92
        invariant
            i <= n == u@.len(),
            base_name(u@) == base_name(u@.take(i as int)) + u@.subrange(i as int, n as int),
        decreases i,
    {
        let ghost t = u@.take(i as int);
        proof {
            assert(t.drop_last() =~= u@.take(i - 1));
            assert(base_name(t.drop_last()).push(t.last()) + u@.subrange(i as int, n as int)
                =~= base_name(u@.take(i - 1)) + u@.subrange(i - 1, n as int));
        }
        i -= 1;
    }
    assert(base_name(u@.take(i as int)) =~= seq![]);
    assert(base_name(u@) =~= u@.subrange(i as int, n as int));
    slice_subrange(u, i, n)
}

} // verus!
