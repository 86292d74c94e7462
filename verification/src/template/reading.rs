//! Laws of dialog templates: what a reader of the words finds is what was put into them.
use vstd::prelude::*;
use vstd::string::*;

use crate::registry::before_nul;
use crate::registry::values::{has_no_nul, lemma_encoded_nonzero, nul_ends_a_text};
use crate::utf16::{decoded, encoded, encoded_text_decodes};
use crate::win32::{DS_SETFONT, WS_CHILD, WS_VISIBLE};

use super::{control_words, dword, header_words, sz, Control};

verus! {

/// The 32-bit number in the words at `at`, low word first.
pub open spec fn dword_at(w: Seq<u16>, at: int) -> int {
    w[at] + 0x1_0000 * w[at + 1]
}

/// The window class at `at`: by its ordinal behind a marking word, or else by name.
pub open spec fn class_at(w: Seq<u16>, at: int) -> Seq<u16> {
    if w[at] == 0xFFFF {
        w.subrange(at, at + 2)
    } else {
        before_nul(w.skip(at)).push(0)
    }
}

/// The text at `at`, up to a NUL.
pub open spec fn text_at(w: Seq<u16>, at: int) -> Seq<char> {
    decoded(before_nul(w.skip(at)))
}

/// A class that can stand in a template: an ordinal, or a name.
pub open spec fn is_class(class: Seq<u16>) -> bool {
    ||| class.len() == 2 && class[0] == 0xFFFF
    ||| class.len() > 1 && class[0] != 0xFFFF && class.last() == 0 && forall|i: int|
        0 <= i < class.len() - 1 ==> #[trigger] class[i] != 0
}

proof fn lemma_dword(v: u32)
    ensures
        dword(v).len() == 2,
        dword(v)[0] + 0x1_0000 * dword(v)[1] == v,
{
}

proof fn lemma_text(front: Seq<u16>, s: Seq<char>, tail: Seq<u16>)
    requires
        has_no_nul(s),
    ensures
        text_at(front + sz(s) + tail, front.len() as int) == s,
{
    let w = front + sz(s) + tail;
    lemma_encoded_nonzero(s);
    encoded_text_decodes(s);
    let rest = seq![0u16] + tail;
    assert(w.skip(front.len() as int) =~= encoded(s) + rest);
    nul_ends_a_text(encoded(s), rest);
}

proof fn lemma_class(front: Seq<u16>, class: Seq<u16>, tail: Seq<u16>)
    requires
        is_class(class),
    ensures
        class_at(front + class + tail, front.len() as int) == class,
{
    let w = front + class + tail;
    let at = front.len() as int;
    assert(w[at] == class[0]);
    if class[0] == 0xFFFF {
        assert(w.subrange(at, at + 2) =~= class);
    } else {
        let name = class.drop_last();
        let rest = seq![0u16] + tail;
        assert forall|i: int| 0 <= i < name.len() implies #[trigger] name[i] != 0 by {
            assert(class[i] != 0);
        }
        assert(w.skip(at) =~= name + rest);
        nul_ends_a_text(name, rest);
        assert(name.push(0) =~= class);
    }
}

/// A control reads back: its style as a visible child, its rectangle, id, class and text, no help
/// id, no extended style, and no creation data behind it.
pub proof fn control_reads_back(c: Control, tail: Seq<u16>)
    requires
        is_class(c.class),
        has_no_nul(c.text),
    ensures
        ({
            let w = control_words(c) + tail;
            let end = 12 + c.class.len() as int + encoded(c.text).len() + 1;
            &&& dword_at(w, 0) == 0 && dword_at(w, 2) == 0
            &&& dword_at(w, 4) == c.style | WS_CHILD | WS_VISIBLE
            &&& w[6] as i16 == c.rect.0 && w[7] as i16 == c.rect.1
            &&& w[8] as i16 == c.rect.2 && w[9] as i16 == c.rect.3
            &&& dword_at(w, 10) as u32 as i32 == c.id
            &&& class_at(w, 12) == c.class
            &&& text_at(w, 12 + c.class.len() as int) == c.text
            &&& control_words(c).len() == end + 1 && w[end] == 0
        }),
{
    let style = c.style | WS_CHILD | WS_VISIBLE;
    let id = c.id as u32;
    lemma_dword(0);
    lemma_dword(style);
    lemma_dword(id);
    let r = c.rect;
    let (x, y, cx, cy) = (r.0, r.1, r.2, r.3);
    assert((x as u16) as i16 == x && (y as u16) as i16 == y && (cx as u16) as i16 == cx && (
    cy as u16) as i16 == cy) by (bit_vector);
    let i = c.id;
    assert((i as u32) as i32 == i) by (bit_vector);
    let front = dword(0) + dword(0) + dword(style) + seq![
        x as u16,
        y as u16,
        cx as u16,
        cy as u16,
    ] + dword(id);
    assert(front.len() == 12);
    let w = control_words(c) + tail;
    let more = sz(c.text) + seq![0u16] + tail;
    assert(w =~= front + c.class + more);
    lemma_class(front, c.class, more);
    let deep = front + c.class;
    let last = seq![0u16] + tail;
    assert(w =~= deep + sz(c.text) + last);
    lemma_text(deep, c.text, last);
    assert(w[0] == dword(0)[0] && w[1] == dword(0)[1] && w[2] == dword(0)[0] && w[3] == dword(0)[1]);
    assert(w[4] == dword(style)[0] && w[5] == dword(style)[1]);
    assert(w[10] == dword(id)[0] && w[11] == dword(id)[1]);
}

/// A header reads back: version and mark, the extended style, the style with a font, no controls
/// yet, a size, no menu and no class of its own, and the title.
pub proof fn header_reads_back(
    title: Seq<char>,
    w: i16,
    h: i16,
    style: u32,
    ex_style: u32,
    tail: Seq<u16>,
)
    requires
        has_no_nul(title),
    ensures
        ({
            let u = header_words(title, w, h, style, ex_style) + tail;
            &&& u[0] == 1 && u[1] == 0xFFFF
            &&& dword_at(u, 2) == 0 && dword_at(u, 4) == ex_style
            &&& dword_at(u, 6) == style | DS_SETFONT
            &&& u[8] == 0
            &&& u[9] == 0 && u[10] == 0 && u[11] as i16 == w && u[12] as i16 == h
            &&& u[13] == 0 && u[14] == 0
            &&& text_at(u, 15) == title
            &&& u[15 + encoded(title).len() as int + 1] == 9
            &&& text_at(u, 15 + encoded(title).len() as int + 4) == "Segoe UI"@
        }),
{
    lemma_dword(0);
    lemma_dword(ex_style);
    let s = style | DS_SETFONT;
    lemma_dword(s);
    assert((w as u16) as i16 == w && (h as u16) as i16 == h) by (bit_vector);
    let u = header_words(title, w, h, style, ex_style) + tail;
    let front = seq![1u16, 0xFFFFu16] + dword(0) + dword(ex_style) + dword(s) + seq![
        0u16,
        0u16,
        0u16,
        w as u16,
        h as u16,
        0u16,
        0u16,
    ];
    assert(front.len() == 15);
    let at = 15 + sz(title).len() as int;
    let font = u.subrange(at, at + 3);
    let face = sz("Segoe UI"@);
    let more = font + face + tail;
    assert(u =~= front + sz(title) + more);
    lemma_text(front, title, more);
    let deep = front + sz(title) + font;
    assert(u =~= deep + face + tail);
    reveal_strlit("Segoe UI");
    assert(has_no_nul("Segoe UI"@));
    lemma_text(deep, "Segoe UI"@, tail);
    assert(u[2] == dword(0)[0] && u[3] == dword(0)[1]);
    assert(u[4] == dword(ex_style)[0] && u[5] == dword(ex_style)[1]);
    assert(u[6] == dword(s)[0] && u[7] == dword(s)[1]);
}

} // verus!
