//! The settings dialog as a `DLGTEMPLATEEX` in memory: a header followed by one entry per control,
//! everything in 16-bit words, entries aligned to 32 bits.
use vstd::prelude::*;
use vstd::slice::*;
use vstd::string::*;

use crate::settings::{
    IDC_DEFAULTS, IDC_HIGH, IDC_HIGH_SPIN, IDC_STATIC, IDC_WARN, IDC_WARN_SPIN,
};
use crate::utf16::{encoded, push_utf16, wide};
use crate::win32::{
    BS_DEFPUSHBUTTON, BS_GROUPBOX, BS_PUSHBUTTON, DEFAULT_CHARSET, DS_CENTER, DS_SETFONT,
    ES_AUTOHSCROLL, ES_NUMBER, FW_NORMAL, IDCANCEL, IDOK, SS_LEFT, UDS_ALIGNRIGHT, UDS_ARROWKEYS,
    UDS_AUTOBUDDY, UDS_SETBUDDYINT, WS_BORDER, WS_CAPTION, WS_CHILD, WS_EX_APPWINDOW, WS_GROUP,
    WS_POPUP, WS_SYSMENU, WS_TABSTOP, WS_VISIBLE,
};

pub mod layout;
pub mod reading;

verus! {

/// The two words of `v`, low word first.
pub open spec fn dword(v: u32) -> Seq<u16> {
    seq![(v % 0x1_0000) as u16, (v / 0x1_0000) as u16]
}

/// A NUL-terminated UTF-16 string.
pub open spec fn sz(s: Seq<char>) -> Seq<u16> {
    encoded(s).push(0)
}

/// A control of a dialog: window class, style, rectangle (x, y, width, height in dialog units), id
/// and text.
pub struct Control {
    pub class: Seq<u16>,
    pub style: u32,
    pub rect: (i16, i16, i16, i16),
    pub id: i32,
    pub text: Seq<char>,
}

/// The header: no menu, the default dialog class, Segoe UI 9 pt, no controls yet.
pub open spec fn header_words(title: Seq<char>, w: i16, h: i16, style: u32, ex_style: u32) -> Seq<
    u16,
> {
    seq![1u16, 0xFFFFu16] + dword(0) + dword(ex_style) + dword(style | DS_SETFONT) + seq![
        0u16,
        0u16,
        0u16,
        w as u16,
        h as u16,
        0u16,
        0u16,
    ] + sz(title) + seq![9u16, FW_NORMAL as u16, (256 * DEFAULT_CHARSET) as u16] + sz("Segoe UI"@)
}

/// One control: no help id, no extended style, no creation data.
pub open spec fn control_words(c: Control) -> Seq<u16> {
    dword(0) + dword(0) + dword(c.style | WS_CHILD | WS_VISIBLE) + seq![
        c.rect.0 as u16,
        c.rect.1 as u16,
        c.rect.2 as u16,
        c.rect.3 as u16,
    ] + dword(c.id as u32) + c.class + sz(c.text) + seq![0u16]
}

/// Padded to a whole number of 32-bit units.
pub open spec fn aligned(buf: Seq<u16>) -> Seq<u16> {
    if buf.len() % 2 == 1 {
        buf.push(0)
    } else {
        buf
    }
}

/// The header and the controls, each starting on a 32-bit boundary.
pub open spec fn with_controls(head: Seq<u16>, controls: Seq<Control>) -> Seq<u16>
    decreases controls.len(),
{
    if controls.len() == 0 {
        head
    } else {
        aligned(with_controls(head, controls.drop_last())) + control_words(controls.last())
    }
}

/// Pairs of words as 32-bit units, the first word low.
pub open spec fn packed(buf: Seq<u16>) -> Seq<u32> {
    Seq::new(buf.len() / 2, |i: int| (buf[2 * i] + 0x1_0000 * buf[2 * i + 1]) as u32)
}

/// Where the number of controls is kept in the header.
pub const COUNT_WORD: usize = 8;

/// The finished template: the number of controls filled in, in 32-bit units.
pub open spec fn finished(buf: Seq<u16>, count: u16) -> Seq<u32> {
    packed(aligned(buf.update(COUNT_WORD as int, count)))
}

/// Builder for an in-memory dialog template.
pub struct Template {
    pub buf: Vec<u16>,
    pub items: u16,
}

/// Appends a 32-bit value.
pub fn push_u32(buf: &mut Vec<u16>, v: u32)
    ensures
        final(buf)@ == old(buf)@ + dword(v),
{
    buf.push((v % 0x1_0000) as u16);
    buf.push((v / 0x1_0000) as u16);
    assert(buf@ =~= old(buf)@ + dword(v));
}

/// Appends a NUL-terminated UTF-16 string.
pub fn push_str(buf: &mut Vec<u16>, s: &str)
    ensures
        final(buf)@ == old(buf)@ + sz(s@),
{
    push_utf16(buf, s);
    buf.push(0);
    assert(buf@ =~= old(buf)@ + sz(s@));
}

/// Pads to a whole number of 32-bit units.
fn align(buf: &mut Vec<u16>)
    ensures
        final(buf)@ == aligned(old(buf)@),
{
    if buf.len() % 2 == 1 {
        buf.push(0);
    }
}

/// Appends words.
fn push_words(buf: &mut Vec<u16>, words: &[u16])
    ensures
        final(buf)@ == old(buf)@ + words@,
{
    buf.extend_from_slice(words);
    assert(buf@ =~= old(buf)@ + words@);
}

impl Template {
    /// The header is complete, so the number of controls has its place.
    pub open spec fn wf(self) -> bool {
        COUNT_WORD < self.buf@.len()
    }

    /// The template holds this header and these controls.
    pub open spec fn holds(self, head: Seq<u16>, controls: Seq<Control>) -> bool {
        self.buf@ == with_controls(head, controls) && self.items == controls.len()
    }

    /// The header.
    pub fn new(title: &str, size: (i16, i16), style: u32, ex_style: u32) -> (t: Template)
        ensures
            t.wf(),
            t.items == 0,
            t.buf@ == header_words(title@, size.0, size.1, style, ex_style),
    {
        let mut buf: Vec<u16> = Vec::new();
        push_words(&mut buf, [1u16, 0xFFFF].as_slice());
        push_u32(&mut buf, 0);
        push_u32(&mut buf, ex_style);
        push_u32(&mut buf, style | DS_SETFONT);
        push_words(
            &mut buf,
            [0u16, 0, 0, size.0 as u16, size.1 as u16, 0, 0].as_slice(),
        );
        push_str(&mut buf, title);
        push_words(&mut buf, [9u16, FW_NORMAL as u16, 256 * (DEFAULT_CHARSET as u16)].as_slice());
        push_str(&mut buf, "Segoe UI");
        assert(buf@ =~= header_words(title@, size.0, size.1, style, ex_style));
        Template { buf, items: 0 }
    }

    /// Appends a control. `WS_CHILD | WS_VISIBLE` are added to `style`.
    pub fn item(
        &mut self,
        class: &[u16],
        style: u32,
        rect: (i16, i16, i16, i16),
        id: i32,
        text: &str,
    )
        requires
            old(self).wf(),
            old(self).items < 0xFFFF,
        ensures
            final(self).wf(),
            final(self).items == old(self).items + 1,
            final(self).buf@ == aligned(old(self).buf@) + control_words(
                Control { class: class@, style, rect, id, text: text@ },
            ),
            forall|head: Seq<u16>, controls: Seq<Control>| #[trigger]
                old(self).holds(head, controls) ==> final(self).holds(
                    head,
                    controls.push(Control { class: class@, style, rect, id, text: text@ }),
                ),
    {
        align(&mut self.buf);
        let ghost start = self.buf@;
        push_u32(&mut self.buf, 0);
        push_u32(&mut self.buf, 0);
        push_u32(&mut self.buf, style | WS_CHILD | WS_VISIBLE);
        push_words(
            &mut self.buf,
            [rect.0 as u16, rect.1 as u16, rect.2 as u16, rect.3 as u16].as_slice(),
        );
        push_u32(&mut self.buf, id as u32);
        push_words(&mut self.buf, class);
        push_str(&mut self.buf, text);
        self.buf.push(0);
        self.items = self.items + 1;
        let ghost c = Control { class: class@, style, rect, id, text: text@ };
        assert(self.buf@ =~= start + control_words(c));
        proof {
            assert forall|head: Seq<u16>, controls: Seq<Control>| #[trigger]
                old(self).holds(head, controls) implies self.holds(head, controls.push(c)) by {
                assert(controls.push(c).drop_last() =~= controls);
            }
        }
    }

    /// Fills in the number of controls and returns the template as 32-bit aligned memory.
    pub fn finish(self) -> (r: Vec<u32>)
        requires
            self.wf(),
        ensures
            r@ == finished(self.buf@, self.items),
    {
        let mut buf: Vec<u16> = self.buf;
        buf[COUNT_WORD] = self.items;
        align(&mut buf);
        let mut r: Vec<u32> = Vec::new();
        let mut i: usize = 0;
        while i + 1 < buf.len()
            invariant
                i <= buf@.len(),
                i == 2 * r@.len(),
                buf@.len() % 2 == 0,
                r@ == packed(buf@).take(r@.len() as int),
            decreases buf@.len() - i,
        {
            r.push(buf[i] as u32 + 0x1_0000 * (buf[i + 1] as u32));
            i += 2;
            assert(r@ =~= packed(buf@).take(r@.len() as int));
        }
        assert(r@ =~= packed(buf@));
        r
    }
}

/// Predefined window classes by their ordinal.
pub open spec fn button_class() -> Seq<u16> {
    seq![0xFFFFu16, 0x0080u16]
}

pub open spec fn edit_class() -> Seq<u16> {
    seq![0xFFFFu16, 0x0081u16]
}

pub open spec fn static_class() -> Seq<u16> {
    seq![0xFFFFu16, 0x0082u16]
}

/// The up-down control's class, which goes by name.
pub open spec fn spin_class() -> Seq<u16> {
    sz("msctls_updown32"@)
}

/// Style of the number fields.
pub const FIELD: u32 = WS_BORDER | WS_TABSTOP | ES_AUTOHSCROLL | ES_NUMBER;

/// Style of the spinners: each attaches to the field before it.
pub const SPIN: u32 = UDS_SETBUDDYINT | UDS_ALIGNRIGHT | UDS_AUTOBUDDY | UDS_ARROWKEYS;

/// Style of the dialog window.
pub const DIALOG: u32 = WS_POPUP | WS_CAPTION | WS_SYSMENU | DS_CENTER;

/// The controls of the settings dialog, in tab order, laid out in dialog units: 240 x 120 with
/// 7-unit margins, 14-unit fields and buttons, labels 3 units below the top of their field so the
/// baselines meet. Each label's mnemonic activates the field after it.
pub open spec fn settings_controls() -> Seq<Control> {
    seq![
        Control {
            class: button_class(),
            style: BS_GROUPBOX,
            rect: (7, 7, 226, 85),
            id: IDC_STATIC,
            text: "Icon colour"@,
        },
        Control {
            class: static_class(),
            style: SS_LEFT | WS_GROUP,
            rect: (16, 22, 60, 8),
            id: IDC_STATIC,
            text: "&Orange from:"@,
        },
        Control {
            class: edit_class(),
            style: FIELD,
            rect: (80, 19, 36, 14),
            id: IDC_WARN,
            text: ""@,
        },
        Control {
            class: spin_class(),
            style: SPIN,
            rect: (116, 19, 11, 14),
            id: IDC_WARN_SPIN,
            text: ""@,
        },
        Control {
            class: static_class(),
            style: SS_LEFT,
            rect: (120, 22, 20, 8),
            id: IDC_STATIC,
            text: "%"@,
        },
        Control {
            class: static_class(),
            style: SS_LEFT | WS_GROUP,
            rect: (16, 40, 60, 8),
            id: IDC_STATIC,
            text: "&Red above:"@,
        },
        Control {
            class: edit_class(),
            style: FIELD,
            rect: (80, 37, 36, 14),
            id: IDC_HIGH,
            text: ""@,
        },
        Control {
            class: spin_class(),
            style: SPIN,
            rect: (116, 37, 11, 14),
            id: IDC_HIGH_SPIN,
            text: ""@,
        },
        Control {
            class: static_class(),
            style: SS_LEFT,
            rect: (120, 40, 20, 8),
            id: IDC_STATIC,
            text: "%"@,
        },
        Control {
            class: static_class(),
            style: SS_LEFT | WS_GROUP,
            rect: (16, 58, 208, 27),
            id: IDC_STATIC,
            text: "Load is WSL2's share of the whole machine: CPU or memory, whichever is higher. The icon is green below the orange value and grey while WSL2 is off."@,
        },
        Control {
            class: button_class(),
            style: BS_PUSHBUTTON | WS_TABSTOP | WS_GROUP,
            rect: (7, 99, 76, 14),
            id: IDC_DEFAULTS,
            text: "Restore &defaults"@,
        },
        Control {
            class: button_class(),
            style: BS_DEFPUSHBUTTON | WS_TABSTOP,
            rect: (129, 99, 50, 14),
            id: IDOK,
            text: "OK"@,
        },
        Control {
            class: button_class(),
            style: BS_PUSHBUTTON | WS_TABSTOP,
            rect: (183, 99, 50, 14),
            id: IDCANCEL,
            text: "Cancel"@,
        },
    ]
}

/// The header of the settings dialog.
pub open spec fn settings_header() -> Seq<u16> {
    header_words("WSL2 Tray Settings"@, 240, 120, DIALOG, WS_EX_APPWINDOW)
}

/// The settings dialog.
pub fn template() -> (r: Vec<u32>)
    ensures
        r@ == finished(
            with_controls(settings_header(), settings_controls()),
            settings_controls().len() as u16,
        ),
{
    let button: [u16; 2] = [0xFFFF, 0x0080];
    let edit: [u16; 2] = [0xFFFF, 0x0081];
    let label: [u16; 2] = [0xFFFF, 0x0082];
    let spin: Vec<u16> = wide("msctls_updown32");
    proof {
        assert(button@ =~= button_class());
        assert(edit@ =~= edit_class());
        assert(label@ =~= static_class());
    }
    let ghost head = settings_header();
    let ghost all = settings_controls();
    let mut t = Template::new("WSL2 Tray Settings", (240, 120), DIALOG, WS_EX_APPWINDOW);
    assert(all.take(0) =~= seq![]);
    assert(t.holds(head, all.take(0)));
    t.item(button.as_slice(), BS_GROUPBOX, (7, 7, 226, 85), IDC_STATIC, "Icon colour");
    assert(all.take(0).push(all[0]) =~= all.take(1));
    t.item(label.as_slice(), SS_LEFT | WS_GROUP, (16, 22, 60, 8), IDC_STATIC, "&Orange from:");
    assert(all.take(1).push(all[1]) =~= all.take(2));
    t.item(edit.as_slice(), FIELD, (80, 19, 36, 14), IDC_WARN, "");
    assert(all.take(2).push(all[2]) =~= all.take(3));
    t.item(spin.as_slice(), SPIN, (116, 19, 11, 14), IDC_WARN_SPIN, "");
    assert(all.take(3).push(all[3]) =~= all.take(4));
    t.item(label.as_slice(), SS_LEFT, (120, 22, 20, 8), IDC_STATIC, "%");
    assert(all.take(4).push(all[4]) =~= all.take(5));
    t.item(label.as_slice(), SS_LEFT | WS_GROUP, (16, 40, 60, 8), IDC_STATIC, "&Red above:");
    assert(all.take(5).push(all[5]) =~= all.take(6));
    t.item(edit.as_slice(), FIELD, (80, 37, 36, 14), IDC_HIGH, "");
    assert(all.take(6).push(all[6]) =~= all.take(7));
    t.item(spin.as_slice(), SPIN, (116, 37, 11, 14), IDC_HIGH_SPIN, "");
    assert(all.take(7).push(all[7]) =~= all.take(8));
    t.item(label.as_slice(), SS_LEFT, (120, 40, 20, 8), IDC_STATIC, "%");
    assert(all.take(8).push(all[8]) =~= all.take(9));
    t.item(
        label.as_slice(),
        SS_LEFT | WS_GROUP,
        (16, 58, 208, 27),
        IDC_STATIC,
        "Load is WSL2's share of the whole machine: CPU or memory, whichever is higher. The icon is green below the orange value and grey while WSL2 is off.",
    );
    assert(all.take(9).push(all[9]) =~= all.take(10));
    t.item(
        button.as_slice(),
        BS_PUSHBUTTON | WS_TABSTOP | WS_GROUP,
        (7, 99, 76, 14),
        IDC_DEFAULTS,
        "Restore &defaults",
    );
    assert(all.take(10).push(all[10]) =~= all.take(11));
    t.item(button.as_slice(), BS_DEFPUSHBUTTON | WS_TABSTOP, (129, 99, 50, 14), IDOK, "OK");
    assert(all.take(11).push(all[11]) =~= all.take(12));
    t.item(button.as_slice(), BS_PUSHBUTTON | WS_TABSTOP, (183, 99, 50, 14), IDCANCEL, "Cancel");
    assert(all.take(12).push(all[12]) =~= all);
    t.finish()
}

/// The words of a finished template, two per 32-bit unit.
pub open spec fn words_of(units: Seq<u32>) -> Seq<u16> {
    Seq::new(
        2 * units.len(),
        |i: int|
            if i % 2 == 0 {
                (units[i / 2] % 0x1_0000) as u16
            } else {
                (units[i / 2] / 0x1_0000) as u16
            },
    )
}

/// A finished template holds the words it was built from, with the number of controls in its
/// place and at most one word of padding behind them.
pub proof fn finished_template_keeps_words(buf: Seq<u16>, count: u16)
    requires
        COUNT_WORD < buf.len(),
    ensures
        words_of(finished(buf, count)) == aligned(buf.update(COUNT_WORD as int, count)),
        words_of(finished(buf, count))[COUNT_WORD as int] == count,
        words_of(finished(buf, count)).len() % 2 == 0,
{
    let full = aligned(buf.update(COUNT_WORD as int, count));
    let units = packed(full);
    assert forall|i: int| 0 <= i < full.len() implies words_of(units)[i] == full[i] by {
        let k = i / 2;
        assert(units[k] == full[2 * k] + 0x1_0000 * full[2 * k + 1]);
    }
    assert(words_of(units) =~= full);
}

/// Every control of a template stands in it whole, in order, from a 32-bit boundary on.
pub proof fn control_stands_aligned(head: Seq<u16>, controls: Seq<Control>, i: int)
    requires
        0 <= i < controls.len(),
    ensures
        ({
            let start = aligned(with_controls(head, controls.take(i))).len() as int;
            let end = start + control_words(controls[i]).len();
            &&& start % 2 == 0
            &&& end <= with_controls(head, controls).len()
            &&& with_controls(head, controls).subrange(start, end) == control_words(controls[i])
        }),
    decreases controls.len(),
{
    let start = aligned(with_controls(head, controls.take(i))).len() as int;
    let end = start + control_words(controls[i]).len();
    let all = with_controls(head, controls);
    let before = with_controls(head, controls.drop_last());
    if i == controls.len() - 1 {
        assert(controls.take(i) =~= controls.drop_last());
        assert(all.subrange(start, end) =~= control_words(controls[i]));
    } else {
        control_stands_aligned(head, controls.drop_last(), i);
        assert(controls.drop_last().take(i) =~= controls.take(i));
        assert(all.subrange(start, end) =~= before.subrange(start, end));
    }
}

/// Controls behind the header leave the header as it is.
pub proof fn header_stands_first(head: Seq<u16>, controls: Seq<Control>)
    ensures
        head.len() <= with_controls(head, controls).len(),
        with_controls(head, controls).take(head.len() as int) == head,
    decreases controls.len(),
{
    if controls.len() > 0 {
        header_stands_first(head, controls.drop_last());
        assert(with_controls(head, controls).take(head.len() as int) =~= with_controls(
            head,
            controls.drop_last(),
        ).take(head.len() as int));
    } else {
        assert(head.take(head.len() as int) =~= head);
    }
}

} // verus!
