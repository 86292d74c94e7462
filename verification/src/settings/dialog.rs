//! Laws of the settings dialog: what its fields show, what is read from them, and what its buttons
//! do.
use vstd::prelude::*;
use vstd::string::*;

use crate::template::{
    button_class, edit_class, settings_controls, spin_class, static_class, Control,
};
use crate::utf16::{encoded, units};
use crate::win32::{IDCANCEL, IDOK, WM_COMMAND, WM_INITDIALOG};

use super::{
    accepted, asked_of, closed_by, fields_hold, shown, Dialog, Settings, IDC_DEFAULTS, IDC_HIGH,
    IDC_HIGH_SPIN, IDC_STATIC, IDC_WARN, IDC_WARN_SPIN, ORDER_MSG, RANGE_MSG,
};

verus! {

/// The labels of the two fields.
pub open spec fn orange_label() -> Seq<char> {
    "&Orange from:"@
}

pub open spec fn red_label() -> Seq<char> {
    "&Red above:"@
}

/// Control `i` is the label with this text.
pub open spec fn is_label(controls: Seq<Control>, i: int, text: Seq<char>) -> bool {
    0 <= i < controls.len() && controls[i].class == static_class() && controls[i].text == text
}

/// Control `i` is a number field, and the control behind it its spinner, which shows its position
/// in the field just before it.
pub open spec fn is_field(controls: Seq<Control>, i: int) -> bool {
    0 <= i && i + 1 < controls.len() && controls[i].class == edit_class() && controls[i + 1].class
        == spin_class()
}

/// Control `i` is the field that belongs to the label with this text: the one just behind it.
pub open spec fn is_field_for(controls: Seq<Control>, i: int, text: Seq<char>) -> bool {
    is_label(controls, i - 1, text) && is_field(controls, i)
}

/// What the fields show once spinners were set to these positions: each position stands in the
/// field just before the spinner.
pub open spec fn fields_show(
    controls: Seq<Control>,
    positions: Seq<(i32, u32)>,
    fields: Map<i32, u32>,
) -> bool {
    forall|i: int, k: int|
        0 <= k < positions.len() && #[trigger] is_field(controls, i) && controls[i + 1].id == (
        #[trigger] positions[k]).0 ==> fields.dom().contains(controls[i].id)
            && fields[controls[i].id] == positions[k].1
}

/// The words of the classes differ.
proof fn lemma_classes()
    ensures
        static_class() != edit_class(),
        static_class() != button_class(),
        edit_class() != button_class(),
        spin_class() != static_class(),
        spin_class() != edit_class(),
        spin_class() != button_class(),
{
    assert(static_class()[1] != edit_class()[1]);
    assert(static_class()[1] != button_class()[1]);
    assert(edit_class()[1] != button_class()[1]);
    reveal_strlit("msctls_updown32");
    let s = "msctls_updown32"@;
    assert(s[0] == 'm');
    assert(encoded(s) == units(s[0]) + encoded(s.skip(1)));
    assert(spin_class()[0] == 'm' as u16);
}

/// The lengths of the texts.
proof fn lemma_lengths()
    ensures
        orange_label().len() == 13,
        red_label().len() == 11,
        ""@.len() == 0,
        "%"@.len() == 1,
        "OK"@.len() == 2,
        "Cancel"@.len() == 6,
        "Restore &defaults"@.len() == 17,
        "Icon colour"@.len() == 11,
{
    reveal_strlit("&Orange from:");
    reveal_strlit("&Red above:");
    reveal_strlit("");
    reveal_strlit("%");
    reveal_strlit("OK");
    reveal_strlit("Cancel");
    reveal_strlit("Restore &defaults");
    reveal_strlit("Icon colour");
}

proof fn lemma_help_text()
    ensures
        "Load is WSL2's share of the whole machine: CPU or memory, whichever is higher. The icon is green below the orange value and grey while WSL2 is off."@.len()
            > 100,
{
    reveal_strlit(
        "Load is WSL2's share of the whole machine: CPU or memory, whichever is higher. The icon is green below the orange value and grey while WSL2 is off.",
    );
}

/// Behind the label "&Orange from:" stands the field of the orange threshold with its spinner, and
/// behind "&Red above:" that of the red one; there are no other fields, and no other spinners.
pub proof fn labels_stand_before_their_fields(i: int)
    ensures
        ({
            let c = settings_controls();
            &&& exists|k: int| #[trigger] is_field_for(c, k, orange_label())
            &&& exists|k: int| #[trigger] is_field_for(c, k, red_label())
            &&& is_label(c, i, orange_label()) ==> is_field(c, i + 1) && c[i + 1].id == IDC_WARN
                && c[i + 2].id == IDC_WARN_SPIN
            &&& is_label(c, i, red_label()) ==> is_field(c, i + 1) && c[i + 1].id == IDC_HIGH
                && c[i + 2].id == IDC_HIGH_SPIN
            &&& 0 <= i < c.len() && c[i].class == edit_class() ==> is_field_for(
                c,
                i,
                orange_label(),
            ) || is_field_for(c, i, red_label())
            &&& 0 <= i < c.len() && c[i].class == spin_class() ==> is_field(c, i - 1)
        }),
{
    lemma_classes();
    lemma_lengths();
    lemma_help_text();
    let c = settings_controls();
    assert(c.len() == 13);
    assert(is_field_for(c, 2, orange_label()));
    assert(is_field_for(c, 6, red_label()));
}

/// What is shown is read: if the fields show valid settings, confirming the dialog gives back
/// exactly those, and the user sees the orange threshold behind its label and the red one behind
/// its own.
pub proof fn shown_settings_read_back(s: Settings, fields: Map<i32, u32>, i: int)
    requires
        s.valid(),
        fields_show(settings_controls(), shown(s), fields),
    ensures
        fields.dom().contains(IDC_WARN),
        fields.dom().contains(IDC_HIGH),
        fields_hold(Some(fields[IDC_WARN]), Some(fields[IDC_HIGH])) == Ok::<
            Settings,
            (i32, Seq<char>),
        >(s),
        is_field_for(settings_controls(), i, orange_label()) ==> fields[settings_controls()[i].id]
            == s.warn,
        is_field_for(settings_controls(), i, red_label()) ==> fields[settings_controls()[i].id]
            == s.high,
{
    let c = settings_controls();
    labels_stand_before_their_fields(i - 1);
    labels_stand_before_their_fields(1);
    labels_stand_before_their_fields(5);
    lemma_classes();
    assert(c.len() == 13);
    assert(is_field(c, 2));
    assert(is_field(c, 6));
    assert(shown(s)[0] == (IDC_WARN_SPIN, s.warn));
    assert(shown(s)[1] == (IDC_HIGH_SPIN, s.high));
}

/// Numbers typed into the fields are the thresholds behind whose labels they stand, exactly if
/// both are percentages and orange does not start above red.
pub proof fn typed_numbers_are_the_thresholds(
    orange: int,
    red: int,
    fields: Map<i32, Option<u32>>,
)
    requires
        is_field_for(settings_controls(), orange, orange_label()),
        is_field_for(settings_controls(), red, red_label()),
    ensures
        ({
            let c = settings_controls();
            let w = fields[c[orange].id];
            let h = fields[c[red].id];
            match fields_hold(fields[IDC_WARN], fields[IDC_HIGH]) {
                Ok(s) => w == Some(s.warn) && h == Some(s.high) && s.warn <= s.high <= 100,
                Err((id, why)) => {
                    let bad_warn = w is None || w->0 > 100;
                    let bad_high = h is None || h->0 > 100;
                    &&& bad_warn || bad_high || w->0 > h->0
                    &&& why == RANGE_MSG@ <==> bad_warn || bad_high
                    &&& why == ORDER_MSG@ <==> !bad_warn && !bad_high
                    &&& id == c[orange].id || id == c[red].id
                    &&& id == c[red].id <==> !bad_warn && bad_high
                },
            }
        }),
{
    labels_stand_before_their_fields(orange - 1);
    labels_stand_before_their_fields(red - 1);
    reveal_strlit("Enter a whole number between 0 and 100.");
    reveal_strlit("The orange threshold cannot be higher than the red one.");
    assert(RANGE_MSG@.len() != ORDER_MSG@.len());
}

/// The dialog accepts what the registry may hold, and refuses the rest with the same words.
pub proof fn dialog_and_registry_agree(warn: u32, high: u32)
    ensures
        match (fields_hold(Some(warn), Some(high)), accepted(warn, high)) {
            (Ok(s), Ok(t)) => s == t,
            (Err((_, why)), Err(what)) => why == what,
            _ => false,
        },
        accepted(warn, high) is Ok <==> warn <= high <= 100,
        accepted(warn, high) matches Ok(s) ==> s.warn == warn && s.high == high && s.valid(),
{
}

/// The buttons do what they say: the one called OK confirms, the one called Cancel closes without
/// a change, the one called "Restore &defaults" restores, and nothing else in the dialog does any
/// of that.
pub proof fn buttons_do_what_they_say(i: int)
    requires
        0 <= i < settings_controls().len(),
    ensures
        ({
            let c = settings_controls()[i];
            let d = asked_of(WM_COMMAND, c.id as int % 0x1_0000);
            &&& d == Dialog::Confirm <==> c.text == "OK"@
            &&& d == Dialog::Cancel <==> c.text == "Cancel"@
            &&& d == Dialog::Restore <==> c.text == "Restore &defaults"@
            &&& d != Dialog::Fill
            &&& d != Dialog::Ignore ==> c.class == button_class()
            &&& closed_by(c.id) == Some(true) <==> d == Dialog::Confirm
            &&& closed_by(c.id) == Some(false) <==> d == Dialog::Cancel
        }),
{
    lemma_lengths();
    lemma_help_text();
    let c = settings_controls();
    let texts = Seq::new(c.len(), |k: int| c[k].text.len());
    assert(c.len() == 13);
    assert(texts[i] == 2 <==> i == 11);
    assert(texts[i] == 6 <==> i == 12);
    assert(texts[i] == 17 <==> i == 10);
}

/// The dialog has each of the three buttons once.
pub proof fn every_button_is_there()
    ensures
        exists|i: int|
            0 <= i < settings_controls().len() && (#[trigger] settings_controls()[i]).text
                == "OK"@,
        exists|i: int|
            0 <= i < settings_controls().len() && (#[trigger] settings_controls()[i]).text
                == "Cancel"@,
        exists|i: int|
            0 <= i < settings_controls().len() && (#[trigger] settings_controls()[i]).text
                == "Restore &defaults"@,
        forall|i: int, j: int|
            0 <= i < j < settings_controls().len() && (#[trigger] settings_controls()[i]).id
                != IDC_STATIC ==> (#[trigger] settings_controls()[j]).id
                != settings_controls()[i].id,
{
    let c = settings_controls();
    assert(c[11].text == "OK"@);
    assert(c[12].text == "Cancel"@);
    assert(c[10].text == "Restore &defaults"@);
    assert(c.len() == 13);
}

/// The fields are filled when the dialog opens and at no other time, and a message that is no
/// command of a button does nothing, whatever the id is.
pub proof fn only_buttons_and_opening_count(msg: u32, id: int)
    ensures
        asked_of(msg, id) == Dialog::Fill <==> msg == WM_INITDIALOG,
        asked_of(msg, id) == Dialog::Confirm ==> msg == WM_COMMAND && id == IDOK,
        asked_of(msg, id) == Dialog::Cancel ==> msg == WM_COMMAND && id == IDCANCEL,
        asked_of(msg, id) == Dialog::Restore ==> msg == WM_COMMAND && id == IDC_DEFAULTS,
        msg != WM_INITDIALOG && msg != WM_COMMAND ==> asked_of(msg, id) == Dialog::Ignore,
{
}

} // verus!
