//! Laws of the settings dialog's layout: where its controls stand, and how they can be reached.
use vstd::prelude::*;
use vstd::string::*;

use crate::utf16::{encoded, units};
use crate::win32::{
    BS_DEFPUSHBUTTON, BS_GROUPBOX, BS_PUSHBUTTON, ES_NUMBER, SS_LEFT, UDS_AUTOBUDDY,
    UDS_SETBUDDYINT, WS_GROUP, WS_TABSTOP,
};

use super::{
    button_class, edit_class, settings_controls, spin_class, static_class, Control, FIELD, SPIN,
};

verus! {

/// The right and the lower edge of a control.
pub open spec fn right(c: Control) -> int {
    c.rect.0 + c.rect.2
}

pub open spec fn bottom(c: Control) -> int {
    c.rect.1 + c.rect.3
}

/// Every control lies in the dialog of 240 by 120 units, with a margin of 7 units on every side.
pub proof fn controls_lie_inside(i: int)
    requires
        0 <= i < settings_controls().len(),
    ensures
        ({
            let c = settings_controls()[i];
            &&& 7 <= c.rect.0 && right(c) <= 240 - 7
            &&& 7 <= c.rect.1 && bottom(c) <= 120 - 7
            &&& c.rect.2 > 0 && c.rect.3 > 0
        }),
{
    assert(settings_controls().len() == 13);
}

/// Each field stands in a row with its label, its spinner and its percent sign: the label to the
/// left of it and 3 units lower, so that the baselines meet, the spinner at its right edge and of
/// its height, the sign behind it.
pub proof fn fields_stand_in_rows(i: int)
    requires
        0 <= i < settings_controls().len(),
        settings_controls()[i].class == edit_class(),
    ensures
        ({
            let c = settings_controls();
            &&& 0 < i && i + 2 < c.len()
            &&& c[i].rect.3 == 14
            &&& right(c[i - 1]) <= c[i].rect.0 && c[i - 1].rect.1 == c[i].rect.1 + 3
            &&& c[i + 1].rect.0 == right(c[i]) && c[i + 1].rect.1 == c[i].rect.1 && c[i + 1].rect.3
                == c[i].rect.3
            &&& c[i + 2].text == "%"@ && right(c[i]) <= c[i + 2].rect.0 && c[i + 2].rect.1
                == c[i].rect.1 + 3
        }),
{
    lemma_classes();
    assert(settings_controls().len() == 13);
}

proof fn lemma_classes()
    ensures
        static_class() != edit_class(),
        button_class() != edit_class(),
        spin_class() != edit_class(),
        static_class() != button_class(),
        spin_class() != button_class(),
        spin_class() != static_class(),
{
    assert(static_class()[1] != edit_class()[1]);
    assert(button_class()[1] != edit_class()[1]);
    assert(static_class()[1] != button_class()[1]);
    reveal_strlit("msctls_updown32");
    let s = "msctls_updown32"@;
    assert(encoded(s) == units(s[0]) + encoded(s.skip(1)));
    assert(spin_class()[0] == 'm' as u16);
}

/// The rows of the two fields do not overlap, nor do they with the buttons, which stand in one row
/// below them, from left to right and apart from each other.
pub proof fn rows_do_not_overlap(i: int, j: int)
    requires
        0 <= i < j < settings_controls().len(),
    ensures
        ({
            let c = settings_controls();
            let is_button = |k: int| c[k].class == button_class() && c[k].style != BS_GROUPBOX;
            &&& c[i].class == edit_class() && c[j].class == edit_class() ==> bottom(c[i])
                <= c[j].rect.1
            &&& c[i].class == edit_class() && is_button(j) ==> bottom(c[i]) <= c[j].rect.1
            &&& is_button(i) && is_button(j) ==> c[i].rect.1 == c[j].rect.1 && c[i].rect.3
                == c[j].rect.3 == 14 && right(c[i]) <= c[j].rect.0
            &&& !(is_button(i) && c[j].class == edit_class())
        }),
{
    lemma_classes();
    lemma_styles();
    assert(settings_controls().len() == 13);
}

proof fn lemma_styles()
    ensures
        BS_PUSHBUTTON | WS_TABSTOP | WS_GROUP != BS_GROUPBOX,
        BS_DEFPUSHBUTTON | WS_TABSTOP != BS_GROUPBOX,
        BS_PUSHBUTTON | WS_TABSTOP != BS_GROUPBOX,
        (BS_PUSHBUTTON | WS_TABSTOP | WS_GROUP) & WS_TABSTOP != 0,
        (BS_DEFPUSHBUTTON | WS_TABSTOP) & WS_TABSTOP != 0,
        (BS_PUSHBUTTON | WS_TABSTOP) & WS_TABSTOP != 0,
        (BS_PUSHBUTTON | WS_TABSTOP | WS_GROUP) & 15 == BS_PUSHBUTTON,
        (BS_DEFPUSHBUTTON | WS_TABSTOP) & 15 == BS_DEFPUSHBUTTON,
        (BS_PUSHBUTTON | WS_TABSTOP) & 15 == BS_PUSHBUTTON,
        BS_GROUPBOX & WS_TABSTOP == 0 && BS_GROUPBOX & 15 == 7,
        FIELD & WS_TABSTOP != 0 && FIELD & ES_NUMBER != 0,
        SPIN & WS_TABSTOP == 0 && SPIN & UDS_AUTOBUDDY != 0 && SPIN & UDS_SETBUDDYINT != 0,
        (SS_LEFT | WS_GROUP) & WS_TABSTOP == 0 && SS_LEFT & WS_TABSTOP == 0,
{
    assert(BS_PUSHBUTTON | WS_TABSTOP | WS_GROUP != BS_GROUPBOX && BS_DEFPUSHBUTTON | WS_TABSTOP
        != BS_GROUPBOX && BS_PUSHBUTTON | WS_TABSTOP != BS_GROUPBOX && (BS_PUSHBUTTON | WS_TABSTOP
        | WS_GROUP) & WS_TABSTOP != 0 && (BS_DEFPUSHBUTTON | WS_TABSTOP) & WS_TABSTOP != 0 && (
    BS_PUSHBUTTON | WS_TABSTOP) & WS_TABSTOP != 0 && (BS_PUSHBUTTON | WS_TABSTOP | WS_GROUP) & 15
        == BS_PUSHBUTTON && (BS_DEFPUSHBUTTON | WS_TABSTOP) & 15 == BS_DEFPUSHBUTTON && (
    BS_PUSHBUTTON | WS_TABSTOP) & 15 == BS_PUSHBUTTON && BS_GROUPBOX & WS_TABSTOP == 0
        && BS_GROUPBOX & 15 == 7 && FIELD & WS_TABSTOP != 0 && FIELD & ES_NUMBER != 0 && SPIN
        & WS_TABSTOP == 0 && SPIN & UDS_AUTOBUDDY != 0 && SPIN & UDS_SETBUDDYINT != 0 && (SS_LEFT
        | WS_GROUP) & WS_TABSTOP == 0 && SS_LEFT & WS_TABSTOP == 0) by (bit_vector);
}

/// The tab key reaches exactly the fields and the buttons. Fields take digits only, spinners attach
/// to the field before them and show their position there, and Enter presses the button called
/// OK.
pub proof fn fields_and_buttons_can_be_reached(i: int)
    requires
        0 <= i < settings_controls().len(),
    ensures
        ({
            let c = settings_controls()[i];
            let is_button = c.class == button_class() && c.style != BS_GROUPBOX;
            &&& c.style & WS_TABSTOP != 0 <==> is_button || c.class == edit_class()
            &&& c.class == edit_class() ==> c.style & ES_NUMBER != 0
            &&& c.class == spin_class() ==> c.style & UDS_AUTOBUDDY != 0 && c.style
                & UDS_SETBUDDYINT != 0
            &&& is_button ==> (c.style & 15 == BS_DEFPUSHBUTTON <==> c.text == "OK"@)
        }),
{
    lemma_classes();
    lemma_styles();
    reveal_strlit("OK");
    reveal_strlit("Cancel");
    reveal_strlit("Restore &defaults");
    assert("OK"@.len() == 2 && "Cancel"@.len() == 6 && "Restore &defaults"@.len() == 17);
    assert(settings_controls().len() == 13);
}

} // verus!
