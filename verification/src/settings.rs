//! User settings: the load percentages at which the tray icon changes colour, where they are
//! kept, and what the dialog that edits them decides.
use vstd::prelude::*;
use vstd::string::*;

use crate::registry::{create_result, key_error, key_message};
use crate::text::{numbered, numbered_text};
use crate::win32::{IDCANCEL, IDOK, WM_COMMAND, WM_INITDIALOG};

pub mod dialog;
pub mod storage;

verus! {

/// Registry key holding the settings, relative to `HKEY_CURRENT_USER`.
pub const KEY: &'static str = "Software\\IDCT\\wsl-tray";

/// Names of the number values under [`KEY`], percentages.
pub const WARN_VALUE: &'static str = "WarnThreshold";

pub const HIGH_VALUE: &'static str = "HighThreshold";

/// The highest threshold.
pub const MAX_PERCENT: u32 = 100;

/// Validation messages, shown by the dialog.
pub const RANGE_MSG: &'static str = "Enter a whole number between 0 and 100.";

pub const ORDER_MSG: &'static str = "The orange threshold cannot be higher than the red one.";

// Ids of the dialog's controls, beside the dialog manager's own for OK and Cancel.
pub const IDC_WARN: i32 = 100;

pub const IDC_WARN_SPIN: i32 = 101;

pub const IDC_HIGH: i32 = 102;

pub const IDC_HIGH_SPIN: i32 = 103;

pub const IDC_DEFAULTS: i32 = 104;

/// Id of the labels and the group box, which are never looked up.
pub const IDC_STATIC: i32 = -1;

/// The load percentages at which the icon changes colour.
#[derive(Clone, Copy, Debug, PartialEq, Eq, Structural)]
pub struct Settings {
    /// Orange from this load (percent) on.
    pub warn: u32,
    /// Red above this load (percent).
    pub high: u32,
}

impl Settings {
    /// Both are percentages and orange does not start above red.
    pub open spec fn valid(self) -> bool {
        self.warn <= self.high <= MAX_PERCENT
    }
}

impl Default for Settings {
    fn default() -> (s: Settings)
        ensures
            s == (Settings { warn: 50, high: 75 }),
            s.valid(),
    {
        Settings { warn: 50, high: 75 }
    }
}

/// What becomes of a pair of thresholds: the settings, or why they are not accepted.
pub open spec fn accepted(warn: u32, high: u32) -> Result<Settings, Seq<char>> {
    if warn > MAX_PERCENT || high > MAX_PERCENT {
        Err(RANGE_MSG@)
    } else if warn > high {
        Err(ORDER_MSG@)
    } else {
        Ok(Settings { warn, high })
    }
}

impl Settings {
    /// Accepts a pair if both are percentages and orange does not start above red. Equal values
    /// are allowed (orange only at exactly that load), so 100 for both all but switches the colour
    /// scale off.
    pub fn new(warn: u32, high: u32) -> (r: Result<Settings, &'static str>)
        ensures
            match r {
                Ok(s) => accepted(warn, high) == Ok::<Settings, Seq<char>>(s) && s.valid(),
                Err(why) => accepted(warn, high) == Err::<Settings, Seq<char>>(why@),
            },
    {
        if warn > MAX_PERCENT || high > MAX_PERCENT {
            return Err(RANGE_MSG);
        }
        if warn > high {
            return Err(ORDER_MSG);
        }
        Ok(Settings { warn, high })
    }
}

/// The settings that a pair of stored values stands for: the pair where both are there and valid,
/// or else the defaults.
pub open spec fn loaded(warn: Option<u32>, high: Option<u32>) -> Settings {
    match (warn, high) {
        (Some(warn), Some(high)) => if (Settings { warn, high }).valid() {
            Settings { warn, high }
        } else {
            Settings { warn: 50, high: 75 }
        },
        _ => Settings { warn: 50, high: 75 },
    }
}

/// What saving the settings does next.
#[derive(Debug)]
pub enum Save {
    /// Create the key if needed and open it.
    Create,
    /// Write this number value.
    Write(&'static str, u32),
    /// Finished.
    Done(Result<(), String>),
}

/// `step` is what saving `s` under `sub` does after the calls made so far returned `codes`.
pub open spec fn saves(s: Settings, sub: Seq<char>, codes: Seq<u32>, step: Save) -> bool {
    match step {
        Save::Create => codes.len() == 0,
        Save::Write(name, value) => {
            ||| codes == seq![0u32] && name@ == WARN_VALUE@ && value == s.warn
            ||| codes == seq![0u32, 0u32] && name@ == HIGH_VALUE@ && value == s.high
        },
        Save::Done(Ok(_)) => codes == seq![0u32, 0u32, 0u32],
        Save::Done(Err(e)) => {
            ||| codes.len() > 0 && codes[0] != 0 && e@ == key_message(
                "cannot create "@,
                sub,
                codes[0] as nat,
            )
            ||| codes.len() > 1 && codes[0] == 0 && codes[1] != 0 && e@ == key_message(
                "cannot write HKCU\\"@,
                sub,
                codes[1] as nat,
            )
            ||| codes.len() > 2 && codes[0] == 0 && codes[1] == 0 && codes[2] != 0
                && e@ == key_message("cannot write HKCU\\"@, sub, codes[2] as nat)
        },
    }
}

impl Settings {
    /// The stored settings, or the defaults if there are none or they do not pass
    /// [`Settings::new`]. `stored` is `None` where the key could not be opened; the values are
    /// `None` where they are absent or no numbers.
    pub fn load(stored: Option<(Option<u32>, Option<u32>)>) -> (s: Settings)
        ensures
            s == (match stored {
                Some((warn, high)) => loaded(warn, high),
                None => loaded(None, None),
            }),
            s.valid(),
    {
        match stored {
            Some((Some(warn), Some(high))) => match Settings::new(warn, high) {
                Ok(s) => s,
                Err(_) => Settings::default(),
            },
            _ => Settings::default(),
        }
    }

    /// Writes the settings under `sub`, creating the key if needed: what to do after the calls
    /// made so far returned `codes` (0 is success). The first failure ends it.
    pub fn save_to(&self, sub: &str, codes: &[u32]) -> (step: Save)
        requires
            codes@.len() <= 3,
        ensures
            saves(*self, sub@, codes@, step),
    {
        let n: usize = codes.len();
        if n == 0 {
            return Save::Create;
        }
        if let Err(e) = create_result(sub, codes[0]) {
            return Save::Done(Err(e));
        }
        if n == 1 {
            assert(codes@ =~= seq![0u32]);
            return Save::Write(WARN_VALUE, self.warn);
        }
        if codes[1] != 0 {
            return Save::Done(Err(key_error("cannot write HKCU\\", sub, codes[1])));
        }
        if n == 2 {
            assert(codes@ =~= seq![0u32, 0u32]);
            return Save::Write(HIGH_VALUE, self.high);
        }
        if codes[2] != 0 {
            return Save::Done(Err(key_error("cannot write HKCU\\", sub, codes[2])));
        }
        assert(codes@ =~= seq![0u32, 0u32, 0u32]);
        Save::Done(Ok(()))
    }

    /// Writes the settings: what to do after the calls made so far returned `codes`.
    pub fn save(&self, codes: &[u32]) -> (step: Save)
        requires
            codes@.len() <= 3,
        ensures
            saves(*self, KEY@, codes@, step),
    {
        self.save_to(KEY, codes)
    }
}

/// Settings that were saved are loaded again as they were: of two values written without an
/// error, the first is the orange threshold and the second the red one, and they stand for the
/// settings.
pub proof fn saved_settings_load_back(
    s: Settings,
    sub: Seq<char>,
    first: (&'static str, u32),
    second: (&'static str, u32),
)
    requires
        s.valid(),
        saves(s, sub, seq![0u32], Save::Write(first.0, first.1)),
        saves(s, sub, seq![0u32, 0u32], Save::Write(second.0, second.1)),
    ensures
        first.0@ == WARN_VALUE@,
        second.0@ == HIGH_VALUE@,
        loaded(Some(first.1), Some(second.1)) == s,
{
    assert(seq![0u32].len() == 1);
    assert(seq![0u32, 0u32].len() == 2);
}

/// Whatever is stored, the settings in effect are valid.
pub proof fn loaded_settings_are_valid(warn: Option<u32>, high: Option<u32>)
    ensures
        loaded(warn, high).valid(),
{
}

/// What the dialog does with a message.
#[derive(Clone, Copy, Debug, PartialEq, Eq, Structural)]
pub enum Dialog {
    /// Not for the dialog.
    Ignore,
    /// Show the settings being edited.
    Fill,
    /// Read the fields: close if they are valid, or else show what is wrong.
    Confirm,
    /// Close without a change.
    Cancel,
    /// Show the default settings.
    Restore,
}

/// What message `msg` asks of the dialog, which comes from the control with this id where it is a
/// command.
pub open spec fn asked_of(msg: u32, id: int) -> Dialog {
    if msg == WM_INITDIALOG {
        Dialog::Fill
    } else if msg != WM_COMMAND {
        Dialog::Ignore
    } else if id == IDOK {
        Dialog::Confirm
    } else if id == IDCANCEL {
        Dialog::Cancel
    } else if id == IDC_DEFAULTS {
        Dialog::Restore
    } else {
        Dialog::Ignore
    }
}

/// Dialog procedure: what to do with message `msg` and its first parameter, whose low 16 bits are
/// the id of the control that a command comes from.
pub fn dlg_proc(msg: u32, wparam: usize) -> (d: Dialog)
    ensures
        d == asked_of(msg, wparam as int % 0x1_0000),
{
    if msg == WM_INITDIALOG {
        return Dialog::Fill;
    }
    if msg != WM_COMMAND {
        return Dialog::Ignore;
    }
    let id: i32 = (wparam % 0x1_0000) as i32;
    if id == IDOK {
        Dialog::Confirm
    } else if id == IDCANCEL {
        Dialog::Cancel
    } else if id == IDC_DEFAULTS {
        Dialog::Restore
    } else {
        Dialog::Ignore
    }
}

/// The positions of the spinners that show `s`: control id and value, in order.
pub open spec fn shown(s: Settings) -> Seq<(i32, u32)> {
    seq![(IDC_WARN_SPIN, s.warn), (IDC_HIGH_SPIN, s.high)]
}

/// The positions of the spinners that show `s`, which go from 0 to [`MAX_PERCENT`]: control id and
/// value, in order.
pub fn set_values(s: Settings) -> (v: [(i32, u32); 2])
    ensures
        v@ == shown(s),
{
    let v: [(i32, u32); 2] = [(IDC_WARN_SPIN, s.warn), (IDC_HIGH_SPIN, s.high)];
    assert(v@ =~= shown(s));
    v
}

/// A field holds a percentage.
pub open spec fn is_percentage(field: Option<u32>) -> bool {
    field matches Some(v) && v <= MAX_PERCENT
}

/// What the fields hold, as settings; or the field to correct and why.
pub open spec fn fields_hold(warn: Option<u32>, high: Option<u32>) -> Result<
    Settings,
    (i32, Seq<char>),
> {
    if !is_percentage(warn) {
        Err((IDC_WARN, RANGE_MSG@))
    } else if !is_percentage(high) {
        Err((IDC_HIGH, RANGE_MSG@))
    } else if warn->0 > high->0 {
        Err((IDC_WARN, ORDER_MSG@))
    } else {
        Ok(Settings { warn: warn->0, high: high->0 })
    }
}

/// Reads the fields back (`None` where a field holds no number). On failure: the id of the field
/// to correct and the message to show.
pub fn read_values(warn: Option<u32>, high: Option<u32>) -> (r: Result<
    Settings,
    (i32, &'static str),
>)
    ensures
        match r {
            Ok(s) => fields_hold(warn, high) == Ok::<Settings, (i32, Seq<char>)>(s) && s.valid(),
            Err((id, why)) => fields_hold(warn, high) == Err::<Settings, (i32, Seq<char>)>(
                (id, why@),
            ),
        },
{
    match (warn, high) {
        (Some(w), Some(h)) => {
            if w > MAX_PERCENT {
                return Err((IDC_WARN, RANGE_MSG));
            }
            if h > MAX_PERCENT {
                return Err((IDC_HIGH, RANGE_MSG));
            }
            match Settings::new(w, h) {
                Ok(s) => Ok(s),
                Err(why) => Err((IDC_WARN, why)),
            }
        },
        (Some(w), None) => if w > MAX_PERCENT {
            Err((IDC_WARN, RANGE_MSG))
        } else {
            Err((IDC_HIGH, RANGE_MSG))
        },
        _ => Err((IDC_WARN, RANGE_MSG)),
    }
}

/// How a dialog that answered `answer` was closed: whether it was confirmed; `None` if it never
/// appeared.
pub open spec fn closed_by(answer: i32) -> Option<bool> {
    if answer == IDOK {
        Some(true)
    } else if answer == IDCANCEL {
        Some(false)
    } else {
        None
    }
}

/// How the dialog was closed: `Ok(true)` means that the user pressed OK and the new, validated
/// values apply; `Ok(false)` is Cancel. Any other answer means that the dialog never appeared,
/// with the system's error code.
pub fn edit(answer: i32, code: u32) -> (r: Result<bool, String>)
    ensures
        match r {
            Ok(confirmed) => closed_by(answer) == Some(confirmed),
            Err(e) => closed_by(answer) is None && e@ == numbered_text(
                "cannot show the settings dialog ("@,
                code as nat,
                ")"@,
            ),
        },
{
    if answer == IDOK {
        Ok(true)
    } else if answer == IDCANCEL {
        Ok(false)
    } else {
        Err(numbered("cannot show the settings dialog (", code as u64, ")"))
    }
}

} // verus!
