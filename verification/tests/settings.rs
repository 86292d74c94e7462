use windows_sys::Win32::UI::WindowsAndMessaging::{
    DS_SETFONT, IDCANCEL, IDOK, WM_COMMAND, WM_INITDIALOG, WS_EX_APPWINDOW,
};
use wsl_tray::settings::{
    dlg_proc, edit, read_values, set_values, Dialog, Save, Settings, HIGH_VALUE, IDC_DEFAULTS,
    IDC_HIGH, IDC_HIGH_SPIN, IDC_WARN, IDC_WARN_SPIN, KEY, ORDER_MSG, RANGE_MSG, WARN_VALUE,
};
use wsl_tray::template::{template, Template};

#[test]
fn validation() {
    assert_eq!(Settings::new(50, 75), Ok(Settings::default()));
    assert!(Settings::new(0, 0).is_ok());
    assert!(Settings::new(30, 30).is_ok());
    assert!(Settings::new(100, 100).is_ok());
    assert_eq!(Settings::new(101, 100), Err(RANGE_MSG));
    assert_eq!(Settings::new(10, 101), Err(RANGE_MSG));
    assert_eq!(Settings::new(76, 75), Err(ORDER_MSG));
}

#[test]
fn missing_key_gives_defaults() {
    assert_eq!(Settings::load(None), Settings::default());
}

/// A registry key with its values.
type Key = Vec<(String, u32)>;

fn read(key: &Key, name: &str) -> Option<u32> {
    key.iter().rev().find(|(n, _)| n == name).map(|&(_, v)| v)
}

fn save(s: &Settings, key: &mut Option<Key>) -> Result<(), String> {
    let mut codes = Vec::new();
    loop {
        match s.save(&codes) {
            Save::Create => {
                key.get_or_insert(Vec::new());
            }
            Save::Write(name, value) => key.as_mut().unwrap().push((name.to_string(), value)),
            Save::Done(r) => return r,
        }
        codes.push(0);
    }
}

fn load(key: &Option<Key>) -> Settings {
    Settings::load(key.as_ref().map(|k| (read(k, WARN_VALUE), read(k, HIGH_VALUE))))
}

/// Round trip through a pretended key.
#[test]
fn registry_roundtrip() {
    let mut key = None;
    let s = Settings { warn: 12, high: 34 };
    save(&s, &mut key).unwrap();
    let back = load(&key);
    // Values that do not validate (here: red below orange) are ignored.
    key.as_mut().unwrap().push((HIGH_VALUE.to_string(), 5));
    let bad = load(&key);
    assert_eq!(back, s);
    assert_eq!(bad, Settings::default());
}

#[test]
fn incomplete_settings_are_ignored() {
    assert_eq!(Settings::load(Some((Some(10), None))), Settings::default());
    assert_eq!(Settings::load(Some((None, Some(10)))), Settings::default());
    assert_eq!(Settings::load(Some((Some(10), Some(101)))), Settings::default());
}

#[test]
fn failures_to_save_are_told() {
    let s = Settings::default();
    let told = |codes: &[u32]| match s.save(codes) {
        Save::Done(Err(e)) => e,
        other => panic!("{other:?}"),
    };
    assert_eq!(KEY, r"Software\IDCT\wsl-tray");
    assert_eq!(told(&[5]), r"cannot create Software\IDCT\wsl-tray (5)");
    assert_eq!(told(&[0, 6]), r"cannot write HKCU\Software\IDCT\wsl-tray (6)");
    assert_eq!(told(&[0, 0, 7]), r"cannot write HKCU\Software\IDCT\wsl-tray (7)");
    assert!(matches!(s.save_to("x", &[0]), Save::Write("WarnThreshold", 50)));
    assert!(matches!(s.save_to("x", &[0, 0]), Save::Write("HighThreshold", 75)));
}

#[test]
fn template_header() {
    let t = template();
    assert_eq!(t[0], 0xFFFF_0001, "dlgVer 1, signature 0xFFFF");
    assert_eq!(t[1], 0, "helpID");
    assert_eq!(t[2], WS_EX_APPWINDOW);
    assert_ne!(t[3] & DS_SETFONT as u32, 0, "font block present");
    assert_eq!(t[4] & 0xFFFF, 13, "cDlgItems");
    assert_eq!(t[4] >> 16, 0, "x");
    assert_eq!(t[5], 240 << 16, "y, cx");
    assert_eq!(t[6] & 0xFFFF, 120, "cy");
}

#[test]
fn small_template_is_exact() {
    let mut t = Template::new("A", (2, 3), 0x10, 0);
    t.item(&[0xFFFF, 0x80], 0x7, (-1, 2, 3, 4), -1, "b");
    let words: Vec<u16> = t
        .finish()
        .iter()
        .flat_map(|&u| [u as u16, (u >> 16) as u16])
        .collect();
    let segoe: Vec<u16> = "Segoe UI".encode_utf16().chain([0]).collect();
    let mut expected: Vec<u16> = vec![1, 0xFFFF, 0, 0, 0, 0, 0x50, 0, 1, 0, 0, 2, 3, 0, 0];
    expected.extend([0x41, 0, 9, 400, 0x100]);
    expected.extend(segoe);
    assert_eq!(expected.len() % 2, 1, "padded before the control");
    expected.push(0);
    expected.extend([0, 0, 0, 0, 7, 0x5000, 0xFFFF, 2, 3, 4, 0xFFFF, 0xFFFF]);
    expected.extend([0xFFFF, 0x80, 0x62, 0, 0]);
    if expected.len() % 2 == 1 {
        expected.push(0);
    }
    assert_eq!(words, expected);
}

#[test]
fn dialog_messages_are_told_apart() {
    assert_eq!(dlg_proc(WM_INITDIALOG, 0), Dialog::Fill);
    assert_eq!(dlg_proc(WM_COMMAND, IDOK as usize), Dialog::Confirm);
    assert_eq!(dlg_proc(WM_COMMAND, 0x5_0000 + IDCANCEL as usize), Dialog::Cancel);
    assert_eq!(dlg_proc(WM_COMMAND, IDC_DEFAULTS as usize), Dialog::Restore);
    assert_eq!(dlg_proc(WM_COMMAND, IDC_WARN as usize), Dialog::Ignore);
    assert_eq!(dlg_proc(0x200, IDOK as usize), Dialog::Ignore);
}

#[test]
fn fields_are_checked() {
    assert_eq!(read_values(Some(8), Some(12)), Ok(Settings { warn: 8, high: 12 }));
    assert_eq!(read_values(Some(80), Some(70)), Err((IDC_WARN, ORDER_MSG)));
    assert_eq!(read_values(None, None), Err((IDC_WARN, RANGE_MSG)));
    assert_eq!(read_values(Some(101), Some(101)), Err((IDC_WARN, RANGE_MSG)));
    assert_eq!(read_values(Some(100), Some(101)), Err((IDC_HIGH, RANGE_MSG)));
    assert_eq!(read_values(Some(1), None), Err((IDC_HIGH, RANGE_MSG)));
    assert_eq!(
        set_values(Settings { warn: 1, high: 2 }),
        [(IDC_WARN_SPIN, 1), (IDC_HIGH_SPIN, 2)]
    );
}

#[test]
fn dialog_answers() {
    assert_eq!(edit(IDOK, 0), Ok(true));
    assert_eq!(edit(IDCANCEL, 0), Ok(false));
    assert_eq!(edit(-1, 1400), Err("cannot show the settings dialog (1400)".to_string()));
}
