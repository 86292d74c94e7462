use wsl_tray::display::{set_tip, stats_line, tooltip};
use wsl_tray::double::Double;
use wsl_tray::gallery::render_test;
use wsl_tray::icon::Level;
use wsl_tray::log::{icon_line, log_line, poll_line};
use wsl_tray::registry::{
    autostart_result, create_result, open_result, promote_tray_icon, read_dword, read_string,
    run_value, set_autostart, subkey_name, win32_path, Autostart, Entry, Promotion,
};
use wsl_tray::settings::Settings;
use wsl_tray::status::Status;
use wsl_tray::tray::{
    icon_size, menu_command, menu_items, not_saved_message, open_url, poll_timer, tick, user_idle,
    window_error, Act, App, Command, Edited, MenuEvent, MenuStep, COFFEE_URL, IDLE_AFTER_MS, WM_REFRESH_NOW,
    WM_TRAY_CALLBACK,
};
use wsl_tray::win32;

use windows_sys::Win32::Graphics::Gdi;
use windows_sys::Win32::System::Registry;
use windows_sys::Win32::UI::Controls;
use windows_sys::Win32::UI::Shell;
use windows_sys::Win32::UI::WindowsAndMessaging as wm;

/// A floating-point number as the library holds it.
fn double(x: f64) -> Double {
    let bits = x.to_bits();
    let (e, m) = ((bits >> 52) as i32, bits & 0xF_FFFF_FFFF_FFFF);
    if e == 0 {
        Double { m, e: -1074 }
    } else {
        Double { m: m | 1 << 52, e: e - 1075 }
    }
}

#[test]
fn win32_paths() {
    assert_eq!(
        win32_path(r"\\?\C:\Tools\wsl-tray.exe"),
        r"C:\Tools\wsl-tray.exe"
    );
    assert_eq!(
        win32_path(r"\\?\UNC\server\share\wsl-tray.exe"),
        r"\\server\share\wsl-tray.exe"
    );
    assert_eq!(
        win32_path(r"C:\Tools\wsl-tray.exe"),
        r"C:\Tools\wsl-tray.exe"
    );
    assert_eq!(win32_path(r"\\?\Volume{1}\x.exe"), r"\\?\Volume{1}\x.exe");
}

#[test]
fn odd_paths_are_kept() {
    assert_eq!(win32_path(r"\\?\é:\x"), r"\\?\é:\x");
    assert_eq!(win32_path(r"\\?\C"), r"\\?\C");
    assert_eq!(win32_path(""), "");
}

/// The idle decision is consistent with the times it is made from.
#[test]
fn idle_query_works() {
    for (ticks, last_input) in [(0u32, 0u32), (500_000, 400_000), (500_000, 380_000), (70_000, 4_294_900_000)] {
        let idle_ms = ticks.wrapping_sub(last_input);
        assert!(idle_ms < 2 * 24 * 3600 * 1000, "idle for {idle_ms} ms?");
        assert_eq!(user_idle(1, ticks, last_input), idle_ms >= IDLE_AFTER_MS);
    }
    assert!(user_idle(1, 120_000, 0));
    assert!(!user_idle(1, 119_999, 0));
    assert!(user_idle(1, 60_000, 4_294_907_296), "across the wrap");
    assert!(!user_idle(0, 500_000, 0), "not known counts as someone there");
}

#[test]
fn tooltip_fits() {
    let mut tip = [0u16; 128];
    set_tip(&mut tip, &"x".repeat(500));
    assert_eq!(tip[126], 'x' as u16);
    assert_eq!(tip[127], 0);
    set_tip(&mut tip, "short");
    assert_eq!(tip[5], 0);
    assert_eq!(tip[4], 't' as u16);
    assert_eq!(tip[126], 0, "the rest is cleared");
}

#[test]
fn stats_text() {
    let st = Status {
        running: true,
        cpu: Some(double(12.44)),
        mem: 5 << 30,
        mem_pct: double(8.44),
        ..Default::default()
    };
    assert_eq!(stats_line(&st), "CPU 12.4 %   MEM 5.00 GB (8.4 %)");
    assert_eq!(
        stats_line(&Status { cpu: None, ..st }),
        "CPU ...   MEM 5.00 GB (8.4 %)"
    );
    assert_eq!(tooltip(&Status::default()), "WSL2: stopped");
}

#[test]
fn tooltip_has_time() {
    let st = Status {
        running: true,
        mem: 768 << 20,
        mem_pct: double(1.0 / 3.0),
        updated: Some((7, 5, 12)),
        ..Default::default()
    };
    assert_eq!(
        tooltip(&st),
        "WSL2: running\nCPU ...   MEM 768 MB (0.3 %)\nupdated 07:05:12"
    );
    assert_eq!(
        tooltip(&Status { updated: None, ..st }),
        "WSL2: running\nCPU ...   MEM 768 MB (0.3 %)"
    );
}

#[test]
fn log_lines_are_exact() {
    assert_eq!(
        log_line((2024, 3, 9), (1, 2, 3), "menu command 4"),
        "2024/03/09 01:02:03 menu command 4\n"
    );
    let st = Status {
        running: true,
        pid: 4711,
        cpu: Some(double(2.0 / 3.0)),
        mem: 5 << 30,
        mem_pct: double(10.0),
        updated: None,
    };
    assert_eq!(
        poll_line(true, false, &st, true, 12),
        "poll force=true relaxed=false -> running=true pid=4711 cpu=0.67 mem=5.00 GB changed=true snapshots=12"
    );
    assert_eq!(
        poll_line(false, true, &Status::default(), false, 0),
        "poll force=false relaxed=true -> running=false pid=0 cpu=-1.00 mem=0 MB changed=false snapshots=0"
    );
    assert_eq!(icon_line(Level::Normal), "icon -> Ok");
    assert_eq!(icon_line(Level::High), "icon -> High");
    assert_eq!(icon_line(Level::Warn), "icon -> Warn");
    assert_eq!(icon_line(Level::Off), "icon -> Off");
}

#[test]
fn gallery_has_every_state_and_size() {
    let v = render_test();
    assert_eq!(v.len(), 24);
    assert_eq!((v[0].size, v[0].level, v[0].file.as_str()), (16, Level::Off, "icon-16-off.png"));
    assert_eq!(v[5].file, "icon-20-ok.png");
    assert_eq!(v[14].file, "icon-32-warn.png");
    assert_eq!((v[23].size, v[23].level, v[23].file.as_str()), (256, Level::High, "icon-256-high.png"));
}

fn app() -> App {
    App::new(Settings::default(), true)
}

#[test]
fn messages_lead_to_actions() {
    let mut a = app();
    let select = win32::NIN_SELECT as isize;
    assert_eq!(a.handle(WM_TRAY_CALLBACK, 0, select), Some(Act::ShowMenu));
    assert_eq!(a.handle(WM_TRAY_CALLBACK, 0, 0x1_0000 + 0x401), Some(Act::ShowMenu));
    assert_eq!(a.handle(WM_TRAY_CALLBACK, 0, 0x7B - 0x1_0000), Some(Act::ShowMenu));
    assert_eq!(a.handle(WM_TRAY_CALLBACK, 0, 0x200), Some(Act::Pass));
    assert!(a.open_menu());
    assert!(!a.open_menu(), "one menu at a time");
    assert_eq!(a.handle(WM_TRAY_CALLBACK, 0, select), Some(Act::RaisePopup));
    a.close_menu();
    assert_eq!(a.handle(WM_TRAY_CALLBACK, 0, select), Some(Act::ShowMenu));
    assert_eq!(a.handle(win32::WM_TIMER, 1, 0), Some(Act::TimerTick));
    assert_eq!(a.handle(win32::WM_TIMER, 2, 0), Some(Act::Pass));
    assert_eq!(a.handle(win32::WM_CLOSE, 0, 0), Some(Act::Close));
    assert_eq!(a.handle(0, 0, 0), None);
    assert_eq!(a.handle(0xC123, 0, 0), None);
    a.set_taskbar_created(0xC123);
    assert_eq!(a.handle(0xC123, 0, 0), Some(Act::AddIcon));
    a.icon_drawn(Level::Off);
    assert_eq!(a.handle(win32::WM_DESTROY, 0, 0), Some(Act::Quit));
    assert!(!a.has_icon);
}

#[test]
fn shutdown_is_confirmed_once() {
    let mut a = app();
    assert!(a.may_shut_down());
    assert!(!a.shutdown(7), "No");
    assert!(a.may_shut_down());
    assert!(a.shutdown(win32::IDYES));
    assert!(!a.may_shut_down());
    assert!(!a.shutdown(win32::IDYES));
    assert_eq!(a.handle(WM_REFRESH_NOW, 0, 0), Some(Act::Refresh));
    assert!(a.may_shut_down());
}

#[test]
fn icon_is_drawn_when_its_level_changes() {
    let mut a = app();
    let running = Status { running: true, ..Default::default() };
    assert!(a.needs_update(false) && a.needs_update(true));
    assert_eq!(a.update_icon(&running), Some(Level::Normal));
    a.icon_drawn(Level::Normal);
    assert!(!a.needs_update(false) && a.needs_update(true));
    assert_eq!(a.update_icon(&running), None);
    assert_eq!(a.update_icon(&Status::default()), Some(Level::Off));
    // New thresholds colour the icon straight away.
    let s = Settings { warn: 0, high: 0 };
    assert!(matches!(a.show_settings(Ok(true), s), Edited::Apply));
    assert_eq!(a.update_icon(&running), Some(Level::Warn));
    assert!(matches!(a.show_settings(Ok(false), Settings::default()), Edited::Keep));
    assert_eq!(a.settings, s);
    assert!(matches!(a.show_settings(Err("no".to_string()), s), Edited::Show(e) if e == "no"));
}

#[test]
fn promotion_is_tried_seven_times() {
    let mut a = app();
    let mut n = 0;
    while a.promote_once() {
        a.promotion_tried(false);
        n += 1;
    }
    assert_eq!(n, 7);
    let mut a = app();
    assert!(a.promote_once());
    a.promotion_tried(true);
    assert!(!a.promote_once());
    assert!(!App::new(Settings::default(), false).promote_once());
}

#[test]
fn menu_shows_the_state() {
    let st = Status {
        running: true,
        mem: 1 << 30,
        ..Default::default()
    };
    let shown = |st: &Status, shutting: bool, auto: bool| -> Vec<(u32, usize, String)> {
        menu_items(st, shutting, auto)
            .into_iter()
            .map(|i| (i.flags, i.id, i.text))
            .collect()
    };
    let item = |flags: u32, id: usize, text: &str| (flags, id, text.to_string());
    assert_eq!(
        shown(&st, false, true),
        vec![
            item(1, 1, "WSL2 is running"),
            item(1, 2, "CPU ...   MEM 1.00 GB (0.0 %)"),
            item(0x800, 0, ""),
            item(0, 3, "&Shut down WSL2"),
            item(0, 4, "&Refresh now"),
            item(0x800, 0, ""),
            item(8, 5, "Start with &Windows"),
            item(0, 7, "S&ettings..."),
            item(0, 8, "Buy me a &coffee"),
            item(0x800, 0, ""),
            item(0, 6, "E&xit"),
        ]
    );
    let off = shown(&Status::default(), false, false);
    assert_eq!(off[0], item(1, 1, "WSL2 is stopped"));
    assert_eq!(off[2], item(1, 3, "&Shut down WSL2"));
    assert_eq!(off[5], item(0, 5, "Start with &Windows"));
    assert_eq!(shown(&st, true, false)[3], item(1, 3, "Shutting down..."));
}

#[test]
fn menu_commands() {
    let commands: Vec<Command> = (0..10).map(menu_command).collect();
    assert_eq!(
        commands,
        vec![
            Command::Dismiss,
            Command::Dismiss,
            Command::Dismiss,
            Command::Shutdown,
            Command::Refresh,
            Command::ToggleAutostart,
            Command::Exit,
            Command::EditSettings,
            Command::OpenCoffee,
            Command::Dismiss,
        ]
    );
}

#[test]
fn small_decisions() {
    assert_eq!(poll_timer(7_500_000_000), (7500, 1000));
    assert_eq!(poll_timer(1_000_000_000), (1000, 200));
    assert_eq!(poll_timer(0), (0, 1));
    assert_eq!(poll_timer(4_294_967_297_000_000), (1, 1));
    assert_eq!((icon_size(0), icon_size(16), icon_size(24)), (16, 16, 24));
    assert!(tick(1, false, true).relaxed);
    assert!(!tick(1, true, true).relaxed);
    assert!(!tick(1, false, false).relaxed);
    assert_eq!(open_url(COFFEE_URL, 33), Ok(()));
    assert_eq!(
        open_url(COFFEE_URL, 31),
        Err("cannot open https://buymeacoffee.com/idct (error 31)".to_string())
    );
    assert_eq!(window_error("RegisterClassEx", 5), "RegisterClassEx failed (5)");
    assert_eq!(
        not_saved_message("x"),
        "x\n\nThe new thresholds apply until the program exits."
    );
}

#[test]
fn registry_answers() {
    let mut buf: Vec<u16> = "Grüße".encode_utf16().collect();
    buf.extend([0, 0x58]);
    assert_eq!(read_string(0, 1, &buf, 14).as_deref(), Some("Grüße"));
    assert_eq!(read_string(0, 2, &buf, 4).as_deref(), Some("Gr"));
    assert_eq!(read_string(0, 2, &buf, 5000).as_deref(), Some("Grüße"));
    assert_eq!(read_string(2, 1, &buf, 14), None);
    assert_eq!(read_string(0, 4, &buf, 14), None);
    assert_eq!(read_string(0, 1, &[0xD800, 0x41], 4).as_deref(), Some("\u{FFFD}A"));
    assert_eq!(read_dword(0, 4, 7), Some(7));
    assert_eq!(read_dword(0, 1, 7), None);
    assert_eq!(read_dword(2, 4, 7), None);
    assert_eq!(subkey_name(0, &buf, 2).as_deref(), Some("Gr"));
    assert_eq!(subkey_name(259, &buf, 2), None);
    assert_eq!(open_result("a", 0), Ok(()));
    assert_eq!(open_result("a", 2), Err("cannot open a (2)".to_string()));
    assert_eq!(create_result("a", 0), Ok(()));
    assert_eq!(create_result("a", 5), Err("cannot create a (5)".to_string()));
    assert_eq!(autostart_result(0), Ok(()));
    assert_eq!(autostart_result(5), Err("cannot write Run value (5)".to_string()));
}

#[test]
fn autostart_replays_arguments() {
    let args: Vec<String> = vec!["-poll".to_string(), "5s".to_string()];
    assert_eq!(run_value(r"C:\a b\x.exe", &args), r#""C:\a b\x.exe" -poll 5s"#);
    assert_eq!(run_value("x", &vec![]), "\"x\"");
    assert!(matches!(set_autostart(false, "x", &args), Autostart::Remove));
    assert!(matches!(set_autostart(true, "x", &vec![]), Autostart::Write(v) if v == "\"x\""));
}

/// Splits a line as a Windows program does.
fn split_line(line: &str) -> Vec<String> {
    let c: Vec<char> = line.chars().collect();
    let blank = |i: usize| c[i] == ' ' || c[i] == '\t';
    let (mut i, mut quoted, mut cur, mut all) = (0, false, String::new(), Vec::new());
    while i < c.len() && (quoted || !blank(i)) {
        if c[i] == '"' {
            quoted = !quoted;
        } else {
            cur.push(c[i]);
        }
        i += 1;
    }
    all.push(cur);
    loop {
        while i < c.len() && blank(i) {
            i += 1;
        }
        if i == c.len() {
            return all;
        }
        let (mut quoted, mut cur) = (false, String::new());
        while i < c.len() && (quoted || !blank(i)) {
            let n = c[i..].iter().take_while(|&&x| x == '\\').count();
            if n > 0 {
                i += n;
                let before_quote = i < c.len() && c[i] == '"';
                cur.push_str(&"\\".repeat(if before_quote { n / 2 } else { n }));
                if before_quote && n % 2 == 1 {
                    cur.push('"');
                    i += 1;
                }
            } else if c[i] == '"' && quoted && i + 1 < c.len() && c[i + 1] == '"' {
                cur.push('"');
                i += 2;
            } else if c[i] == '"' {
                quoted = !quoted;
                i += 1;
            } else {
                cur.push(c[i]);
                i += 1;
            }
        }
        all.push(cur);
    }
}

#[test]
fn autostart_quotes_arguments() {
    let value = |args: &[&str]| {
        let args: Vec<String> = args.iter().map(|a| a.to_string()).collect();
        run_value(r"C:\a b\x.exe", &args)
    };
    assert_eq!(value(&["-log", r"C:\a b.txt"]), r#""C:\a b\x.exe" -log "C:\a b.txt""#);
    assert_eq!(value(&["a b"]), r#""C:\a b\x.exe" "a b""#);
    assert_eq!(value(&["a", "b"]), r#""C:\a b\x.exe" a b"#);
    assert_eq!(value(&["", "\t"]), "\"C:\\a b\\x.exe\" \"\" \"\t\"");
    assert_eq!(value(&[r"a b\", r#"\"x"#, r"c\d"]), r#""C:\a b\x.exe" "a b\\" "\\\"x" c\d"#);
    for args in [
        vec![],
        vec!["", "", "x"],
        vec![r"C:\dir\", r"C:\dir two\\", "q\"uote", "\"\"", r#"\\"\ \"#, "a\tb"],
        vec!["-poll=5s", "-log", r"\\server\share name\log"],
    ] {
        let mut expected = vec![r"C:\a b\x.exe"];
        expected.extend(&args);
        assert_eq!(split_line(&value(&args)), expected);
    }
}

#[test]
fn promotion_respects_the_user() {
    let exe = r"C:\Tools\wsl-tray.exe";
    let next = |e: Entry| promote_tray_icon(exe, 3, e);
    assert!(matches!(next(Entry::Base(false)), Promotion::Done(true)));
    assert!(matches!(next(Entry::Base(true)), Promotion::ReadName(0)));
    assert!(matches!(next(Entry::Name(None)), Promotion::Done(false)));
    assert!(matches!(
        next(Entry::Name(Some("77".to_string()))),
        Promotion::ReadPath(k) if k == r"Control Panel\NotifyIconSettings\77"
    ));
    assert!(matches!(next(Entry::Closed), Promotion::ReadName(4)));
    assert!(matches!(next(Entry::Path(None)), Promotion::ReadName(4)));
    assert!(matches!(next(Entry::Path(Some("C:\\x".to_string()))), Promotion::ReadName(4)));
    assert!(matches!(next(Entry::Path(Some(exe.to_uppercase()))), Promotion::ReadChoice));
    assert!(matches!(next(Entry::Choice(false)), Promotion::Write));
    assert!(matches!(next(Entry::Choice(true)), Promotion::Done(true)));
    assert!(matches!(next(Entry::Written), Promotion::Done(true)));
}

/// The numbers are those of the Windows interface.
#[test]
fn interface_numbers() {
    assert_eq!(win32::WS_POPUP, wm::WS_POPUP);
    assert_eq!(win32::WS_CHILD, wm::WS_CHILD);
    assert_eq!(win32::WS_VISIBLE, wm::WS_VISIBLE);
    assert_eq!(win32::WS_CAPTION, wm::WS_CAPTION);
    assert_eq!(win32::WS_BORDER, wm::WS_BORDER);
    assert_eq!(win32::WS_SYSMENU, wm::WS_SYSMENU);
    assert_eq!(win32::WS_GROUP, wm::WS_GROUP);
    assert_eq!(win32::WS_TABSTOP, wm::WS_TABSTOP);
    assert_eq!(win32::WS_EX_APPWINDOW, wm::WS_EX_APPWINDOW);
    assert_eq!(win32::DS_SETFONT, wm::DS_SETFONT as u32);
    assert_eq!(win32::DS_CENTER, wm::DS_CENTER as u32);
    assert_eq!(win32::BS_PUSHBUTTON, wm::BS_PUSHBUTTON as u32);
    assert_eq!(win32::BS_DEFPUSHBUTTON, wm::BS_DEFPUSHBUTTON as u32);
    assert_eq!(win32::BS_GROUPBOX, wm::BS_GROUPBOX as u32);
    assert_eq!(win32::ES_AUTOHSCROLL, wm::ES_AUTOHSCROLL as u32);
    assert_eq!(win32::ES_NUMBER, wm::ES_NUMBER as u32);
    assert_eq!(win32::UDS_SETBUDDYINT, Controls::UDS_SETBUDDYINT);
    assert_eq!(win32::UDS_ALIGNRIGHT, Controls::UDS_ALIGNRIGHT);
    assert_eq!(win32::UDS_AUTOBUDDY, Controls::UDS_AUTOBUDDY);
    assert_eq!(win32::UDS_ARROWKEYS, Controls::UDS_ARROWKEYS);
    assert_eq!(win32::FW_NORMAL, Gdi::FW_NORMAL);
    assert_eq!(win32::DEFAULT_CHARSET, Gdi::DEFAULT_CHARSET);
    assert_eq!(win32::WM_DESTROY, wm::WM_DESTROY);
    assert_eq!(win32::WM_CLOSE, wm::WM_CLOSE);
    assert_eq!(win32::WM_CONTEXTMENU, wm::WM_CONTEXTMENU);
    assert_eq!(win32::WM_INITDIALOG, wm::WM_INITDIALOG);
    assert_eq!(win32::WM_COMMAND, wm::WM_COMMAND);
    assert_eq!(win32::WM_TIMER, wm::WM_TIMER);
    assert_eq!(win32::WM_APP, wm::WM_APP);
    assert_eq!(win32::NIN_SELECT, Shell::NIN_SELECT);
    assert_eq!(win32::NIN_KEYSELECT, Shell::NIN_SELECT | Shell::NINF_KEY);
    assert_eq!(win32::MF_STRING, wm::MF_STRING);
    assert_eq!(win32::MF_GRAYED, wm::MF_GRAYED);
    assert_eq!(win32::MF_CHECKED, wm::MF_CHECKED);
    assert_eq!(win32::MF_SEPARATOR, wm::MF_SEPARATOR);
    assert_eq!(win32::IDOK, wm::IDOK);
    assert_eq!(win32::IDCANCEL, wm::IDCANCEL);
    assert_eq!(win32::IDYES, wm::IDYES);
    assert_eq!(win32::REG_SZ, Registry::REG_SZ);
    assert_eq!(win32::REG_EXPAND_SZ, Registry::REG_EXPAND_SZ);
    assert_eq!(win32::REG_DWORD, Registry::REG_DWORD);
}

/// Looks for an entry among (name, executable, whether a choice was made); `None` is an entry that cannot be opened.
/// Returns the outcome and the names of the entries written to.
fn promote(
    exe: &str,
    entries: &[(&str, Option<&str>, bool)],
) -> (bool, Vec<String>) {
    let mut index = 0u32;
    let mut written = Vec::new();
    let mut seen = Entry::Base(true);
    loop {
        seen = match promote_tray_icon(exe, index, seen) {
            Promotion::ReadName(i) => {
                index = i;
                Entry::Name(entries.get(i as usize).map(|e| e.0.to_string()))
            }
            Promotion::ReadPath(key) => {
                assert!(key.ends_with(entries[index as usize].0));
                match entries[index as usize].1 {
                    Some(path) => Entry::Path(Some(path.to_string())),
                    None => Entry::Closed,
                }
            }
            Promotion::ReadChoice => Entry::Choice(entries[index as usize].2),
            Promotion::Write => {
                written.push(entries[index as usize].0.to_string());
                Entry::Written
            }
            Promotion::Done(done) => return (done, written),
        };
    }
}

#[test]
fn promotion_walks_the_entries() {
    let others = [("1", Some(r"C:\x.exe"), false), ("2", None, false)];
    assert_eq!(promote(r"C:\me.exe", &others), (false, vec![]));
    assert_eq!(promote(r"C:\me.exe", &[]), (false, vec![]));
    let mut all = others.to_vec();
    all.push(("3", Some(r"c:\ME.exe"), false));
    all.push(("4", Some(r"C:\me.exe"), false));
    assert_eq!(promote(r"C:\me.exe", &all), (true, vec!["3".to_string()]));
    all[2].2 = true;
    assert_eq!(promote(r"C:\me.exe", &all), (true, vec![]));
}

#[test]
fn menu_run_holds_the_guard() {
    let mut a = app();
    let select = win32::NIN_SELECT as isize;
    for (chosen, command) in [(3, Command::Shutdown), (0, Command::Dismiss)] {
        assert_eq!(a.handle(WM_TRAY_CALLBACK, 0, select), Some(Act::ShowMenu));
        for (event, step) in [
            (MenuEvent::Asked, MenuStep::Poll),
            (MenuEvent::Polled, MenuStep::Popup),
            (MenuEvent::Chosen(Some(chosen)), MenuStep::Run(command)),
        ] {
            assert_eq!(a.show_menu(event), step);
            // Until the command has finished, no second menu comes up.
            assert_eq!(a.handle(WM_TRAY_CALLBACK, 0, select), Some(Act::RaisePopup));
            assert_eq!(a.show_menu(MenuEvent::Asked), MenuStep::Leave);
        }
        assert_eq!(a.show_menu(MenuEvent::Finished), MenuStep::Return);
    }
    assert_eq!(a.handle(WM_TRAY_CALLBACK, 0, select), Some(Act::ShowMenu));
    assert_eq!(a.show_menu(MenuEvent::Asked), MenuStep::Poll);
    assert_eq!(a.show_menu(MenuEvent::Polled), MenuStep::Popup);
    assert_eq!(a.show_menu(MenuEvent::Chosen(None)), MenuStep::Return);
    assert_eq!(a.handle(WM_TRAY_CALLBACK, 0, select), Some(Act::ShowMenu));
}
