//! The tray icon: what messages, menu commands and samples lead to.
//!
//! The window procedure is entered again while a menu or a dialog is up, so every decision here
//! reads and leaves a whole state.
use vstd::prelude::*;
use vstd::string::*;

use crate::display::{stats_line, stats_text};
use crate::icon::{level_of, Level};
use crate::monitor::Request;
use crate::settings::Settings;
use crate::status::Status;
use crate::text::{chars_of, decimal, numbered, numbered_text, push_decimal, string_of};
use crate::win32::{
    IDYES, MF_CHECKED, MF_GRAYED, MF_SEPARATOR, MF_STRING, NIN_KEYSELECT, NIN_SELECT, WM_APP,
    WM_CLOSE, WM_CONTEXTMENU, WM_DESTROY, WM_TIMER,
};

pub mod choices;
pub mod decisions;

verus! {

/// Private message the shell sends to the window for tray-icon events; the event id is in the low
/// word of its second parameter.
pub const WM_TRAY_CALLBACK: u32 = WM_APP + 1;

/// Posted once `wsl --shutdown` has returned.
pub const WM_REFRESH_NOW: u32 = WM_APP + 2;

/// Id of the poll timer.
pub const TIMER_POLL: usize = 1;

// Menu command ids. Status lines are disabled items and are never returned, but still need
// distinct ids.
pub const IDM_STATUS: usize = 1;

pub const IDM_STATS: usize = 2;

pub const IDM_SHUTDOWN: usize = 3;

pub const IDM_REFRESH: usize = 4;

pub const IDM_AUTOSTART: usize = 5;

pub const IDM_EXIT: usize = 6;

pub const IDM_SETTINGS: usize = 7;

pub const IDM_COFFEE: usize = 8;

/// Window class of the hidden window.
pub const CLASS_NAME: &'static str = "WSLTrayWindow";

/// Caption used for message boxes.
pub const APP_TITLE: &'static str = "WSL2 Tray";

/// Opened in the browser by "Buy me a coffee".
pub const COFFEE_URL: &'static str = "https://buymeacoffee.com/idct";

/// The question before a shutdown.
pub const SHUTDOWN_QUESTION: &'static str =
    "Shut down WSL2?\n\nAll running distributions will be terminated.";

/// Without keyboard or mouse input for this long, nobody is looking at the icon.
pub const IDLE_AFTER_MS: u32 = 120_000;

/// Promotion of the icon is tried this often at most.
pub const PROMOTE_TRIES: u32 = 7;

/// The state behind the tray icon.
pub struct App {
    /// A tray icon has been drawn and not been destroyed.
    pub has_icon: bool,
    /// True between the user confirming "Shut down WSL2" and the end of the shutdown. Greys out
    /// the menu item meanwhile.
    pub shutting_down: bool,
    /// The menu, or a dialog it launched, is up.
    pub menu_open: bool,
    /// Id of the message that a new Explorer instance broadcasts; the icon has to be added again
    /// then.
    pub taskbar_created: u32,
    /// Colour level of the icon, to skip redundant re-renders.
    pub last_level: Option<Level>,
    /// The colour thresholds in effect.
    pub settings: Settings,
    /// Promotion of the icon is done, or not applicable on this Windows version.
    pub promoted: bool,
    /// Number of promotion attempts.
    pub promote_tries: u32,
    /// The executable's path is known, without which there is no promotion.
    pub has_path: bool,
}

/// What a message leads to.
#[derive(Clone, Copy, Debug, PartialEq, Eq, Structural)]
pub enum Act {
    /// Nothing.
    Pass,
    /// Bring the dialog that is up to the front.
    RaisePopup,
    /// Show the menu.
    ShowMenu,
    /// Poll, as the timer does, and promote the icon.
    TimerTick,
    /// Poll for fresh numbers.
    Refresh,
    /// Destroy the window.
    Close,
    /// Stop the timer, remove the icon, end the program.
    Quit,
    /// Add the icon again.
    AddIcon,
}

/// What follows the settings dialog.
#[derive(Debug)]
pub enum Edited {
    /// Nothing.
    Keep,
    /// Store the new thresholds and colour the icon by them.
    Apply,
    /// Show this message.
    Show(String),
}

/// The low 16 bits of a message's second parameter.
pub open spec fn low_word(lparam: isize) -> int {
    lparam as int % 0x1_0000
}

/// A tray event that asks for the menu: left click, keyboard or right click. (The raw mouse
/// messages also arrive, and would open the menu twice.)
pub open spec fn asks_for_menu(event: int) -> bool {
    event == WM_CONTEXTMENU || event == NIN_SELECT || event == NIN_KEYSELECT
}

impl App {
    pub open spec fn wf(self) -> bool {
        &&& self.settings.valid()
        &&& self.promote_tries <= PROMOTE_TRIES
        &&& self.has_icon ==> self.last_level is Some
    }

    /// What message `msg` leads to; `None` for messages that are not the program's own.
    pub open spec fn act(self, msg: u32, wparam: usize, lparam: isize) -> Option<Act> {
        if msg == WM_TRAY_CALLBACK {
            if !asks_for_menu(low_word(lparam)) {
                Some(Act::Pass)
            } else if self.menu_open {
                Some(Act::RaisePopup)
            } else {
                Some(Act::ShowMenu)
            }
        } else if msg == WM_TIMER {
            if wparam == TIMER_POLL {
                Some(Act::TimerTick)
            } else {
                Some(Act::Pass)
            }
        } else if msg == WM_REFRESH_NOW {
            Some(Act::Refresh)
        } else if msg == WM_CLOSE {
            Some(Act::Close)
        } else if msg == WM_DESTROY {
            Some(Act::Quit)
        } else if msg != 0 && msg == self.taskbar_created {
            Some(Act::AddIcon)
        } else {
            None
        }
    }

    /// The state at the start: no icon, nothing up.
    pub open spec fn at_start(settings: Settings, has_path: bool) -> App {
        App {
            has_icon: false,
            shutting_down: false,
            menu_open: false,
            taskbar_created: 0,
            last_level: None,
            settings,
            promoted: false,
            promote_tries: 0,
            has_path,
        }
    }

    /// The state once the message of a new Explorer instance is known.
    pub open spec fn listening(self, msg: u32) -> App {
        App { taskbar_created: msg, ..self }
    }

    /// A shutdown may be asked for.
    pub open spec fn may_ask(self) -> bool {
        !self.shutting_down
    }

    /// The state after a message that led to `r`: the end of a shutdown re-enables its menu item,
    /// and quitting destroys the icon.
    pub open spec fn handled(self, r: Option<Act>) -> App {
        App {
            shutting_down: self.shutting_down && r != Some(Act::Refresh),
            has_icon: self.has_icon && r != Some(Act::Quit),
            ..self
        }
    }

    /// A poll is followed by an update of the icon.
    pub open spec fn updates(self, changed: bool) -> bool {
        changed || !self.has_icon
    }

    /// The state once the icon has been drawn in level `lv`.
    pub open spec fn drawn(self, lv: Level) -> App {
        App { has_icon: true, last_level: Some(lv), ..self }
    }

    /// The question before a shutdown, answered with this button, leads to one.
    pub open spec fn shuts_down(self, answer: i32) -> bool {
        !self.shutting_down && answer == IDYES
    }

    /// The state after the question before a shutdown was answered.
    pub open spec fn answered(self, answer: i32) -> App {
        App { shutting_down: self.shutting_down || self.shuts_down(answer), ..self }
    }

    /// The state after the settings dialog: confirmed thresholds apply.
    pub open spec fn edited(self, confirmed: bool, s: Settings) -> App {
        if confirmed {
            App { settings: s, ..self }
        } else {
            self
        }
    }

    /// Promotion of the icon is to be tried.
    pub open spec fn promotes(self) -> bool {
        !self.promoted && self.promote_tries < PROMOTE_TRIES && self.has_path
    }

    /// The state once it has been decided whether to try to promote the icon.
    pub open spec fn trying(self) -> App {
        if self.promotes() {
            App { promote_tries: (self.promote_tries + 1) as u32, ..self }
        } else {
            self
        }
    }

    /// The state after an attempt to promote the icon.
    pub open spec fn tried(self, done: bool) -> App {
        App { promoted: done, ..self }
    }

    /// The level to draw the icon in for `st`, `None` if the icon shows it.
    pub open spec fn to_draw(self, st: Status) -> Option<Level> {
        if self.has_icon && self.last_level == Some(level_of(st, self.settings)) {
            None
        } else {
            Some(level_of(st, self.settings))
        }
    }

    /// The state at the start: no icon, nothing up.
    pub fn new(settings: Settings, has_path: bool) -> (a: App)
        requires
            settings.valid(),
        ensures
            a.wf(),
            a == App::at_start(settings, has_path),
    {
        App {
            has_icon: false,
            shutting_down: false,
            menu_open: false,
            taskbar_created: 0,
            last_level: None,
            settings,
            promoted: false,
            promote_tries: 0,
            has_path,
        }
    }

    /// Message handler: what to do, or `None` to let the system handle the message. The end of a
    /// shutdown re-enables its menu item, and quitting destroys the icon.
    pub fn handle(&mut self, msg: u32, wparam: usize, lparam: isize) -> (r: Option<Act>)
        requires
            old(self).wf(),
        ensures
            final(self).wf(),
            r == old(self).act(msg, wparam, lparam),
            *final(self) == old(self).handled(r),
    {
        if msg == WM_TRAY_CALLBACK {
            let event: u32 = (lparam & 0xFFFF) as u32;
            assert(lparam & 0xFFFF == lparam % 0x1_0000) by (bit_vector);
            return if event == WM_CONTEXTMENU || event == NIN_SELECT || event == NIN_KEYSELECT {
                if self.menu_open {
                    Some(Act::RaisePopup)
                } else {
                    Some(Act::ShowMenu)
                }
            } else {
                Some(Act::Pass)
            };
        }
        if msg == WM_TIMER {
            return if wparam == TIMER_POLL {
                Some(Act::TimerTick)
            } else {
                Some(Act::Pass)
            };
        }
        if msg == WM_REFRESH_NOW {
            self.shutting_down = false;
            return Some(Act::Refresh);
        }
        if msg == WM_CLOSE {
            return Some(Act::Close);
        }
        if msg == WM_DESTROY {
            self.has_icon = false;
            return Some(Act::Quit);
        }
        if msg != 0 && msg == self.taskbar_created {
            return Some(Act::AddIcon);
        }
        None
    }
}

impl App {
    /// Opens the menu, unless it is open: whether it may be shown.
    pub fn open_menu(&mut self) -> (r: bool)
        requires
            old(self).wf(),
        ensures
            final(self).wf(),
            r == !old(self).menu_open,
            *final(self) == (App { menu_open: true, ..*old(self) }),
    {
        let was_open = self.menu_open;
        self.menu_open = true;
        !was_open
    }

    /// Closes the menu, once the chosen command has finished: the message boxes shown by commands
    /// pump messages too, and a tray click during them must not open another menu.
    pub fn close_menu(&mut self)
        requires
            old(self).wf(),
        ensures
            final(self).wf(),
            *final(self) == (App { menu_open: false, ..*old(self) }),
    {
        self.menu_open = false;
    }

    /// Whether a poll is followed by an update of the icon and its tooltip: something visible
    /// changed, or the icon does not exist yet.
    pub fn needs_update(&self, changed: bool) -> (r: bool)
        ensures
            r == self.updates(changed),
    {
        changed || !self.has_icon
    }

    /// The level to draw the icon in for `st`, `None` if the icon shows it.
    pub fn update_icon(&self, st: &Status) -> (r: Option<Level>)
        requires
            self.wf(),
            st.wf(),
        ensures
            r == self.to_draw(*st),
    {
        let lv = Level::for_settings(st, &self.settings);
        let shown = match self.last_level {
            Some(last) => self.has_icon && last == lv,
            None => false,
        };
        if shown {
            None
        } else {
            Some(lv)
        }
    }

    /// The icon has been drawn in level `lv`.
    pub fn icon_drawn(&mut self, lv: Level)
        requires
            old(self).wf(),
        ensures
            final(self).wf(),
            *final(self) == old(self).drawn(lv),
    {
        self.has_icon = true;
        self.last_level = Some(lv);
    }

    /// "Shut down WSL2" was chosen: whether to ask for confirmation.
    pub fn may_shut_down(&self) -> (r: bool)
        ensures
            r == self.may_ask(),
    {
        !self.shutting_down
    }

    /// The question before a shutdown was answered with this button: whether to shut down.
    pub fn shutdown(&mut self, answer: i32) -> (r: bool)
        requires
            old(self).wf(),
        ensures
            final(self).wf(),
            r == old(self).shuts_down(answer),
            *final(self) == old(self).answered(answer),
    {
        if self.shutting_down || answer != IDYES {
            return false;
        }
        self.shutting_down = true;
        true
    }

    /// The settings dialog was closed (`edited` as [`crate::settings::edit`] says), holding `s`:
    /// confirmed thresholds apply from now on.
    pub fn show_settings(&mut self, edited: Result<bool, String>, s: Settings) -> (r: Edited)
        requires
            old(self).wf(),
            s.valid(),
        ensures
            final(self).wf(),
            match edited {
                Ok(true) => r is Apply && *final(self) == old(self).edited(true, s),
                Ok(false) => r is Keep && *final(self) == old(self).edited(false, s),
                Err(e) => r == Edited::Show(e) && *final(self) == *old(self),
            },
    {
        match edited {
            Ok(true) => {
                self.settings = s;
                Edited::Apply
            },
            Ok(false) => Edited::Keep,
            Err(e) => Edited::Show(e),
        }
    }

    /// Whether to try to promote the icon now. The entry to write to appears shortly after the
    /// icon is added, so this is retried a few times.
    pub fn promote_once(&mut self) -> (r: bool)
        requires
            old(self).wf(),
        ensures
            final(self).wf(),
            r == old(self).promotes(),
            *final(self) == old(self).trying(),
    {
        if self.promoted || self.promote_tries >= PROMOTE_TRIES || !self.has_path {
            return false;
        }
        self.promote_tries = self.promote_tries + 1;
        true
    }

    /// An attempt to promote the icon has ended: `done` if nothing more is to be done.
    pub fn promotion_tried(&mut self, done: bool)
        requires
            old(self).wf(),
        ensures
            final(self).wf(),
            *final(self) == old(self).tried(done),
    {
        self.promoted = done;
    }

    /// The message that a new Explorer instance broadcasts has this id.
    pub fn set_taskbar_created(&mut self, msg: u32)
        requires
            old(self).wf(),
        ensures
            final(self).wf(),
            *final(self) == old(self).listening(msg),
    {
        self.taskbar_created = msg;
    }
}

/// What to say where the new thresholds could not be stored, for the reason `e`.
pub open spec fn not_saved_text(e: Seq<char>) -> Seq<char> {
    e + "\n\nThe new thresholds apply until the program exits."@
}

/// What to say where the new thresholds could not be stored.
pub fn not_saved_message(e: &str) -> (s: String)
    ensures
        s@ == not_saved_text(e@),
{
    let mut s = string_of(chars_of(e).as_slice());
    s.append("\n\nThe new thresholds apply until the program exits.");
    s
}

/// How a poll goes: an unforced one is relaxed while nobody is at the machine.
pub open spec fn poll_request(now: u64, force: bool, idle: bool) -> Request {
    Request { now, force, relaxed: !force && idle }
}

/// How a poll goes: an unforced one is relaxed while nobody is at the machine.
pub fn tick(now: u64, force: bool, idle: bool) -> (r: Request)
    ensures
        r == poll_request(now, force, idle),
{
    Request { now, force, relaxed: !force && idle }
}

/// How long ago the last input was, in milliseconds. Tick counts wrap every 49 days; the difference
/// is right across that.
pub open spec fn input_age(ticks: u32, last_input: u32) -> int {
    (ticks - last_input) % 0x1_0000_0000
}

/// The session has seen no input for [`IDLE_AFTER_MS`]; `ok` is 0 where that is not known.
pub open spec fn is_idle(ok: i32, ticks: u32, last_input: u32) -> bool {
    ok != 0 && input_age(ticks, last_input) >= IDLE_AFTER_MS
}

/// Whether the session has seen no input for [`IDLE_AFTER_MS`]: `ok` is 0 where the last input is
/// not known, which counts as "someone is there". Tick counts wrap every 49 days; the difference
/// is right across that.
pub fn user_idle(ok: i32, ticks: u32, last_input: u32) -> (r: bool)
    ensures
        r == is_idle(ok, ticks, last_input),
{
    if ok == 0 {
        return false;
    }
    ticks.wrapping_sub(last_input) >= IDLE_AFTER_MS
}

/// The poll timer's period in milliseconds.
pub open spec fn period(poll: u64) -> int {
    poll as int / 1_000_000 % 0x1_0000_0000
}

/// How late a timer of this period may fire, in milliseconds.
pub open spec fn tolerance(ms: int) -> int {
    if ms / 5 < 1 {
        1
    } else if ms / 5 > 1000 {
        1000
    } else {
        ms / 5
    }
}

/// Period and tolerance of the poll timer in milliseconds: the timer may fire late by a fifth of
/// the period, at least a millisecond and at most a second. (The period is a 32-bit number, and
/// wraps.)
pub fn poll_timer(poll: u64) -> (r: (u32, u32))
    ensures
        r.0 == period(poll),
        r.1 == tolerance(period(poll)),
{
    let ms: u32 = (poll / 1_000_000 % 0x1_0000_0000) as u32;
    let fifth: u32 = ms / 5;
    let tolerance: u32 = if fifth < 1 {
        1
    } else if fifth > 1000 {
        1000
    } else {
        fifth
    };
    (ms, tolerance)
}

/// Edge length of the icon in pixels, 16 at least.
pub open spec fn edge_length(metric: i32) -> int {
    if metric > 16 {
        metric as int
    } else {
        16
    }
}

/// Edge length of the icon in pixels where the system's small icons have this width.
pub fn icon_size(metric: i32) -> (sz: usize)
    ensures
        sz == edge_length(metric),
{
    if metric > 16 {
        metric as usize
    } else {
        16
    }
}

/// What is said where `url` could not be opened; `None` where it was.
pub open spec fn url_failure(url: Seq<char>, answer: nat) -> Option<Seq<char>> {
    if answer > 32 {
        None
    } else {
        Some("cannot open "@ + url + " (error "@ + decimal(answer) + ")"@)
    }
}

/// The outcome of opening `url`: the shell answers with 32 or less where that failed.
pub fn open_url(url: &str, answer: usize) -> (r: Result<(), String>)
    ensures
        match r {
            Ok(_) => url_failure(url@, answer as nat) is None,
            Err(e) => url_failure(url@, answer as nat) == Some(e@),
        },
{
    if answer > 32 {
        return Ok(());
    }
    let mut e = String::new();
    e.append("cannot open ");
    e.append(url);
    e.append(" (error ");
    push_decimal(&mut e, answer as u128);
    e.append(")");
    assert(e@ =~= "cannot open "@ + url@ + " (error "@ + decimal(answer as nat) + ")"@);
    Err(e)
}

/// What to say where a call that makes a window class or a window failed.
pub open spec fn window_failure(call: Seq<char>, code: nat) -> Seq<char> {
    call + numbered_text(" failed ("@, code, ")"@)
}

/// The outcome of a call that makes a window class or a window: `call` names it.
pub fn window_error(call: &str, code: u32) -> (s: String)
    ensures
        s@ == window_failure(call@, code as nat),
{
    let mut s = string_of(chars_of(call).as_slice());
    s.append(numbered(" failed (", code as u64, ")").as_str());
    s
}

/// An item of the popup menu.
#[derive(Debug)]
pub struct MenuItem {
    pub flags: u32,
    pub id: usize,
    pub text: String,
}

/// An item of the popup menu, as its flags, id and text.
pub struct Item {
    pub flags: u32,
    pub id: usize,
    pub text: Seq<char>,
}

/// The items as their flags, ids and texts.
pub open spec fn items_of(v: Seq<MenuItem>) -> Seq<Item> {
    Seq::new(v.len(), |i: int| Item { flags: v[i].flags, id: v[i].id, text: v[i].text@ })
}

pub open spec fn separator() -> Item {
    Item { flags: MF_SEPARATOR, id: 0, text: ""@ }
}

/// What the menu says of the VM.
pub open spec fn status_items(st: Status) -> Seq<Item> {
    if st.running {
        seq![
            Item { flags: MF_STRING | MF_GRAYED, id: IDM_STATUS, text: "WSL2 is running"@ },
            Item { flags: MF_STRING | MF_GRAYED, id: IDM_STATS, text: stats_text(st) },
        ]
    } else {
        seq![Item { flags: MF_STRING | MF_GRAYED, id: IDM_STATUS, text: "WSL2 is stopped"@ }]
    }
}

/// The shutdown command: there while the VM runs and no shutdown is under way.
pub open spec fn shutdown_item(running: bool, shutting_down: bool) -> Item {
    if shutting_down {
        Item { flags: MF_STRING | MF_GRAYED, id: IDM_SHUTDOWN, text: "Shutting down..."@ }
    } else if running {
        Item { flags: MF_STRING, id: IDM_SHUTDOWN, text: "&Shut down WSL2"@ }
    } else {
        Item { flags: MF_STRING | MF_GRAYED, id: IDM_SHUTDOWN, text: "&Shut down WSL2"@ }
    }
}

/// The popup menu.
pub open spec fn menu(st: Status, shutting_down: bool, autostart: bool) -> Seq<Item> {
    status_items(st) + seq![
        separator(),
        shutdown_item(st.running, shutting_down),
        Item { flags: MF_STRING, id: IDM_REFRESH, text: "&Refresh now"@ },
        separator(),
        Item {
            flags: MF_STRING | (if autostart {
                MF_CHECKED
            } else {
                0
            }),
            id: IDM_AUTOSTART,
            text: "Start with &Windows"@,
        },
        Item { flags: MF_STRING, id: IDM_SETTINGS, text: "S&ettings..."@ },
        Item { flags: MF_STRING, id: IDM_COFFEE, text: "Buy me a &coffee"@ },
        separator(),
        Item { flags: MF_STRING, id: IDM_EXIT, text: "E&xit"@ },
    ]
}

/// Appends an item.
fn add_item(menu: &mut Vec<MenuItem>, flags: u32, id: usize, text: &str)
    ensures
        items_of(final(menu)@) == items_of(old(menu)@).push(Item { flags, id, text: text@ }),
{
    menu.push(MenuItem { flags, id, text: string_of(chars_of(text).as_slice()) });
    assert(items_of(menu@) =~= items_of(old(menu)@).push(Item { flags, id, text: text@ }));
}

/// The popup menu. It is built anew on every click because its contents depend on the status.
pub fn menu_items(st: &Status, shutting_down: bool, autostart: bool) -> (v: Vec<MenuItem>)
    requires
        st.can_be_shown(),
    ensures
        items_of(v@) == menu(*st, shutting_down, autostart),
{
    let mut v: Vec<MenuItem> = Vec::new();
    if st.running {
        add_item(&mut v, MF_STRING | MF_GRAYED, IDM_STATUS, "WSL2 is running");
        add_item(&mut v, MF_STRING | MF_GRAYED, IDM_STATS, stats_line(st).as_str());
    } else {
        add_item(&mut v, MF_STRING | MF_GRAYED, IDM_STATUS, "WSL2 is stopped");
    }
    assert(items_of(v@) =~= status_items(*st));
    add_item(&mut v, MF_SEPARATOR, 0, "");
    if shutting_down {
        add_item(&mut v, MF_STRING | MF_GRAYED, IDM_SHUTDOWN, "Shutting down...");
    } else if st.running {
        add_item(&mut v, MF_STRING, IDM_SHUTDOWN, "&Shut down WSL2");
    } else {
        add_item(&mut v, MF_STRING | MF_GRAYED, IDM_SHUTDOWN, "&Shut down WSL2");
    }
    add_item(&mut v, MF_STRING, IDM_REFRESH, "&Refresh now");
    add_item(&mut v, MF_SEPARATOR, 0, "");
    let checked: u32 = if autostart {
        MF_CHECKED
    } else {
        0
    };
    add_item(&mut v, MF_STRING | checked, IDM_AUTOSTART, "Start with &Windows");
    add_item(&mut v, MF_STRING, IDM_SETTINGS, "S&ettings...");
    add_item(&mut v, MF_STRING, IDM_COFFEE, "Buy me a &coffee");
    add_item(&mut v, MF_SEPARATOR, 0, "");
    add_item(&mut v, MF_STRING, IDM_EXIT, "E&xit");
    assert(items_of(v@) =~= menu(*st, shutting_down, autostart));
    v
}

/// What a menu item does.
#[derive(Clone, Copy, Debug, PartialEq, Eq, Structural)]
pub enum Command {
    /// Nothing: dismissed without a choice.
    Dismiss,
    /// Shut down WSL2.
    Shutdown,
    /// Poll for fresh numbers.
    Refresh,
    /// Turn autostart on or off.
    ToggleAutostart,
    /// Edit the settings.
    EditSettings,
    /// Open the sponsoring page.
    OpenCoffee,
    /// Destroy the window.
    Exit,
}

/// What the item with this id does.
pub open spec fn command_of(id: usize) -> Command {
    if id == IDM_SHUTDOWN {
        Command::Shutdown
    } else if id == IDM_REFRESH {
        Command::Refresh
    } else if id == IDM_AUTOSTART {
        Command::ToggleAutostart
    } else if id == IDM_SETTINGS {
        Command::EditSettings
    } else if id == IDM_COFFEE {
        Command::OpenCoffee
    } else if id == IDM_EXIT {
        Command::Exit
    } else {
        Command::Dismiss
    }
}

/// What choosing the item with this id does.
pub fn menu_command(id: usize) -> (c: Command)
    ensures
        c == command_of(id),
{
    if id == IDM_SHUTDOWN {
        Command::Shutdown
    } else if id == IDM_REFRESH {
        Command::Refresh
    } else if id == IDM_AUTOSTART {
        Command::ToggleAutostart
    } else if id == IDM_SETTINGS {
        Command::EditSettings
    } else if id == IDM_COFFEE {
        Command::OpenCoffee
    } else if id == IDM_EXIT {
        Command::Exit
    } else {
        Command::Dismiss
    }
}

/// These flags are of an item that can be chosen.
pub open spec fn enabled(flags: u32) -> bool {
    flags & MF_GRAYED == 0 && flags & MF_SEPARATOR == 0
}

/// An item that can be chosen.
pub open spec fn can_be_chosen(item: Item) -> bool {
    enabled(item.flags)
}

proof fn lemma_flags()
    ensures
        !enabled(MF_SEPARATOR),
        !enabled(MF_STRING | MF_GRAYED),
        enabled(MF_STRING),
        enabled(MF_STRING | MF_CHECKED),
        enabled(MF_STRING | 0),
{
    assert(MF_SEPARATOR & MF_SEPARATOR != 0) by (bit_vector);
    assert((MF_STRING | MF_GRAYED) & MF_GRAYED != 0) by (bit_vector);
    assert(MF_STRING & MF_GRAYED == 0 && MF_STRING & MF_SEPARATOR == 0) by (bit_vector);
    assert((MF_STRING | MF_CHECKED) & MF_GRAYED == 0 && (MF_STRING | MF_CHECKED) & MF_SEPARATOR
        == 0) by (bit_vector);
    assert((MF_STRING | 0) & MF_GRAYED == 0 && (MF_STRING | 0) & MF_SEPARATOR == 0)
        by (bit_vector);
}

/// Every item that can be chosen does something, and two of them never do the same.
pub proof fn choices_do_something(
    st: Status,
    shutting_down: bool,
    autostart: bool,
    i: int,
    j: int,
)
    requires
        0 <= i < menu(st, shutting_down, autostart).len(),
        0 <= j < menu(st, shutting_down, autostart).len(),
        can_be_chosen(menu(st, shutting_down, autostart)[i]),
        can_be_chosen(menu(st, shutting_down, autostart)[j]),
        i != j,
    ensures
        command_of(menu(st, shutting_down, autostart)[i].id) != Command::Dismiss,
        command_of(menu(st, shutting_down, autostart)[i].id) != command_of(
            menu(st, shutting_down, autostart)[j].id,
        ),
{
    lemma_flags();
}

/// A shutdown can be chosen exactly while the VM runs and none is under way.
pub proof fn shutdown_can_be_chosen(st: Status, shutting_down: bool, autostart: bool)
    ensures
        (exists|i: int|
            0 <= i < menu(st, shutting_down, autostart).len() && command_of(
                (#[trigger] menu(st, shutting_down, autostart)[i]).id,
            ) == Command::Shutdown && can_be_chosen(menu(st, shutting_down, autostart)[i])) == (
        st.running && !shutting_down),
{
    lemma_flags();
    let m = menu(st, shutting_down, autostart);
    let k = status_items(st).len() + 1;
    assert(m[k as int] == shutdown_item(st.running, shutting_down));
}

/// While a menu or a dialog is up, no message opens another menu, and a tray event that asks for
/// one brings the dialog to the front.
pub proof fn one_menu_at_a_time(a: App, msg: u32, wparam: usize, lparam: isize)
    requires
        a.menu_open,
    ensures
        a.act(msg, wparam, lparam) != Some(Act::ShowMenu),
        msg == WM_TRAY_CALLBACK && asks_for_menu(low_word(lparam)) ==> a.act(msg, wparam, lparam)
            == Some(Act::RaisePopup),
{
}

/// What has happened since a tray event asked for the menu.
#[derive(Clone, Copy, Debug, PartialEq, Eq, Structural)]
pub enum MenuEvent {
    /// The menu is asked for.
    Asked,
    /// The numbers have been sampled.
    Polled,
    /// The menu was closed, with the id of the chosen item (0 if it was dismissed); `None` if the
    /// menu could not be created.
    Chosen(Option<usize>),
    /// The chosen command, with any dialog it shows, has finished.
    Finished,
}

/// What showing the menu does next.
#[derive(Clone, Copy, Debug, PartialEq, Eq, Structural)]
pub enum MenuStep {
    /// Nothing: a menu, or a dialog it launched, is up already.
    Leave,
    /// Sample, so the menu shows the present rather than the last interval.
    Poll,
    /// Show the menu and wait for a choice.
    Popup,
    /// Run this command.
    Run(Command),
    /// Finished.
    Return,
}

/// What follows `e` while the guard is `open`, and the guard after it.
pub open spec fn menu_follows(open: bool, e: MenuEvent) -> (MenuStep, bool) {
    match e {
        MenuEvent::Asked => (if open {
            MenuStep::Leave
        } else {
            MenuStep::Poll
        }, true),
        MenuEvent::Polled => (MenuStep::Popup, open),
        MenuEvent::Chosen(None) => (MenuStep::Return, false),
        MenuEvent::Chosen(Some(id)) => (MenuStep::Run(command_of(id)), open),
        MenuEvent::Finished => (MenuStep::Return, false),
    }
}

impl App {
    /// Shows the menu: to be called with `MenuEvent::Asked` first and then with what came of each
    /// step, until a step returns. The guard is held until the chosen command (including any
    /// dialog it shows) has finished.
    pub fn show_menu(&mut self, e: MenuEvent) -> (step: MenuStep)
        requires
            old(self).wf(),
        ensures
            final(self).wf(),
            step == menu_follows(old(self).menu_open, e).0,
            *final(self) == (App {
                menu_open: menu_follows(old(self).menu_open, e).1,
                ..*old(self)
            }),
    {
        match e {
            MenuEvent::Asked => if self.open_menu() {
                MenuStep::Poll
            } else {
                MenuStep::Leave
            },
            MenuEvent::Polled => MenuStep::Popup,
            MenuEvent::Chosen(None) => {
                self.close_menu();
                MenuStep::Return
            },
            MenuEvent::Chosen(Some(id)) => MenuStep::Run(menu_command(id)),
            MenuEvent::Finished => {
                self.close_menu();
                MenuStep::Return
            },
        }
    }
}

/// A moment of showing the menu: the guard before it, what happened, what is done next, the guard
/// after it.
pub struct MenuMoment {
    pub before: bool,
    pub event: MenuEvent,
    pub next: MenuStep,
    pub after: bool,
}

/// `e` is what can come of `step`.
pub open spec fn comes_of(step: MenuStep, e: MenuEvent) -> bool {
    match step {
        MenuStep::Poll => e is Polled,
        MenuStep::Popup => e is Chosen,
        MenuStep::Run(_) => e is Finished,
        _ => false,
    }
}

/// `run` shows the menu once, from the event that asks for it on. Other messages that arrive
/// meanwhile leave the guard as it is ([`App::handle`] and the others keep it, and so does asking
/// for the menu again).
pub open spec fn is_menu_run(run: Seq<MenuMoment>) -> bool {
    &&& run.len() > 0
    &&& run[0].event == MenuEvent::Asked
    &&& forall|k: int|
        0 <= k < run.len() ==> ((#[trigger] run[k]).next, run[k].after) == menu_follows(
            run[k].before,
            run[k].event,
        )
    &&& forall|k: int|
        0 < k < run.len() ==> (#[trigger] run[k]).before == run[k - 1].after && comes_of(
            run[k - 1].next,
            run[k].event,
        )
}

proof fn lemma_menu_run(run: Seq<MenuMoment>, k: int)
    requires
        is_menu_run(run),
        !run[0].before,
        0 <= k < run.len(),
    ensures
        k > 0 ==> run[k].before,
        run[k].next != MenuStep::Leave,
        run[k].after == (run[k].next != MenuStep::Return),
        run[k].event == MenuEvent::Asked ==> k == 0,
    decreases k,
{
    if k > 0 {
        lemma_menu_run(run, k - 1);
        assert(comes_of(run[k - 1].next, run[k].event));
    }
}

/// The menu's guard over a whole run. If it was set, nothing is polled, shown or run, and it stays
/// set. Otherwise it is set from before the poll on, through the poll, the menu and the command,
/// and is clear again exactly when the run returns, also when the menu could not be created.
pub proof fn menu_guard_spans_the_run(run: Seq<MenuMoment>)
    requires
        is_menu_run(run),
    ensures
        run[0].before ==> run.len() == 1 && run[0].next == MenuStep::Leave && run[0].after,
        !run[0].before ==> forall|k: int|
            0 <= k < run.len() ==> (k > 0 ==> (#[trigger] run[k]).before) && run[k].next
                != MenuStep::Leave && run[k].after == (run[k].next != MenuStep::Return),
{
    if run[0].before {
        assert(run[0].next == MenuStep::Leave);
        if run.len() > 1 {
            assert(comes_of(run[1 - 1].next, run[1].event));
        }
    } else {
        assert forall|k: int| 0 <= k < run.len() implies (k > 0 ==> (#[trigger] run[k]).before)
            && run[k].next != MenuStep::Leave && run[k].after == (run[k].next
            != MenuStep::Return) by {
            lemma_menu_run(run, k);
        }
    }
}

/// A run goes through the poll, the menu and the command in this order: each step is followed by
/// what came of it, and the run is over after at most four of them.
pub proof fn menu_run_is_in_order(run: Seq<MenuMoment>)
    requires
        is_menu_run(run),
        !run[0].before,
    ensures
        run.len() <= 4,
        run[0].next == MenuStep::Poll,
        run.len() > 1 ==> run[1].next == MenuStep::Popup,
        run.len() > 2 ==> run[2].next == (match run[2].event {
            MenuEvent::Chosen(Some(id)) => MenuStep::Run(command_of(id)),
            _ => MenuStep::Return,
        }),
        run.len() > 3 ==> run[3].next == MenuStep::Return,
{
    assert(run[0].next == MenuStep::Poll);
    if run.len() > 1 {
        assert(comes_of(run[1 - 1].next, run[1].event));
    }
    if run.len() > 2 {
        assert(comes_of(run[2 - 1].next, run[2].event));
    }
    if run.len() > 3 {
        assert(comes_of(run[3 - 1].next, run[3].event));
    }
    if run.len() > 4 {
        assert(comes_of(run[4 - 1].next, run[4].event));
    }
}

/// Once the icon is drawn as asked for, there is nothing to draw until the level changes.
pub proof fn drawn_icon_is_kept(a: App, st: Status, next: Status)
    requires
        a.wf(),
        a.to_draw(st) is Some,
    ensures
        ({
            let b = a.drawn(a.to_draw(st)->0);
            b.to_draw(next) is None <==> level_of(next, a.settings) == level_of(st, a.settings)
        }),
{
}

} // verus!
