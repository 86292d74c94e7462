//! Laws of the tray program's decisions: what messages and answers lead to, and when.
use vstd::prelude::*;
use vstd::string::*;

use crate::icon::{level_of, Level};
use crate::settings::Settings;
use crate::status::Status;
use crate::text::decimal;
use crate::text::reading::{ends_telling, tells};
use crate::win32::{
    IDYES, NIN_KEYSELECT, NIN_SELECT, WM_APP, WM_CLOSE, WM_CONTEXTMENU, WM_DESTROY, WM_TIMER,
};

use super::{
    edge_length, input_age, is_idle, low_word, menu_follows, not_saved_text, period, poll_request,
    tolerance, url_failure, window_failure, Act, App, MenuEvent, MenuStep, PROMOTE_TRIES,
    TIMER_POLL, WM_REFRESH_NOW, WM_TRAY_CALLBACK,
};

verus! {

/// The program's own messages are told apart from each other and from the system's.
pub proof fn messages_differ()
    ensures
        WM_TRAY_CALLBACK != WM_REFRESH_NOW,
        WM_TRAY_CALLBACK >= WM_APP && WM_REFRESH_NOW >= WM_APP,
        WM_TIMER < WM_APP && WM_CLOSE < WM_APP && WM_DESTROY < WM_APP,
{
}

/// Each thing is done on its own message and on no other: the menu is shown on a click or a key at
/// the tray icon (or what is up already is brought to the front), the timer's poll is made on the
/// poll timer, a refresh on the end of a shutdown, the window is destroyed when it is closed, the
/// program ends when it is destroyed, and the icon is added again when there is a new taskbar.
pub proof fn every_act_has_its_message(a: App, msg: u32, wparam: usize, lparam: isize)
    ensures
        a.act(msg, wparam, lparam) == Some(Act::ShowMenu) <==> msg == WM_TRAY_CALLBACK && (low_word(
            lparam,
        ) == WM_CONTEXTMENU || low_word(lparam) == NIN_SELECT || low_word(lparam)
            == NIN_KEYSELECT) && !a.menu_open,
        a.act(msg, wparam, lparam) == Some(Act::RaisePopup) <==> msg == WM_TRAY_CALLBACK && (
        low_word(lparam) == WM_CONTEXTMENU || low_word(lparam) == NIN_SELECT || low_word(lparam)
            == NIN_KEYSELECT) && a.menu_open,
        a.act(msg, wparam, lparam) == Some(Act::Pass) <==> (msg == WM_TRAY_CALLBACK && low_word(
            lparam,
        ) != WM_CONTEXTMENU && low_word(lparam) != NIN_SELECT && low_word(lparam)
            != NIN_KEYSELECT) || (msg == WM_TIMER && wparam != TIMER_POLL),
        a.act(msg, wparam, lparam) == Some(Act::TimerTick) <==> msg == WM_TIMER && wparam
            == TIMER_POLL,
        a.act(msg, wparam, lparam) == Some(Act::Refresh) <==> msg == WM_REFRESH_NOW,
        a.act(msg, wparam, lparam) == Some(Act::Close) <==> msg == WM_CLOSE,
        a.act(msg, wparam, lparam) == Some(Act::Quit) <==> msg == WM_DESTROY,
        a.act(msg, wparam, lparam) == Some(Act::AddIcon) ==> msg == a.taskbar_created && msg != 0,
        a.taskbar_created >= 0xC000 && msg == a.taskbar_created ==> a.act(msg, wparam, lparam)
            == Some(Act::AddIcon),
        a.act(msg, wparam, lparam) is None ==> msg != WM_TRAY_CALLBACK && msg != WM_TIMER && msg
            != WM_REFRESH_NOW && msg != WM_CLOSE && msg != WM_DESTROY,
{
}

/// The parameters of a message matter only where it has some: the first one for a timer, the low
/// half of the second for a tray event.
pub proof fn only_own_parameters_count(
    a: App,
    msg: u32,
    wparam: usize,
    lparam: isize,
    other: usize,
    another: isize,
)
    ensures
        msg != WM_TIMER ==> a.act(msg, wparam, lparam) == a.act(msg, other, lparam),
        msg != WM_TRAY_CALLBACK || low_word(lparam) == low_word(another) ==> a.act(
            msg,
            wparam,
            lparam,
        ) == a.act(msg, wparam, another),
{
}

/// The low half of a parameter is all that is left of it without multiples of 65536.
pub proof fn low_half_is_what_is_left(lparam: isize, k: int, event: int)
    requires
        0 <= event < 0x1_0000,
        lparam == 0x1_0000 * k + event,
    ensures
        low_word(lparam) == event,
{
}

/// A message changes nothing but this: the end of a shutdown ends it, and the end of the window
/// destroys the icon.
pub proof fn messages_keep_the_state(a: App, msg: u32, wparam: usize, lparam: isize)
    ensures
        ({
            let b = a.handled(a.act(msg, wparam, lparam));
            &&& msg == WM_REFRESH_NOW ==> !b.shutting_down
            &&& msg != WM_REFRESH_NOW ==> b.shutting_down == a.shutting_down
            &&& msg == WM_DESTROY ==> !b.has_icon
            &&& msg != WM_DESTROY ==> b.has_icon == a.has_icon
            &&& b.menu_open == a.menu_open && b.settings == a.settings && b.last_level
                == a.last_level && b.taskbar_created == a.taskbar_created
            &&& b.promoted == a.promoted && b.promote_tries == a.promote_tries && b.has_path
                == a.has_path
        }),
{
}

/// A shutdown starts only with a yes, and only once: while one is under way no answer starts
/// another, until the message that it has ended.
pub proof fn shutdown_starts_once(a: App, answer: i32, again: i32, msg: u32, w: usize, l: isize)
    ensures
        a.shuts_down(answer) ==> answer == IDYES && !a.shutting_down,
        !a.shutting_down && answer == IDYES ==> a.shuts_down(answer) && a.answered(
            answer,
        ).shutting_down,
        !a.shuts_down(answer) ==> a.answered(answer) == a,
        a.shuts_down(answer) ==> !a.answered(answer).shuts_down(again),
        a.shuts_down(answer) ==> a.answered(answer).handled(
            a.answered(answer).act(msg, w, l),
        ).shuts_down(again) == (msg == WM_REFRESH_NOW && again == IDYES),
{
}

/// Thresholds change only where the dialog was confirmed, and then to what it held; the icon is
/// coloured by them from then on.
pub proof fn confirmed_thresholds_apply(a: App, s: Settings, st: Status)
    requires
        a.wf(),
        s.valid(),
    ensures
        a.edited(true, s).settings == s,
        a.edited(false, s) == a,
        a.edited(true, a.settings) == a,
        a.has_icon && a.last_level == Some(level_of(st, a.settings)) ==> (a.edited(true, s).to_draw(
            st,
        ) is None <==> level_of(st, s) == level_of(st, a.settings)),
        a.edited(true, s).wf(),
{
}

/// The state after `n` rounds of deciding whether to promote the icon and trying it without
/// success.
pub open spec fn after_failures(a: App, n: nat) -> App
    decreases n,
{
    if n == 0 {
        a
    } else {
        let b = after_failures(a, (n - 1) as nat);
        if b.promotes() {
            b.trying().tried(false)
        } else {
            b.trying()
        }
    }
}

proof fn lemma_failures(a: App, n: nat)
    requires
        a.wf(),
    ensures
        after_failures(a, n).wf(),
        after_failures(a, n).has_path == a.has_path,
        after_failures(a, n).promoted == a.promoted,
        a.promotes() ==> after_failures(a, n).promote_tries == (if a.promote_tries + n
            <= PROMOTE_TRIES {
            a.promote_tries + n
        } else {
            PROMOTE_TRIES as int
        }),
        !a.promotes() ==> after_failures(a, n) == a,
    decreases n,
{
    if n > 0 {
        lemma_failures(a, (n - 1) as nat);
    }
}

/// Promotion is tried until it succeeds, seven times at most: of a new icon whose
/// program's path is known exactly that often where no attempt succeeds, and never again once one
/// has, nor without the path.
pub proof fn promotion_is_given_up(a: App, n: nat)
    requires
        a.wf(),
        a.promote_tries == 0,
    ensures
        after_failures(a, n).promotes() <==> n < 7 && a.has_path && !a.promoted,
        !a.trying().tried(true).promotes(),
        a.has_path && !a.promoted ==> a.promotes(),
        !a.has_path ==> !a.promotes() && a.trying() == a,
{
    lemma_failures(a, n);
    if !a.promotes() {
        assert(after_failures(a, n) == a);
    }
}

/// The icon is updated after a change, and as long as there is none.
pub proof fn missing_icon_is_drawn(a: App, st: Status, lv: Level)
    requires
        a.wf(),
    ensures
        a.updates(true),
        !a.has_icon ==> a.updates(false) && a.to_draw(st) == Some(level_of(st, a.settings)),
        a.has_icon ==> !a.updates(false),
        !a.drawn(lv).updates(false),
        a.drawn(lv).to_draw(st) == (if lv == level_of(st, a.settings) {
            None
        } else {
            Some(level_of(st, a.settings))
        }),
        a.drawn(lv).wf(),
{
}

/// A poll that is asked for is never relaxed; one that is not is relaxed exactly while nobody is
/// at the machine. It keeps its time and whether it is asked for.
pub proof fn asked_polls_are_not_relaxed(now: u64, force: bool, idle: bool)
    ensures
        poll_request(now, force, idle).now == now,
        poll_request(now, force, idle).force == force,
        force ==> !poll_request(now, force, idle).relaxed,
        !force ==> poll_request(now, force, idle).relaxed == idle,
{
}

/// Nobody is at the machine once two minutes have passed since the last input, also where the
/// tick count has wrapped in between; and where the last input is not known, somebody is.
pub proof fn idle_counts_from_the_last_input(ok: i32, last_input: u32, passed: u32)
    ensures
        ({
            let ticks = ((last_input + passed) % 0x1_0000_0000) as u32;
            &&& input_age(ticks, last_input) == passed
            &&& is_idle(ok, ticks, last_input) <==> ok != 0 && passed >= 2 * 60 * 1000
        }),
        !is_idle(0, passed, last_input),
{
    let t = (last_input + passed) % 0x1_0000_0000;
    assert(0 <= t < 0x1_0000_0000);
    assert(t as u32 == t);
    assert(t == last_input + passed || t == last_input + passed - 0x1_0000_0000);
}

/// The timer's period is the poll interval in whole milliseconds, where that fits; it may fire late
/// by a fifth of it, but no less than a millisecond and no more than a second, and a longer period
/// never has less tolerance.
pub proof fn timer_keeps_the_interval(poll: u64, longer: u64)
    requires
        poll <= longer,
        longer < 1_000_000 * 0x1_0000_0000,
    ensures
        1_000_000 * period(poll) <= poll < 1_000_000 * (period(poll) + 1),
        period(poll) <= period(longer),
        1 <= tolerance(period(poll)) <= 1000,
        tolerance(period(poll)) <= tolerance(period(longer)),
        5 <= period(poll) < 5005 ==> 5 * tolerance(period(poll)) <= period(poll) < 5 * tolerance(
            period(poll),
        ) + 5,
        period(poll) >= 5000 ==> tolerance(period(poll)) == 1000,
{
}

/// The icon is as large as the system's small icons, and no smaller than 16 pixels.
pub proof fn icon_has_the_system_size(metric: i32)
    ensures
        edge_length(metric) >= 16,
        edge_length(metric) >= metric,
        edge_length(metric) == 16 || edge_length(metric) == metric,
        metric >= 16 ==> edge_length(metric) == metric,
{
}

/// An answer of 32 or less is a failure, which is told with the address and the answer.
pub proof fn url_failures_are_told(url: Seq<char>, answer: nat)
    ensures
        url_failure(url, answer) is Some <==> answer <= 32,
        url_failure(url, answer) matches Some(text) ==> tells(
            text,
            "cannot open "@,
            url + " (error "@,
        ) && ends_telling(text, " (error "@, decimal(answer) + ")"@),
{
    if let Some(text) = url_failure(url, answer) {
        let none = Seq::<char>::empty();
        let after = decimal(answer) + ")"@;
        assert(text =~= none + "cannot open "@ + (url + " (error "@) + after);
        let before = "cannot open "@ + url;
        assert(text =~= before + " (error "@ + after);
    }
}

/// What failed is told: the reason why settings were not stored comes first, and a call is told
/// with its name and the code.
pub proof fn failures_are_told(e: Seq<char>, call: Seq<char>, code: nat)
    ensures
        not_saved_text(e).len() > e.len(),
        not_saved_text(e).take(e.len() as int) == e,
        window_failure(call, code).take(call.len() as int) == call,
        ends_telling(window_failure(call, code), " failed ("@, decimal(code) + ")"@),
{
    reveal_strlit("\n\nThe new thresholds apply until the program exits.");
    assert(not_saved_text(e).take(e.len() as int) =~= e);
    let text = window_failure(call, code);
    assert(text.take(call.len() as int) =~= call);
    assert(text =~= call + " failed ("@ + (decimal(code) + ")"@));
}

/// At the start there is no icon and nothing up: the icon is drawn after the first poll whether or
/// not anything changed, the menu can be opened, and a shutdown can be asked for.
pub proof fn everything_is_open_at_the_start(settings: Settings, has_path: bool, st: Status)
    ensures
        ({
            let a = App::at_start(settings, has_path);
            &&& a.updates(false) && a.to_draw(st) == Some(level_of(st, settings))
            &&& menu_follows(a.menu_open, MenuEvent::Asked).0 == MenuStep::Poll
            &&& a.may_ask() && a.shuts_down(IDYES)
            &&& a.promotes() == has_path
            &&& a.settings == settings
        }),
{
}

/// The icon is added again on the message that a new Explorer instance broadcasts, and nothing
/// else changes by knowing it. A shutdown may be asked for exactly while a yes would start one.
pub proof fn new_taskbar_gets_the_icon(a: App, msg: u32, wparam: usize, lparam: isize)
    requires
        msg >= 0xC000,
    ensures
        a.listening(msg).act(msg, wparam, lparam) == Some(Act::AddIcon),
        a.listening(msg).listening(a.taskbar_created) == a,
        a.may_ask() <==> a.shuts_down(IDYES),
{
}

/// The menu's guard is set by asking for the menu and cleared by nothing but its end; asking again
/// meanwhile leads to nothing.
pub proof fn guard_is_cleared_at_the_end(open: bool, e: MenuEvent)
    ensures
        menu_follows(open, MenuEvent::Asked).1,
        menu_follows(true, MenuEvent::Asked).0 == MenuStep::Leave,
        menu_follows(false, MenuEvent::Asked).0 == MenuStep::Poll,
        open && !menu_follows(open, e).1 ==> e == MenuEvent::Finished || e == MenuEvent::Chosen(
            None,
        ),
        menu_follows(open, e).0 == MenuStep::Return <==> e == MenuEvent::Finished || e
            == MenuEvent::Chosen(None),
{
}

} // verus!
