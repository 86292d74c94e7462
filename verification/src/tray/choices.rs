//! Laws of the popup menu: what can be chosen in it, and what its items say.
use vstd::prelude::*;
use vstd::string::*;

use crate::display::stats_text;
use crate::status::Status;
use crate::win32::{MF_CHECKED, MF_GRAYED, MF_SEPARATOR, MF_STRING};

use super::{
    can_be_chosen, command_of, items_of, lemma_flags, menu, shutdown_item, status_items, Command,
    Item, MenuItem,
};

verus! {

/// Item `i` of the menu can be chosen, and doing so runs `c`.
pub open spec fn offers(m: Seq<Item>, i: int, c: Command) -> bool {
    0 <= i < m.len() && can_be_chosen(m[i]) && command_of(m[i].id) == c
}

/// The commands that are there whatever the VM does.
pub open spec fn is_always_there(c: Command) -> bool {
    c == Command::Refresh || c == Command::ToggleAutostart || c == Command::EditSettings || c
        == Command::OpenCoffee || c == Command::Exit
}

/// What the item for a command says.
pub open spec fn says(c: Command, text: Seq<char>) -> bool {
    match c {
        Command::Shutdown => text == "&Shut down WSL2"@,
        Command::Refresh => text == "&Refresh now"@,
        Command::ToggleAutostart => text == "Start with &Windows"@,
        Command::EditSettings => text == "S&ettings..."@,
        Command::OpenCoffee => text == "Buy me a &coffee"@,
        Command::Exit => text == "E&xit"@,
        Command::Dismiss => false,
    }
}

/// Where the item for a command stands, behind the status lines.
spec fn place_of(c: Command) -> int {
    match c {
        Command::Shutdown => 1,
        Command::Refresh => 2,
        Command::ToggleAutostart => 4,
        Command::EditSettings => 5,
        Command::OpenCoffee => 6,
        Command::Exit => 8,
        Command::Dismiss => -1,
    }
}

/// Refresh, autostart, settings, coffee and exit can be chosen in every menu, each in exactly one
/// place: whatever the VM does, whether or not it is being shut down, and whether or not the
/// program starts with Windows.
pub proof fn commands_are_always_there(
    st: Status,
    shutting_down: bool,
    autostart: bool,
    c: Command,
)
    requires
        is_always_there(c),
    ensures
        exists|i: int| #[trigger] offers(menu(st, shutting_down, autostart), i, c),
        forall|i: int, j: int|
            #[trigger] offers(menu(st, shutting_down, autostart), i, c) && #[trigger] offers(
                menu(st, shutting_down, autostart),
                j,
                c,
            ) ==> i == j,
{
    lemma_flags();
    let m = menu(st, shutting_down, autostart);
    let k = status_items(st).len() + place_of(c);
    assert(offers(m, k, c));
}

/// Every item that can be chosen says what it does; and what a command says stands nowhere but in
/// the item of that command.
pub proof fn items_do_what_they_say(
    st: Status,
    shutting_down: bool,
    autostart: bool,
    i: int,
    c: Command,
)
    requires
        0 <= i < menu(st, shutting_down, autostart).len(),
    ensures
        ({
            let item = menu(st, shutting_down, autostart)[i];
            &&& can_be_chosen(item) ==> says(command_of(item.id), item.text)
            &&& command_of(item.id) != Command::Dismiss ==> says(command_of(item.id), item.text)
                || (shutting_down && item.text == "Shutting down..."@ && command_of(item.id)
                == Command::Shutdown)
            &&& says(c, item.text) && i >= status_items(st).len() ==> command_of(item.id) == c
        }),
{
    lemma_flags();
    lemma_lengths();
    let m = menu(st, shutting_down, autostart);
    let k = i - status_items(st).len();
}

/// The texts of the commands differ, as their lengths do.
proof fn lemma_lengths()
    ensures
        ""@.len() == 0,
        "E&xit"@.len() == 5,
        "S&ettings..."@.len() == 12,
        "&Refresh now"@.len() == 12,
        "&Refresh now"@[0] == '&',
        "S&ettings..."@[0] == 'S',
        "&Shut down WSL2"@.len() == 15,
        "Shutting down..."@.len() == 16,
        "Shutting down..."@[0] == 'S',
        "Buy me a &coffee"@.len() == 16,
        "Buy me a &coffee"@[0] == 'B',
        "Start with &Windows"@.len() == 19,
{
    reveal_strlit("");
    reveal_strlit("E&xit");
    reveal_strlit("S&ettings...");
    reveal_strlit("&Refresh now");
    reveal_strlit("&Shut down WSL2");
    reveal_strlit("Shutting down...");
    reveal_strlit("Buy me a &coffee");
    reveal_strlit("Start with &Windows");
}

/// There is one item for shutting down in every menu. It can be chosen exactly while the VM runs
/// and is not being shut down, and says so while it is.
pub proof fn shutdown_item_shows_the_state(
    st: Status,
    shutting_down: bool,
    autostart: bool,
    i: int,
    j: int,
)
    requires
        0 <= i < menu(st, shutting_down, autostart).len(),
        0 <= j < menu(st, shutting_down, autostart).len(),
        command_of(menu(st, shutting_down, autostart)[i].id) == Command::Shutdown,
        command_of(menu(st, shutting_down, autostart)[j].id) == Command::Shutdown,
    ensures
        i == j,
        can_be_chosen(menu(st, shutting_down, autostart)[i]) <==> st.running && !shutting_down,
        menu(st, shutting_down, autostart)[i].text == "Shutting down..."@ <==> shutting_down,
        menu(st, shutting_down, autostart)[i].text == "&Shut down WSL2"@ <==> !shutting_down,
{
    lemma_flags();
    lemma_lengths();
    let m = menu(st, shutting_down, autostart);
    let k = status_items(st).len() + place_of(Command::Shutdown);
    assert(m[k] == shutdown_item(st.running, shutting_down));
    assert(i == k && j == k);
}

/// The check mark stands before "Start with Windows" exactly while autostart is on, and nowhere
/// else.
pub proof fn check_mark_shows_autostart(
    st: Status,
    shutting_down: bool,
    autostart: bool,
    i: int,
)
    requires
        0 <= i < menu(st, shutting_down, autostart).len(),
    ensures
        menu(st, shutting_down, autostart)[i].flags & MF_CHECKED != 0 <==> autostart && command_of(
            menu(st, shutting_down, autostart)[i].id,
        ) == Command::ToggleAutostart,
{
    assert(MF_SEPARATOR & MF_CHECKED == 0 && MF_STRING & MF_CHECKED == 0 && (MF_STRING | MF_GRAYED)
        & MF_CHECKED == 0 && (MF_STRING | 0) & MF_CHECKED == 0 && (MF_STRING | MF_CHECKED)
        & MF_CHECKED != 0) by (bit_vector);
    let k = i - status_items(st).len();
}

/// The menu begins with whether the VM runs, and below that, while it does, its numbers; these
/// lines cannot be chosen, and the rest of the menu is the same whatever the numbers are.
pub proof fn status_stands_first(
    st: Status,
    other: Status,
    shutting_down: bool,
    autostart: bool,
    i: int,
)
    ensures
        ({
            let m = menu(st, shutting_down, autostart);
            let n = menu(other, shutting_down, autostart);
            &&& m[0].text == "WSL2 is running"@ <==> st.running
            &&& m[0].text == "WSL2 is stopped"@ <==> !st.running
            &&& !can_be_chosen(m[0])
            &&& st.running ==> m[1].text == stats_text(st) && !can_be_chosen(m[1])
            &&& st.running == other.running && m.len() == n.len() && 0 <= i < m.len() && m[i] != n[i]
                ==> i == 1 && st.running
            &&& st.running == other.running ==> m.len() == n.len()
        }),
{
    lemma_flags();
    reveal_strlit("WSL2 is running");
    reveal_strlit("WSL2 is stopped");
    assert("WSL2 is running"@[8] == 'r' && "WSL2 is stopped"@[8] == 's');
}

/// How far down a command stands.
pub open spec fn rank(c: Command) -> int {
    match c {
        Command::Shutdown => 1,
        Command::Refresh => 2,
        Command::ToggleAutostart => 3,
        Command::EditSettings => 4,
        Command::OpenCoffee => 5,
        Command::Exit => 6,
        Command::Dismiss => 0,
    }
}

/// The commands stand in one order in every menu: what concerns the VM first, then the program's
/// own, and at the very end the way out. Separators stand neither first nor beside each other.
pub proof fn commands_stand_in_order(
    st: Status,
    shutting_down: bool,
    autostart: bool,
    i: int,
    j: int,
)
    requires
        0 <= i < j < menu(st, shutting_down, autostart).len(),
    ensures
        ({
            let m = menu(st, shutting_down, autostart);
            let (c, d) = (command_of(m[i].id), command_of(m[j].id));
            &&& c != Command::Dismiss && d != Command::Dismiss ==> rank(c) < rank(d)
            &&& command_of(m.last().id) == Command::Exit
            &&& m[0].flags != MF_SEPARATOR
            &&& j == i + 1 ==> m[i].flags != MF_SEPARATOR || m[j].flags != MF_SEPARATOR
        }),
{
    assert(MF_STRING | MF_GRAYED != MF_SEPARATOR && MF_STRING != MF_SEPARATOR) by (bit_vector);
    assert(MF_STRING | 0 != MF_SEPARATOR && MF_STRING | MF_CHECKED != MF_SEPARATOR)
        by (bit_vector);
}

/// The items of a menu are its entries, in order.
pub proof fn items_are_the_entries(v: Seq<MenuItem>, i: int)
    requires
        0 <= i < v.len(),
    ensures
        items_of(v).len() == v.len(),
        items_of(v)[i].flags == v[i].flags,
        items_of(v)[i].id == v[i].id,
        items_of(v)[i].text == v[i].text@,
{
}

/// A dismissed menu runs nothing, and no two ids run the same command.
pub proof fn ids_stand_for_commands(a: usize, b: usize)
    ensures
        command_of(0) == Command::Dismiss,
        command_of(a) == command_of(b) && command_of(a) != Command::Dismiss ==> a == b,
{
}

} // verus!
