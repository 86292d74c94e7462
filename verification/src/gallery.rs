//! Sample pictures of the icon, one for every state and size, for a visual check.
use vstd::prelude::*;
use vstd::string::*;

use crate::icon::Level;
use crate::text::{decimal, push_decimal};

pub mod names;

verus! {

/// A picture to draw: the icon's edge length, its state, and the name of the file.
#[derive(Debug)]
pub struct Picture {
    pub size: usize,
    pub level: Level,
    pub file: String,
}

/// The tray sizes, and two larger ones.
pub open spec fn sizes() -> Seq<usize> {
    seq![16, 20, 24, 32, 48, 256]
}

pub open spec fn levels() -> Seq<Level> {
    seq![Level::Off, Level::Normal, Level::Warn, Level::High]
}

/// What a file name calls a state.
pub open spec fn state_text(lv: Level) -> Seq<char> {
    match lv {
        Level::Off => "off"@,
        Level::Normal => "ok"@,
        Level::Warn => "warn"@,
        Level::High => "high"@,
    }
}

/// `icon-<size>-<state>.png`.
pub open spec fn file_text(size: usize, lv: Level) -> Seq<char> {
    "icon-"@ + decimal(size as nat) + "-"@ + state_text(lv) + ".png"@
}

/// `p` is the picture of this size and state.
pub open spec fn is_picture(p: Picture, size: usize, lv: Level) -> bool {
    p.size == size && p.level == lv && p.file@ == file_text(size, lv)
}

fn state_name(lv: Level) -> (s: &'static str)
    ensures
        s@ == state_text(lv),
{
    match lv {
        Level::Off => "off",
        Level::Normal => "ok",
        Level::Warn => "warn",
        Level::High => "high",
    }
}

/// The picture of this size and state.
fn picture(size: usize, level: Level) -> (p: Picture)
    ensures
        is_picture(p, size, level),
{
    let mut file = String::new();
    file.append("icon-");
    push_decimal(&mut file, size as u128);
    file.append("-");
    file.append(state_name(level));
    file.append(".png");
    assert(file@ =~= file_text(size, level));
    Picture { size, level, file }
}

/// All pictures: every state at the tray sizes, 48 px and 256 px, size by size.
pub fn render_test() -> (v: Vec<Picture>)
    ensures
        v@.len() == 24,
        forall|n: int|
            0 <= n < 24 ==> is_picture(#[trigger] v@[n], sizes()[n / 4], levels()[n % 4]),
{
    let all: [usize; 6] = [16, 20, 24, 32, 48, 256];
    let mut v: Vec<Picture> = Vec::new();
    let mut i: usize = 0;
    assert(all@ =~= sizes());
    while i < 6
        invariant
            i <= 6,
            all@ == sizes(),
            v@.len() == 4 * i,
            forall|n: int|
                0 <= n < 4 * i ==> is_picture(#[trigger] v@[n], sizes()[n / 4], levels()[n % 4]),
        decreases 6 - i,
    {
        let size: usize = all[i];
        v.push(picture(size, Level::Off));
        v.push(picture(size, Level::Normal));
        v.push(picture(size, Level::Warn));
        v.push(picture(size, Level::High));
        i += 1;
    }
    v
}

} // verus!
