//! Numbers of the Windows interface that the logic reads or produces.
use vstd::prelude::*;

verus! {

// Window styles.
pub const WS_POPUP: u32 = 0x8000_0000;

pub const WS_CHILD: u32 = 0x4000_0000;

pub const WS_VISIBLE: u32 = 0x1000_0000;

pub const WS_CAPTION: u32 = 0x00C0_0000;

pub const WS_BORDER: u32 = 0x0080_0000;

pub const WS_SYSMENU: u32 = 0x0008_0000;

pub const WS_GROUP: u32 = 0x0002_0000;

pub const WS_TABSTOP: u32 = 0x0001_0000;

pub const WS_EX_APPWINDOW: u32 = 0x0004_0000;

// Styles of dialogs and their controls.
pub const DS_SETFONT: u32 = 0x40;

pub const DS_CENTER: u32 = 0x800;

pub const BS_PUSHBUTTON: u32 = 0;

pub const BS_DEFPUSHBUTTON: u32 = 1;

pub const BS_GROUPBOX: u32 = 7;

pub const ES_AUTOHSCROLL: u32 = 0x80;

pub const ES_NUMBER: u32 = 0x2000;

pub const SS_LEFT: u32 = 0;

pub const UDS_SETBUDDYINT: u32 = 2;

pub const UDS_ALIGNRIGHT: u32 = 4;

pub const UDS_AUTOBUDDY: u32 = 0x10;

pub const UDS_ARROWKEYS: u32 = 0x20;

pub const FW_NORMAL: u32 = 400;

pub const DEFAULT_CHARSET: u8 = 1;

// Messages.
pub const WM_DESTROY: u32 = 0x2;

pub const WM_CLOSE: u32 = 0x10;

pub const WM_CONTEXTMENU: u32 = 0x7B;

pub const WM_INITDIALOG: u32 = 0x110;

pub const WM_COMMAND: u32 = 0x111;

pub const WM_TIMER: u32 = 0x113;

pub const WM_APP: u32 = 0x8000;

pub const NIN_SELECT: u32 = 0x400;

/// Keyboard activation of a tray icon (Enter/Space).
pub const NIN_KEYSELECT: u32 = 0x401;

// Menu item flags.
pub const MF_STRING: u32 = 0;

pub const MF_GRAYED: u32 = 1;

pub const MF_CHECKED: u32 = 8;

pub const MF_SEPARATOR: u32 = 0x800;

// Buttons of dialogs and message boxes.
pub const IDOK: i32 = 1;

pub const IDCANCEL: i32 = 2;

pub const IDYES: i32 = 6;

// Registry value types.
pub const REG_SZ: u32 = 1;

pub const REG_EXPAND_SZ: u32 = 2;

pub const REG_DWORD: u32 = 4;

} // verus!
