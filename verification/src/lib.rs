//! Logic of a WSL2 tray indicator: sampling decisions, icon rendering, settings and texts.
pub mod argv;
pub mod bytes;
pub mod digits;
pub mod display;
pub mod double;
pub mod duration;
pub mod gallery;
pub mod glyph;
pub mod grid;
pub mod icon;
pub mod log;
pub mod monitor;
pub mod options;
pub mod percent;
pub mod png;
pub mod registry;
pub mod resample;
pub mod settings;
pub mod shutdown;
pub mod snapshot;
pub mod status;
pub mod template;
pub mod text;
pub mod tray;
pub mod tux;
pub mod utf16;
pub mod win32;
