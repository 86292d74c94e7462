//! Turning the Tux outline into the coverage and hole masks that the icon is drawn from.
pub mod letters;
pub mod lexer;
pub mod maker;
pub mod mask;
pub mod path;
pub mod points;
pub mod regions;
pub mod tokens;
