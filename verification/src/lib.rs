//! A parser for textual color representations: hexadecimal strings,
//! RGB component lists (decimal, hexadecimal, or percentage channels),
//! and ANSI 256-color palette indices.

pub mod chars;
pub mod color;
pub mod digits;
pub mod number;
pub mod parse;
pub mod percent;
pub mod text;
pub mod tokens;

pub use number::parse_number;
pub use parse::parse_hex;
pub use parse::parse_other;
pub use parse::parse_rgb;
pub use percent::parse_percent_or_255;

pub use color::Color;
pub use color::ParseColorError;
pub use color::ParseColorErrorKind;
