//! The color value produced by a successful parse, the error value
//! produced by a failed one, and the mathematical outcome that a parse
//! result denotes.

use vstd::prelude::*;

verus! {

/// A color, fully resolved from its textual form.
#[derive(Debug, PartialEq, Eq)]
pub enum Color {
    /// Three 8-bit channels: red, green, blue.
    Rgb(u8, u8, u8),
    /// A normalized hexadecimal color string: `#` followed by exactly
    /// 3 or 6 hexadecimal digits, upper-cased.
    Hex(String),
    /// An ANSI 256-color palette index.
    Ansi256(u8),
}

/// The class of input that a failed parse was judged against.
#[derive(Clone, Copy, Debug, PartialEq, Eq, Structural)]
pub enum ParseColorErrorKind {
    InvalidRgb,
    InvalidHex,
    InvalidAnsi256,
    InvalidName,
}

/// A failed parse: the kind of failure together with the input text
/// (original or component-normalized) that triggered it.
#[derive(Debug, PartialEq, Eq)]
pub struct ParseColorError {
    pub kind: ParseColorErrorKind,
    pub given: String,
}

/// The outcome of a parse, over plain mathematical values: a success
/// variant carrying the parsed data, or a failure carrying the error
/// kind and the diagnostic text.
#[verifier::ext_equal]
pub enum Parsed {
    Rgb { r: u8, g: u8, b: u8 },
    Hex { text: Seq<char> },
    Ansi { code: u8 },
    Fail { kind: ParseColorErrorKind, given: Seq<char> },
}

/// The outcome that a concrete parse result denotes.
pub open spec fn outcome_of(res: Result<Color, ParseColorError>) -> Parsed {
    match res {
        Ok(Color::Rgb(r, g, b)) => Parsed::Rgb { r, g, b },
        Ok(Color::Hex(t)) => Parsed::Hex { text: t@ },
        Ok(Color::Ansi256(c)) => Parsed::Ansi { code: c },
        Err(e) => Parsed::Fail { kind: e.kind, given: e.given@ },
    }
}

} // verus!
