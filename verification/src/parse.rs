//! The three parsers: RGB component lists, hexadecimal color strings,
//! and the dispatching parser for everything else. Each is total over
//! all string inputs and its outcome equals a spec function of the
//! input text alone.

use vstd::prelude::*;
use vstd::slice::{slice_subrange, slice_index_get};
use vstd::string::StringExecFns;
use crate::chars::{is_hex_digit, is_upper_hex_digit, upper, lemma_upper_hex_digit,
    ex_is_hex_digit, ex_upper};
use crate::color::{Color, ParseColorError, ParseColorErrorKind, Parsed, outcome_of};
use crate::digits::all_hex_digits;
use crate::number::number_spec;
use crate::number::parse_number;
use crate::percent::{component_spec, parse_percent_or_255};
use crate::text::{chars_of, string_of};
use crate::tokens::{norm_seq, tokens_of, normalize, tokenize};

verus! {

/// Whether the input is wrapped as `rgb( ... )`.
pub open spec fn rgb_wrapped(s: Seq<char>) -> bool {
    s.len() >= 5 && s[0] == 'r' && s[1] == 'g' && s[2] == 'b' && s[3] == '(' && s[s.len() - 1]
        == ')'
}

/// The component list: the text between the `rgb(` and `)` delimiters
/// when both are present, the whole text otherwise.
pub open spec fn rgb_inner(s: Seq<char>) -> Seq<char> {
    if rgb_wrapped(s) {
        s.subrange(4, s.len() - 1)
    } else {
        s
    }
}

/// The outcome of parsing an RGB component list: exactly three tokens,
/// each a valid channel value, else `InvalidRgb` carrying the input.
pub open spec fn rgb_spec(s: Seq<char>) -> Parsed {
    let toks = tokens_of(norm_seq(rgb_inner(s)));
    if toks.len() != 3 {
        Parsed::Fail { kind: ParseColorErrorKind::InvalidRgb, given: s }
    } else {
        match (component_spec(toks[0]), component_spec(toks[1]), component_spec(toks[2])) {
            (Some(r), Some(g), Some(b)) => Parsed::Rgb { r, g, b },
            _ => Parsed::Fail { kind: ParseColorErrorKind::InvalidRgb, given: s },
        }
    }
}

/// Every character after the leading `#` is a hexadecimal digit.
pub open spec fn hex_body_ok(s: Seq<char>) -> bool {
    forall|i: int| 1 <= i < s.len() ==> is_hex_digit(#[trigger] s[i])
}

/// The input upper-cased, character by character.
pub open spec fn upper_seq(s: Seq<char>) -> Seq<char> {
    s.map_values(|c: char| upper(c))
}

/// The outcome of parsing a hexadecimal color: `#` plus exactly 3 or 6
/// hexadecimal digits, returned upper-cased; else `InvalidHex`.
pub open spec fn hex_spec(s: Seq<char>) -> Parsed {
    if s.len() == 0 || s[0] != '#' || !hex_body_ok(s) {
        Parsed::Fail { kind: ParseColorErrorKind::InvalidHex, given: s }
    } else if s.len() != 4 && s.len() != 7 {
        Parsed::Fail { kind: ParseColorErrorKind::InvalidHex, given: s }
    } else {
        Parsed::Hex { text: upper_seq(s) }
    }
}

/// The outcome of the dispatching parser: one token is an ANSI palette
/// index (or a failed one), three tokens are an RGB triple, and any
/// other count fails, as `InvalidRgb` when the original text held a
/// comma and `InvalidName` otherwise. Errors carry the normalized
/// text.
pub open spec fn other_spec(s: Seq<char>) -> Parsed {
    let n = norm_seq(s);
    let toks = tokens_of(n);
    if toks.len() == 1 {
        match number_spec(toks[0]) {
            Some(v) => Parsed::Ansi { code: v },
            None => if all_hex_digits(n) {
                Parsed::Fail { kind: ParseColorErrorKind::InvalidAnsi256, given: n }
            } else {
                Parsed::Fail { kind: ParseColorErrorKind::InvalidName, given: n }
            },
        }
    } else if toks.len() == 3 {
        rgb_spec(n)
    } else if s.contains(',') {
        Parsed::Fail { kind: ParseColorErrorKind::InvalidRgb, given: n }
    } else {
        Parsed::Fail { kind: ParseColorErrorKind::InvalidName, given: n }
    }
}

fn all_hex(t: &[char]) -> (b: bool)
    ensures
        b == all_hex_digits(t@),
{
    let mut i: usize = 0;
    while i < t.len()
        invariant
            0 <= i <= t@.len(),
            forall|k: int| 0 <= k < i ==> is_hex_digit(#[trigger] t@[k]),
        decreases t@.len() - i,
    {
        if !ex_is_hex_digit(*slice_index_get(t, i)) {
            return false;
        }
        i += 1;
    }
    true
}

fn has_comma(t: &[char]) -> (b: bool)
    ensures
        b == t@.contains(','),
{
    let mut i: usize = 0;
    while i < t.len()
        invariant
            0 <= i <= t@.len(),
            forall|k: int| 0 <= k < i ==> #[trigger] t@[k] != ',',
        decreases t@.len() - i,
    {
        if *slice_index_get(t, i) == ',' {
            proof {
                assert(t@[i as int] == ',');
            }
            return true;
        }
        i += 1;
    }
    proof {
        assert(!t@.contains(','));
    }
    false
}

/// Parses an RGB color: either `rgb(a, b, c)` or a bare component
/// list, with components separated by commas, slashes or whitespace,
/// each decimal, `0x`-hexadecimal, or a percentage.
pub fn parse_rgb(s: &str) -> (res: Result<Color, ParseColorError>)
    ensures
        outcome_of(res) == rgb_spec(s@),
{
    let cs = chars_of(s);
    let n = cs.len();
    let wrapped = n >= 5 && *slice_index_get(cs.as_slice(), 0) == 'r' && *slice_index_get(
        cs.as_slice(),
        1,
    ) == 'g' && *slice_index_get(cs.as_slice(), 2) == 'b' && *slice_index_get(cs.as_slice(), 3)
        == '(' && *slice_index_get(cs.as_slice(), n - 1) == ')';
    let inner: &[char] = if wrapped {
        slice_subrange(cs.as_slice(), 4, n - 1)
    } else {
        cs.as_slice()
    };
    proof {
        assert(inner@ =~= rgb_inner(s@));
    }
    let norm = normalize(inner);
    let toks = tokenize(norm.as_slice());
    let ghost stoks = tokens_of(norm_seq(rgb_inner(s@)));
    if toks.len() != 3 {
        return Err(
            ParseColorError {
                kind: ParseColorErrorKind::InvalidRgb,
                given: String::from_str(s),
            },
        );
    }
    proof {
        assert(stoks[0] == toks@[0]@);
        assert(stoks[1] == toks@[1]@);
        assert(stoks[2] == toks@[2]@);
    }
    let c0 = parse_percent_or_255(slice_index_get(toks.as_slice(), 0).as_slice());
    let c1 = parse_percent_or_255(slice_index_get(toks.as_slice(), 1).as_slice());
    let c2 = parse_percent_or_255(slice_index_get(toks.as_slice(), 2).as_slice());
    match (c0, c1, c2) {
        (Some(v0), Some(v1), Some(v2)) => Ok(Color::Rgb(v0.0, v1.0, v2.0)),
        _ => Err(
            ParseColorError {
                kind: ParseColorErrorKind::InvalidRgb,
                given: String::from_str(s),
            },
        ),
    }
}

/// Parses a hexadecimal color: `#` followed by exactly 3 or 6
/// hexadecimal digits; the stored text is upper-cased.
pub fn parse_hex(s: &str) -> (res: Result<Color, ParseColorError>)
    ensures
        outcome_of(res) == hex_spec(s@),
{
    let cs = chars_of(s);
    let n = cs.len();
    if n == 0 || *slice_index_get(cs.as_slice(), 0) != '#' {
        return Err(
            ParseColorError {
                kind: ParseColorErrorKind::InvalidHex,
                given: String::from_str(s),
            },
        );
    }
    let mut i: usize = 1;
    while i < n
        invariant
            1 <= i <= n,
            n == cs@.len(),
            cs@ == s@,
            forall|k: int| 1 <= k < i ==> is_hex_digit(#[trigger] cs@[k]),
        decreases n - i,
    {
        if !ex_is_hex_digit(*slice_index_get(cs.as_slice(), i)) {
            return Err(
                ParseColorError {
                    kind: ParseColorErrorKind::InvalidHex,
                    given: String::from_str(s),
                },
            );
        }
        i += 1;
    }
    if n != 4 && n != 7 {
        return Err(
            ParseColorError {
                kind: ParseColorErrorKind::InvalidHex,
                given: String::from_str(s),
            },
        );
    }
    let mut up: Vec<char> = Vec::new();
    let mut j: usize = 0;
    while j < n
        invariant
            0 <= j <= n,
            n == cs@.len(),
            cs@ == s@,
            up@.len() == j,
            forall|k: int| 0 <= k < j ==> #[trigger] up@[k] == upper(cs@[k]),
        decreases n - j,
    {
        up.push(ex_upper(*slice_index_get(cs.as_slice(), j)));
        j += 1;
    }
    proof {
        assert(up@ =~= upper_seq(s@));
    }
    let text = string_of(up.as_slice());
    Ok(Color::Hex(text))
}

/// Parses anything else: a single token as an ANSI palette index, a
/// three-token list as an RGB triple, and any other shape as an error.
pub fn parse_other(s: &str) -> (res: Result<Color, ParseColorError>)
    ensures
        outcome_of(res) == other_spec(s@),
{
    let cs = chars_of(s);
    let norm = normalize(cs.as_slice());
    let norm_str = string_of(norm.as_slice());
    let toks = tokenize(norm.as_slice());
    let ghost stoks = tokens_of(norm_seq(s@));
    if toks.len() == 1 {
        proof {
            assert(stoks[0] == toks@[0]@);
        }
        match parse_number(slice_index_get(toks.as_slice(), 0).as_slice()) {
            Some(v) => Ok(Color::Ansi256(v)),
            None => {
                if all_hex(norm.as_slice()) {
                    Err(
                        ParseColorError {
                            kind: ParseColorErrorKind::InvalidAnsi256,
                            given: norm_str,
                        },
                    )
                } else {
                    Err(ParseColorError { kind: ParseColorErrorKind::InvalidName, given: norm_str })
                }
            },
        }
    } else if toks.len() == 3 {
        parse_rgb(norm_str.as_str())
    } else {
        if has_comma(cs.as_slice()) {
            Err(ParseColorError { kind: ParseColorErrorKind::InvalidRgb, given: norm_str })
        } else {
            Err(ParseColorError { kind: ParseColorErrorKind::InvalidName, given: norm_str })
        }
    }
}

/// What a hexadecimal parse can produce: on success the stored text
/// is the input's length, 4 or 7, starts with `#`, and holds only
/// upper-case hexadecimal digits after it; every failure is
/// `InvalidHex` and carries the input unchanged.
pub proof fn lemma_hex_outcome_wellformed(s: Seq<char>)
    ensures
        match hex_spec(s) {
            Parsed::Hex { text } => text.len() == s.len() && (text.len() == 4 || text.len() == 7)
                && text[0] == '#' && forall|i: int|
                1 <= i < text.len() ==> is_upper_hex_digit(#[trigger] text[i]),
            Parsed::Fail { kind, given } => kind == ParseColorErrorKind::InvalidHex && given == s,
            _ => false,
        },
{
    if s.len() != 0 && s[0] == '#' && hex_body_ok(s) && (s.len() == 4 || s.len() == 7) {
        let text = upper_seq(s);
        assert(text[0] == upper('#'));
        assert forall|i: int| 1 <= i < text.len() implies is_upper_hex_digit(
            #[trigger] text[i],
        ) by {
            assert(text[i] == upper(s[i]));
            assert(is_hex_digit(s[i]));
            lemma_upper_hex_digit(s[i]);
        }
    }
}

/// What an RGB parse can produce: a fully resolved triple, or a
/// failure that is always `InvalidRgb` and carries the input
/// unchanged.
pub proof fn lemma_rgb_outcome_shape(s: Seq<char>)
    ensures
        match rgb_spec(s) {
            Parsed::Rgb { r, g, b } => true,
            Parsed::Fail { kind, given } => kind == ParseColorErrorKind::InvalidRgb && given == s,
            _ => false,
        },
{
}

/// What the dispatching parse can produce: a palette index, a triple,
/// or a failure of one of the three error kinds reachable here, always
/// carrying the normalized input.
pub proof fn lemma_other_outcome_shape(s: Seq<char>)
    ensures
        match other_spec(s) {
            Parsed::Ansi { code } => true,
            Parsed::Rgb { r, g, b } => true,
            Parsed::Fail { kind, given } => given == norm_seq(s) && (kind
                == ParseColorErrorKind::InvalidAnsi256 || kind == ParseColorErrorKind::InvalidName
                || kind == ParseColorErrorKind::InvalidRgb),
            _ => false,
        },
{
    lemma_rgb_outcome_shape(norm_seq(s));
}

/// Parsing an RGB text twice yields the same outcome: the result is a
/// function of the input text alone.
pub proof fn lemma_parse_rgb_deterministic(
    r1: Result<Color, ParseColorError>,
    r2: Result<Color, ParseColorError>,
    s: Seq<char>,
)
    requires
        outcome_of(r1) == rgb_spec(s),
        outcome_of(r2) == rgb_spec(s),
    ensures
        outcome_of(r1) == outcome_of(r2),
{
}

/// Parsing a hexadecimal text twice yields the same outcome.
pub proof fn lemma_parse_hex_deterministic(
    r1: Result<Color, ParseColorError>,
    r2: Result<Color, ParseColorError>,
    s: Seq<char>,
)
    requires
        outcome_of(r1) == hex_spec(s),
        outcome_of(r2) == hex_spec(s),
    ensures
        outcome_of(r1) == outcome_of(r2),
{
}

/// Parsing any other text twice yields the same outcome.
pub proof fn lemma_parse_other_deterministic(
    r1: Result<Color, ParseColorError>,
    r2: Result<Color, ParseColorError>,
    s: Seq<char>,
)
    requires
        outcome_of(r1) == other_spec(s),
        outcome_of(r2) == other_spec(s),
    ensures
        outcome_of(r1) == outcome_of(r2),
{
}

} // verus!
