//! Parsing one token as an 8-bit integer: a decimal numeral, or a
//! hexadecimal numeral behind the prefix `0x`. Either numeral may carry
//! a leading sign; a minus sign is accepted only for the value zero.

use vstd::prelude::*;
use vstd::slice::{slice_subrange, slice_index_get};
use crate::chars::{is_digit, is_hex_digit, ex_is_digit, ex_is_hex_digit, ex_digit_val, ex_hex_val};
use crate::digits::{all_digits, all_hex_digits, digits_val, hex_digits_val, lemma_digits_val_push,
    lemma_digits_val_bounds, lemma_hex_digits_val_push, lemma_hex_digits_val_bounds};

verus! {

/// A signed numeral with its leading sign removed: the form the
/// exponent of a percentage takes.
pub open spec fn int_body(s: Seq<char>) -> Seq<char> {
    if s.len() > 0 && (s[0] == '+' || s[0] == '-') {
        s.drop_first()
    } else {
        s
    }
}

/// Whether a signed numeral carries a minus sign.
pub open spec fn int_negative(s: Seq<char>) -> bool {
    s.len() > 0 && s[0] == '-'
}

/// An unsigned numeral with a leading plus removed: an 8-bit integer
/// takes no minus sign, not even before zero.
pub open spec fn uint_body(s: Seq<char>) -> Seq<char> {
    if s.len() > 0 && s[0] == '+' {
        s.drop_first()
    } else {
        s
    }
}

/// The value of a decimal numeral as an 8-bit integer: `None` on an
/// empty body, a non-digit, or a value above 255.
pub open spec fn dec_u8(s: Seq<char>) -> Option<u8> {
    let b = uint_body(s);
    if b.len() == 0 || !all_digits(b) {
        None
    } else if digits_val(b) <= 255 {
        Some(digits_val(b) as u8)
    } else {
        None
    }
}

/// The value of a hexadecimal numeral as an 8-bit integer, under the
/// same sign and range rules as `dec_u8`.
pub open spec fn hex_u8(s: Seq<char>) -> Option<u8> {
    let b = uint_body(s);
    if b.len() == 0 || !all_hex_digits(b) {
        None
    } else if hex_digits_val(b) <= 255 {
        Some(hex_digits_val(b) as u8)
    } else {
        None
    }
}

/// The value of one numeric token: hexadecimal behind the prefix `0x`,
/// decimal otherwise.
pub open spec fn number_spec(t: Seq<char>) -> Option<u8> {
    if t.len() >= 2 && t[0] == '0' && t[1] == 'x' {
        hex_u8(t.skip(2))
    } else {
        dec_u8(t)
    }
}

/// Parses one token as a number, decimal or `0x`-prefixed hexadecimal.
pub fn parse_number(t: &[char]) -> (r: Option<u8>)
    ensures
        r == number_spec(t@),
{
    if t.len() >= 2 && *slice_index_get(t, 0) == '0' && *slice_index_get(t, 1) == 'x' {
        let body = slice_subrange(t, 2, t.len());
        proof {
            assert(body@ =~= t@.skip(2));
        }
        parse_hex_u8(body)
    } else {
        parse_dec_u8(t)
    }
}

fn parse_dec_u8(t: &[char]) -> (r: Option<u8>)
    ensures
        r == dec_u8(t@),
{
    let n = t.len();
    let has_sign = n > 0 && *slice_index_get(t, 0) == '+';
    let start: usize = if has_sign {
        1
    } else {
        0
    };
    proof {
        assert(t@.skip(start as int) =~= uint_body(t@));
    }
    if start == n {
        return None;
    }
    let mut i: usize = start;
    let mut acc: u32 = 0;
    while i < n
        invariant
            start <= i <= n,
            n == t@.len(),
            uint_body(t@) == t@.skip(start as int),
            forall|k: int| start <= k < i ==> is_digit(#[trigger] t@[k]),
            acc <= 256,
            ({
                let pre = t@.subrange(start as int, i as int);
                (acc <= 255 && acc as int == digits_val(pre)) || (acc == 256 && digits_val(pre)
                    > 255)
            }),
        decreases n - i,
    {
        let c = *slice_index_get(t, i);
        if !ex_is_digit(c) {
            proof {
                assert(t@.skip(start as int)[i - start] == t@[i as int]);
                assert(!all_digits(uint_body(t@)));
            }
            return None;
        }
        let d = ex_digit_val(c);
        proof {
            let pre = t@.subrange(start as int, i as int);
            let pre2 = t@.subrange(start as int, i as int + 1);
            assert(pre2 =~= pre.push(t@[i as int]));
            lemma_digits_val_push(pre, t@[i as int]);
            assert(all_digits(pre));
            lemma_digits_val_bounds(pre);
        }
        acc = if acc > 255 {
            256
        } else {
            let na: u32 = acc * 10 + d as u32;
            if na > 255 {
                256
            } else {
                na
            }
        };
        i += 1;
    }
    proof {
        assert(t@.subrange(start as int, n as int) =~= uint_body(t@));
    }
    if acc <= 255 {
        Some(acc as u8)
    } else {
        None
    }
}

fn parse_hex_u8(t: &[char]) -> (r: Option<u8>)
    ensures
        r == hex_u8(t@),
{
    let n = t.len();
    let has_sign = n > 0 && *slice_index_get(t, 0) == '+';
    let start: usize = if has_sign {
        1
    } else {
        0
    };
    proof {
        assert(t@.skip(start as int) =~= uint_body(t@));
    }
    if start == n {
        return None;
    }
    let mut i: usize = start;
    let mut acc: u32 = 0;
    while i < n
        invariant
            start <= i <= n,
            n == t@.len(),
            uint_body(t@) == t@.skip(start as int),
            forall|k: int| start <= k < i ==> is_hex_digit(#[trigger] t@[k]),
            acc <= 256,
            ({
                let pre = t@.subrange(start as int, i as int);
                (acc <= 255 && acc as int == hex_digits_val(pre)) || (acc == 256 && hex_digits_val(
                    pre,
                ) > 255)
            }),
        decreases n - i,
    {
        let c = *slice_index_get(t, i);
        if !ex_is_hex_digit(c) {
            proof {
                assert(t@.skip(start as int)[i - start] == t@[i as int]);
                assert(!all_hex_digits(uint_body(t@)));
            }
            return None;
        }
        let d = ex_hex_val(c);
        proof {
            let pre = t@.subrange(start as int, i as int);
            let pre2 = t@.subrange(start as int, i as int + 1);
            assert(pre2 =~= pre.push(t@[i as int]));
            lemma_hex_digits_val_push(pre, t@[i as int]);
            assert(all_hex_digits(pre));
            lemma_hex_digits_val_bounds(pre);
        }
        acc = if acc > 255 {
            256
        } else {
            let na: u32 = acc * 16 + d as u32;
            if na > 255 {
                256
            } else {
                na
            }
        };
        i += 1;
    }
    proof {
        assert(t@.subrange(start as int, n as int) =~= uint_body(t@));
    }
    if acc <= 255 {
        Some(acc as u8)
    } else {
        None
    }
}

} // verus!
