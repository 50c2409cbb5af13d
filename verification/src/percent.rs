//! Parsing one token as a percentage channel value.
//!
//! A percentage token is a signed decimal number with an optional
//! fractional part and an optional decimal exponent, or one of the
//! words `inf`, `infinity` and `nan` in any casing. Its channel value
//! is the number times 255/100, rounded half away from zero, clamped
//! into 0..=255; a negative number or `nan` gives 0 and an infinite
//! one gives 255. The whole computation is exact integer arithmetic:
//! the model and the proofs never leave the integers.

use vstd::prelude::*;
use vstd::arithmetic::div_mod::{lemma_div_denominator, lemma_hoist_over_denominator,
    lemma_div_is_ordered, lemma_div_by_multiple, lemma_div_by_multiple_is_strongly_ordered,
    lemma_basic_div, lemma_div_pos_is_pos};
use vstd::slice::{slice_subrange, slice_index_get};
use crate::chars::{is_digit, digit_val, lower, ex_is_digit, ex_digit_val, ex_lower};
use crate::digits::{p10, all_digits, digits_val, lemma_p10_pos, lemma_p10_adds, lemma_p10_mono,
    lemma_digits_val_bounds, lemma_digits_val_append, lemma_digits_val_push,
    lemma_digits_val_zeros, lemma_digits_val_skip_zeros, lemma_digits_val_lower};
use crate::number::{int_body, int_negative, number_spec, parse_number};

verus! {

/// The word `inf` or `infinity`, in any casing.
pub open spec fn is_inf_text(b: Seq<char>) -> bool {
    ||| (b.len() == 3 && lower(b[0]) == 'i' && lower(b[1]) == 'n' && lower(b[2]) == 'f')
    ||| (b.len() == 8 && lower(b[0]) == 'i' && lower(b[1]) == 'n' && lower(b[2]) == 'f' && lower(
        b[3],
    ) == 'i' && lower(b[4]) == 'n' && lower(b[5]) == 'i' && lower(b[6]) == 't' && lower(b[7])
        == 'y')
}

/// The word `nan`, in any casing.
pub open spec fn is_nan_text(b: Seq<char>) -> bool {
    b.len() == 3 && lower(b[0]) == 'n' && lower(b[1]) == 'a' && lower(b[2]) == 'n'
}

/// The position of the first exponent marker `e` or `E`, or the length
/// when there is none.
pub open spec fn find_e(b: Seq<char>) -> int
    decreases b.len(),
{
    if b.len() == 0 {
        0
    } else if b[0] == 'e' || b[0] == 'E' {
        0
    } else {
        1 + find_e(b.drop_first())
    }
}

/// The position of the first `.`, or the length when there is none.
pub open spec fn find_dot(m: Seq<char>) -> int
    decreases m.len(),
{
    if m.len() == 0 {
        0
    } else if m[0] == '.' {
        0
    } else {
        1 + find_dot(m.drop_first())
    }
}

/// A well-formed mantissa: digits with at most one dot among them, and
/// at least one digit.
pub open spec fn valid_mantissa(m: Seq<char>) -> bool {
    &&& forall|i: int| 0 <= i < m.len() && i != find_dot(m) ==> is_digit(#[trigger] m[i])
    &&& exists|i: int| 0 <= i < m.len() && i != find_dot(m) && is_digit(#[trigger] m[i])
}

/// A well-formed exponent part: an optional sign and then digits.
pub open spec fn valid_exp(x: Seq<char>) -> bool {
    int_body(x).len() > 0 && all_digits(int_body(x))
}

/// The signed value of the exponent part.
pub open spec fn exp_val(x: Seq<char>) -> int {
    if int_negative(x) {
        -digits_val(int_body(x))
    } else {
        digits_val(int_body(x))
    }
}

/// The exponent of the token: the value of what follows the marker, or
/// zero when there is no marker.
pub open spec fn exp_of(b: Seq<char>, ei: int) -> int {
    if ei == b.len() {
        0
    } else {
        exp_val(b.skip(ei + 1))
    }
}

/// The mantissa's digits with the dot removed.
pub open spec fn mant_digits(m: Seq<char>) -> Seq<char> {
    let d = find_dot(m);
    if d == m.len() {
        m
    } else {
        m.take(d) + m.skip(d + 1)
    }
}

/// How many of the mantissa's digits stand after the dot.
pub open spec fn frac_len(m: Seq<char>) -> int {
    let d = find_dot(m);
    if d == m.len() {
        0
    } else {
        m.len() - d - 1
    }
}

/// The integer part of 51 times the number `m * 10^e`: the number
/// scaled by 255/100, before rounding.
pub open spec fn scaled51(m: int, e: int) -> int {
    if e >= 0 {
        51 * m * p10(e as nat)
    } else {
        (51 * m) / p10((-e) as nat)
    }
}

/// The channel value of the nonnegative number `m * 10^e` percent:
/// times 255/100, rounded half up, clamped to 255.
pub open spec fn pct_of(m: int, e: int) -> int {
    let r = (scaled51(m, e) + 10) / 20;
    if r > 255 {
        255
    } else {
        r
    }
}

/// The channel value of one percentage token (the `%` sign already
/// stripped), or `None` when the text is not a number.
pub open spec fn percent_spec(t: Seq<char>) -> Option<u8> {
    let b = int_body(t);
    let neg = int_negative(t);
    if is_nan_text(b) {
        Some(0u8)
    } else if is_inf_text(b) {
        if neg {
            Some(0u8)
        } else {
            Some(255u8)
        }
    } else {
        let ei = find_e(b);
        let m = b.take(ei);
        if !(valid_mantissa(m) && (ei == b.len() || valid_exp(b.skip(ei + 1)))) {
            None
        } else if neg {
            Some(0u8)
        } else {
            Some(pct_of(digits_val(mant_digits(m)), exp_of(b, ei) - frac_len(m)) as u8)
        }
    }
}

/// The value of one channel token: the percentage rule when it ends in
/// `%`, the plain number rule otherwise; the flag records which.
pub open spec fn percent_or_255_spec(t: Seq<char>) -> Option<(u8, bool)> {
    if t.len() > 0 && t.last() == '%' {
        match percent_spec(t.drop_last()) {
            Some(v) => Some((v, true)),
            None => None,
        }
    } else {
        match number_spec(t) {
            Some(v) => Some((v, false)),
            None => None,
        }
    }
}

/// The value of one channel token, without the percentage flag.
pub open spec fn component_spec(t: Seq<char>) -> Option<u8> {
    match percent_or_255_spec(t) {
        Some((v, p)) => Some(v),
        None => None,
    }
}

proof fn lemma_find_e_at(b: Seq<char>, k: int)
    requires
        0 <= k <= b.len(),
        forall|i: int| 0 <= i < k ==> !(#[trigger] b[i] == 'e' || b[i] == 'E'),
        k < b.len() ==> (b[k] == 'e' || b[k] == 'E'),
    ensures
        find_e(b) == k,
    decreases b.len(),
{
    if b.len() == 0 {
    } else if b[0] == 'e' || b[0] == 'E' {
        assert(k == 0);
    } else {
        assert(k >= 1);
        lemma_find_e_at(b.drop_first(), k - 1);
    }
}

proof fn lemma_find_dot_at(m: Seq<char>, k: int)
    requires
        0 <= k <= m.len(),
        forall|i: int| 0 <= i < k ==> #[trigger] m[i] != '.',
        k < m.len() ==> m[k] == '.',
    ensures
        find_dot(m) == k,
    decreases m.len(),
{
    if m.len() == 0 {
    } else if m[0] == '.' {
        assert(k == 0);
    } else {
        assert(k >= 1);
        lemma_find_dot_at(m.drop_first(), k - 1);
    }
}

/// The value of a one-character digit string.
proof fn lemma_digits_val_single(c: char)
    ensures
        digits_val(seq![c]) == digit_val(c),
{
    assert(seq![c].drop_last() =~= Seq::<char>::empty());
    assert(digits_val(Seq::<char>::empty()) == 0);
    assert(seq![c].last() == c);
}

/// A number at least 100 scales past the top of the channel range.
proof fn lemma_pct_high(mv: int, e: int, l: nat)
    requires
        l >= 1,
        p10((l - 1) as nat) <= mv,
        e + l >= 3,
    ensures
        pct_of(mv, e) == 255,
{
    lemma_p10_pos((l - 1) as nat);
    assert(p10(0) == 1);
    assert(p10(1) == 10);
    assert(p10(2) == 100);
    if e >= 0 {
        let le = ((l - 1) + e) as nat;
        lemma_p10_adds((l - 1) as nat, e as nat);
        lemma_p10_mono(2, le);
        lemma_p10_pos(e as nat);
        assert(51 * mv * p10(e as nat) >= 51 * p10(le)) by (nonlinear_arith)
            requires
                mv >= p10((l - 1) as nat),
                p10(e as nat) >= 1,
                p10(le) == p10((l - 1) as nat) * p10(e as nat),
        ;
        assert(scaled51(mv, e) >= 5100);
    } else {
        let k = (-e) as nat;
        let r = (l - 1 - k) as nat;
        assert(r >= 2);
        lemma_p10_adds(k, r);
        lemma_p10_pos(k);
        lemma_p10_pos(r);
        lemma_p10_mono(2, r);
        assert(51 * mv >= (51 * p10(r)) * p10(k)) by (nonlinear_arith)
            requires
                mv >= p10((l - 1) as nat),
                p10((l - 1) as nat) == p10(k) * p10(r),
        ;
        lemma_div_is_ordered((51 * p10(r)) * p10(k), 51 * mv, p10(k));
        lemma_div_by_multiple(51 * p10(r), p10(k));
        assert((51 * mv) / p10(k) >= 51 * p10(r));
        assert(51 * p10(r) >= 5100) by (nonlinear_arith)
            requires
                p10(r) >= 100,
        ;
        assert(scaled51(mv, e) >= 5100);
    }
    lemma_div_is_ordered(5110, scaled51(mv, e) + 10, 20);
    assert(5110int / 20int == 255int);
}

/// A number below a tenth scales and rounds to zero.
proof fn lemma_pct_low(mv: int, e: int, l: nat)
    requires
        0 <= mv,
        mv < p10(l),
        e + l <= -1,
    ensures
        pct_of(mv, e) == 0,
{
    let k = (-e) as nat;
    assert(k >= l + 1);
    lemma_p10_pos(k);
    lemma_p10_pos(l);
    lemma_p10_pos((k - 1) as nat);
    lemma_p10_mono(l, (k - 1) as nat);
    assert(p10(k) == 10 * p10((k - 1) as nat));
    assert(51 * mv < 6 * p10(k)) by (nonlinear_arith)
        requires
            0 <= mv,
            mv < p10(l),
            p10(l) <= p10((k - 1) as nat),
            p10(k) == 10 * p10((k - 1) as nat),
            p10((k - 1) as nat) >= 1,
    ;
    lemma_div_by_multiple_is_strongly_ordered(51 * mv, 6 * p10(k), 6, p10(k));
    lemma_div_by_multiple(6, p10(k));
    lemma_div_pos_is_pos(51 * mv, p10(k));
    assert(0 <= scaled51(mv, e) <= 5);
    lemma_basic_div(scaled51(mv, e) + 10, 20);
}

/// Splitting a number at the decimal point: the scaled integer part
/// plus the scaled fraction's integer part.
proof fn lemma_scaled_split(iv: int, fv: int, k: nat)
    requires
        k >= 1,
        0 <= iv,
        0 <= fv,
    ensures
        scaled51(iv * p10(k) + fv, -(k as int)) == 51 * iv + (51 * fv) / p10(k),
{
    lemma_p10_pos(k);
    assert(51 * (iv * p10(k) + fv) == 51 * fv + (51 * iv) * p10(k)) by (nonlinear_arith);
    lemma_hoist_over_denominator(51 * fv, 51 * iv, p10(k) as nat);
    assert((51 * fv + (51 * iv) * p10(k)) / p10(k) == (51 * fv) / p10(k) + 51 * iv);
}

/// One step of the right-to-left carry that computes the integer part
/// of 51 times a decimal fraction.
proof fn lemma_carry_step(d: int, sv: int, k: nat)
    requires
        0 <= d,
        0 <= sv,
    ensures
        (51 * (d * p10(k) + sv)) / p10(k + 1) == (51 * d + (51 * sv) / p10(k)) / 10,
{
    lemma_p10_pos(k);
    let x = 51 * sv + (51 * d) * p10(k);
    assert(51 * (d * p10(k) + sv) == 51 * sv + (51 * d) * p10(k)) by (nonlinear_arith);
    lemma_hoist_over_denominator(51 * sv, 51 * d, p10(k) as nat);
    assert(x / p10(k) == (51 * sv) / p10(k) + 51 * d);
    lemma_div_denominator(x, p10(k), 10);
    assert(p10(k + 1) == 10 * p10(k));
    assert(p10(k) * 10 == 10 * p10(k)) by (nonlinear_arith);
    assert(x / p10(k + 1) == (x / p10(k)) / 10);
}

/// The cap past which an exponent's magnitude no longer matters: any
/// digit string worth more than this already decides the branch.
const EXP_CAP_U: u128 = 1_000_000_000_000_000_000_000_000_000_000;

const EXP_CAP_I: i128 = 1_000_000_000_000_000_000_000_000_000_000;

/// How a saturated exponent relates to the true one: equal within the
/// cap, pinned one past the cap outside it.
spec fn exp_rel(xv: int, sat: i128) -> bool {
    ||| (xv == sat as int && -(EXP_CAP_I as int) <= sat as int <= EXP_CAP_I as int)
    ||| (xv > EXP_CAP_I as int && sat as int == EXP_CAP_I as int + 1)
    ||| (xv < -(EXP_CAP_I as int) && sat as int == -(EXP_CAP_I as int) - 1)
}

fn find_char_e(b: &[char]) -> (k: usize)
    ensures
        k as int == find_e(b@),
        k <= b@.len(),
{
    let mut i: usize = 0;
    while i < b.len()
        invariant
            0 <= i <= b@.len(),
            forall|j: int| 0 <= j < i ==> !(#[trigger] b@[j] == 'e' || b@[j] == 'E'),
        decreases b@.len() - i,
    {
        let c = *slice_index_get(b, i);
        if c == 'e' || c == 'E' {
            proof {
                lemma_find_e_at(b@, i as int);
            }
            return i;
        }
        i += 1;
    }
    proof {
        lemma_find_e_at(b@, i as int);
    }
    i
}

fn find_char_dot(m: &[char]) -> (k: usize)
    ensures
        k as int == find_dot(m@),
        k <= m@.len(),
{
    let mut i: usize = 0;
    while i < m.len()
        invariant
            0 <= i <= m@.len(),
            forall|j: int| 0 <= j < i ==> #[trigger] m@[j] != '.',
        decreases m@.len() - i,
    {
        let c = *slice_index_get(m, i);
        if c == '.' {
            proof {
                lemma_find_dot_at(m@, i as int);
            }
            return i;
        }
        i += 1;
    }
    proof {
        lemma_find_dot_at(m@, i as int);
    }
    i
}

/// Checks the shape of a mantissa against `valid_mantissa`.
fn mantissa_ok(m: &[char], fd: usize) -> (ok: bool)
    requires
        fd as int == find_dot(m@),
        fd <= m@.len(),
    ensures
        ok == valid_mantissa(m@),
{
    let mn = m.len();
    let mut j: usize = 0;
    while j < mn
        invariant
            0 <= j <= mn,
            mn == m@.len(),
            fd as int == find_dot(m@),
            forall|i: int| 0 <= i < j && i != fd ==> is_digit(#[trigger] m@[i]),
        decreases mn - j,
    {
        if j != fd {
            let c = *slice_index_get(m, j);
            if !ex_is_digit(c) {
                proof {
                    assert(!valid_mantissa(m@));
                }
                return false;
            }
        }
        j += 1;
    }
    if mn == 0 || (fd < mn && mn == 1) {
        proof {
            assert(!valid_mantissa(m@));
        }
        return false;
    }
    proof {
        if fd != 0 {
            assert(is_digit(m@[0]) && 0 != fd as int);
        } else {
            assert(is_digit(m@[1]) && 1 != fd as int);
        }
        assert(valid_mantissa(m@));
    }
    true
}

/// Parses the exponent part (what stands after the `e` marker) into a
/// saturated magnitude beside the true value.
fn parse_exp(x: &[char]) -> (r: Option<(i128, Ghost<int>)>)
    ensures
        ({
            match r {
                Some(pr) => valid_exp(x@) && pr.1@ == exp_val(x@) && exp_rel(pr.1@, pr.0),
                None => !valid_exp(x@),
            }
        }),
{
    let xn = x.len();
    let xhas = xn > 0 && (*slice_index_get(x, 0) == '+' || *slice_index_get(x, 0) == '-');
    let xsl: usize = if xhas {
        1
    } else {
        0
    };
    let xneg = xn > 0 && *slice_index_get(x, 0) == '-';
    proof {
        assert(x@.skip(xsl as int) =~= int_body(x@));
        assert(xneg == int_negative(x@));
    }
    if xsl == xn {
        return None;
    }
    let mut j: usize = xsl;
    let mut acc: u128 = 0;
    while j < xn
        invariant
            xsl <= j <= xn,
            xn == x@.len(),
            int_body(x@) == x@.skip(xsl as int),
            forall|k2: int| xsl <= k2 < j ==> is_digit(#[trigger] x@[k2]),
            acc <= 10 * EXP_CAP_U + 9,
            ({
                let pre = x@.subrange(xsl as int, j as int);
                (digits_val(pre) <= EXP_CAP_U as int && acc as int == digits_val(pre)) || (
                digits_val(pre) > EXP_CAP_U as int && acc > EXP_CAP_U)
            }),
        decreases xn - j,
    {
        let c = *slice_index_get(x, j);
        if !ex_is_digit(c) {
            proof {
                assert(int_body(x@)[j - xsl] == x@[j as int]);
                assert(!valid_exp(x@));
            }
            return None;
        }
        let d = ex_digit_val(c);
        proof {
            let pre = x@.subrange(xsl as int, j as int);
            let pre2 = x@.subrange(xsl as int, j as int + 1);
            assert(pre2 =~= pre.push(x@[j as int]));
            lemma_digits_val_push(pre, x@[j as int]);
            assert(all_digits(pre));
            lemma_digits_val_bounds(pre);
        }
        acc = if acc > EXP_CAP_U {
            EXP_CAP_U + 1
        } else {
            acc * 10 + d as u128
        };
        j += 1;
    }
    proof {
        assert(x@.subrange(xsl as int, xn as int) =~= int_body(x@));
        assert(valid_exp(x@));
    }
    let mag: i128 = if acc > EXP_CAP_U {
        EXP_CAP_I + 1
    } else {
        acc as i128
    };
    let sat: i128 = if xneg {
        -mag
    } else {
        mag
    };
    proof {
        assert(exp_rel(exp_val(x@), sat));
    }
    Some((sat, Ghost(exp_val(x@))))
}

/// Copies the mantissa with its dot removed.
fn strip_dot(m: &[char], fd: usize) -> (md: Vec<char>)
    requires
        fd as int == find_dot(m@),
        fd <= m@.len(),
        forall|i: int| 0 <= i < m@.len() && i != fd ==> is_digit(#[trigger] m@[i]),
    ensures
        md@ == mant_digits(m@),
        all_digits(md@),
{
    let mn = m.len();
    let mut md: Vec<char> = Vec::new();
    let mut j: usize = 0;
    while j < mn
        invariant
            0 <= j <= mn,
            mn == m@.len(),
            fd as int == find_dot(m@),
            fd <= mn,
            md@ == (if j <= fd {
                m@.take(j as int)
            } else {
                m@.take(fd as int) + m@.subrange(fd as int + 1, j as int)
            }),
        decreases mn - j,
    {
        if j != fd {
            md.push(*slice_index_get(m, j));
        }
        proof {
            if j < fd {
                assert(m@.take(j as int).push(m@[j as int]) =~= m@.take(j as int + 1));
            } else if j == fd {
                assert(m@.take(fd as int) + m@.subrange(fd as int + 1, fd as int + 1) =~= m@.take(
                    fd as int,
                ));
            } else {
                assert((m@.take(fd as int) + m@.subrange(fd as int + 1, j as int)).push(
                    m@[j as int],
                ) =~= m@.take(fd as int) + m@.subrange(fd as int + 1, j as int + 1));
            }
        }
        j += 1;
    }
    proof {
        if fd == mn {
            assert(m@.take(mn as int) =~= m@);
        } else {
            assert(m@.take(fd as int) + m@.subrange(fd as int + 1, mn as int) =~= mant_digits(m@));
        }
        assert(md@ == mant_digits(m@));
        assert forall|i: int| 0 <= i < md@.len() implies is_digit(#[trigger] md@[i]) by {
            if fd == mn {
                assert(md@[i] == m@[i]);
            } else if i < fd {
                assert(md@[i] == m@[i]);
            } else {
                assert(md@[i] == m@[i + 1]);
            }
        }
    }
    md
}

/// The channel value of a whole number of at most two digits scaled by
/// a nonnegative exponent that keeps it under a hundred.
fn pct_whole(md: &Vec<char>, z: usize, e_small: usize) -> (r: u32)
    requires
        z < md@.len(),
        all_digits(md@),
        md@.len() - z + e_small <= 2,
    ensures
        r <= 255,
        r as int == pct_of(digits_val(md@.skip(z as int)), e_small as int),
{
    let mut iv: u32 = 0;
    let mut j: usize = z;
    proof {
        assert(md@.subrange(z as int, z as int) =~= Seq::<char>::empty());
        assert(p10(0) == 1);
        assert(p10(1) == 10);
        assert(p10(2) == 100);
    }
    while j < md.len()
        invariant
            z <= j <= md@.len(),
            all_digits(md@),
            md@.len() - z <= 2,
            iv as int == digits_val(md@.subrange(z as int, j as int)),
            iv < 100,
            ({
                let cnt = (j - z) as nat;
                iv < p10(cnt)
            }),
        decreases md@.len() - j,
    {
        let d = ex_digit_val(md[j]);
        proof {
            let pre = md@.subrange(z as int, j as int);
            let pre2 = md@.subrange(z as int, j as int + 1);
            assert(pre2 =~= pre.push(md@[j as int]));
            lemma_digits_val_push(pre, md@[j as int]);
            assert(all_digits(pre2));
            lemma_digits_val_bounds(pre2);
            assert(p10(0) == 1);
            assert(p10(1) == 10);
            assert(p10(2) == 100);
            lemma_p10_mono((j - z + 1) as nat, 2);
        }
        iv = iv * 10 + d as u32;
        j += 1;
    }
    let ghost mm = digits_val(md@.skip(z as int));
    proof {
        assert(md@.subrange(z as int, md@.len() as int) =~= md@.skip(z as int));
        assert(iv as int == mm);
        assert(p10(0) == 1);
        assert(p10(1) == 10);
        assert(p10(2) == 100);
        lemma_p10_mono((md@.len() - z) as nat, 2);
    }
    let v: u32 = if e_small == 0 {
        iv
    } else {
        iv * 10
    };
    let w: u32 = 51 * v;
    let r0: u32 = (w + 10) / 20;
    proof {
        if e_small == 0 {
            assert(51 * mm * p10(0) == 51 * mm) by (nonlinear_arith)
                requires
                    p10(0) == 1,
            ;
        } else {
            assert(e_small == 1);
            assert(51 * mm * p10(1) == 51 * (mm * 10)) by (nonlinear_arith)
                requires
                    p10(1) == 10,
            ;
        }
        assert(scaled51(mm, e_small as int) == 51 * (v as int));
        assert(r0 as int == (scaled51(mm, e_small as int) + 10) / 20);
        assert(r0 <= 255);
        assert(pct_of(mm, e_small as int) == r0 as int);
    }
    r0
}

/// The channel value of a number whose integer part has at most two
/// digits and whose fraction is the rest of the digit string.
fn pct_frac(md: &Vec<char>, z: usize, p: usize) -> (r: u32)
    requires
        z + p < md@.len(),
        p <= 2,
        all_digits(md@),
    ensures
        r <= 255,
        r as int == pct_of(
            digits_val(md@.skip(z as int)),
            -((md@.len() - z - p) as int),
        ),
{
    let mut iv: u32 = 0;
    let mut j: usize = z;
    let mdn = md.len();
    let zp: usize = z + p;
    proof {
        assert(md@.subrange(z as int, z as int) =~= Seq::<char>::empty());
        assert(p10(0) == 1);
        assert(p10(1) == 10);
        assert(p10(2) == 100);
    }
    while j < zp
        invariant
            z <= j <= zp,
            zp == z + p,
            zp < md@.len(),
            all_digits(md@),
            p <= 2,
            iv as int == digits_val(md@.subrange(z as int, j as int)),
            iv < 100,
            ({
                let cnt = (j - z) as nat;
                iv < p10(cnt)
            }),
        decreases zp - j,
    {
        let d = ex_digit_val(md[j]);
        proof {
            let pre = md@.subrange(z as int, j as int);
            let pre2 = md@.subrange(z as int, j as int + 1);
            assert(pre2 =~= pre.push(md@[j as int]));
            lemma_digits_val_push(pre, md@[j as int]);
            assert(all_digits(pre2));
            lemma_digits_val_bounds(pre2);
            assert(p10(0) == 1);
            assert(p10(1) == 10);
            assert(p10(2) == 100);
            lemma_p10_mono((j - z + 1) as nat, 2);
        }
        iv = iv * 10 + d as u32;
        j += 1;
    }
    let mut c: u32 = 0;
    let mut j2: usize = md.len();
    proof {
        assert(md@.subrange(md@.len() as int, md@.len() as int) =~= Seq::<char>::empty());
        assert(p10(0) == 1);
        lemma_basic_div(0, 1);
    }
    while j2 > zp
        invariant
            zp <= j2 <= md@.len(),
            zp == z + p,
            all_digits(md@),
            c <= 50,
            c as int == (51 * digits_val(md@.subrange(j2 as int, md@.len() as int))) / p10(
                (md@.len() - j2) as nat,
            ),
        decreases j2,
    {
        j2 -= 1;
        let d = ex_digit_val(md[j2]);
        proof {
            let k2 = (md@.len() - j2 - 1) as nat;
            let tail = md@.subrange(j2 as int + 1, md@.len() as int);
            let sv = digits_val(tail);
            assert(all_digits(tail));
            lemma_digits_val_bounds(tail);
            assert(md@.subrange(j2 as int, md@.len() as int) =~= md@.subrange(
                j2 as int,
                j2 as int + 1,
            ) + tail);
            assert(md@.subrange(j2 as int, j2 as int + 1) =~= seq![md@[j2 as int]]);
            lemma_digits_val_single(md@[j2 as int]);
            lemma_digits_val_append(seq![md@[j2 as int]], tail);
            assert(tail.len() == k2 as int);
            lemma_carry_step(digit_val(md@[j2 as int]), sv, k2);
            assert(p10(k2 + 1) == p10((md@.len() - j2) as nat));
        }
        c = (51 * d as u32 + c) / 10;
    }
    let w: u32 = 51 * iv + c;
    let r0: u32 = (w + 10) / 20;
    proof {
        let k = (md@.len() - z - p) as nat;
        let fv = digits_val(md@.subrange(zp as int, md@.len() as int));
        assert(md@.skip(z as int) =~= md@.subrange(z as int, zp as int) + md@.subrange(
            zp as int,
            md@.len() as int,
        ));
        lemma_digits_val_append(
            md@.subrange(z as int, zp as int),
            md@.subrange(zp as int, md@.len() as int),
        );
        assert(all_digits(md@.subrange(zp as int, md@.len() as int)));
        lemma_digits_val_bounds(md@.subrange(zp as int, md@.len() as int));
        assert(md@.subrange(zp as int, md@.len() as int).len() == k as int);
        assert(digits_val(md@.skip(z as int)) == iv as int * p10(k) + fv);
        lemma_scaled_split(iv as int, fv, k);
        assert(scaled51(digits_val(md@.skip(z as int)), -(k as int)) == 51 * (iv as int)
            + c as int);
        assert(r0 as int == (scaled51(digits_val(md@.skip(z as int)), -(k as int)) + 10) / 20);
        assert(r0 <= 255);
        assert(pct_of(digits_val(md@.skip(z as int)), -(k as int)) == r0 as int);
    }
    r0
}

/// Parses a percentage token with its `%` sign already stripped.
#[verifier::rlimit(60)]
fn parse_percent_body(t: &[char]) -> (r: Option<u8>)
    ensures
        r == percent_spec(t@),
{
    let n = t.len();
    let has_sign = n > 0 && (*slice_index_get(t, 0) == '+' || *slice_index_get(t, 0) == '-');
    let sl: usize = if has_sign {
        1
    } else {
        0
    };
    let neg = n > 0 && *slice_index_get(t, 0) == '-';
    let b = slice_subrange(t, sl, n);
    proof {
        assert(b@ =~= int_body(t@));
        assert(neg == int_negative(t@));
    }
    let bn = b.len();
    if bn == 3 {
        let c0 = ex_lower(*slice_index_get(b, 0));
        let c1 = ex_lower(*slice_index_get(b, 1));
        let c2 = ex_lower(*slice_index_get(b, 2));
        if c0 == 'n' && c1 == 'a' && c2 == 'n' {
            return Some(0);
        }
        if c0 == 'i' && c1 == 'n' && c2 == 'f' {
            return if neg {
                Some(0)
            } else {
                Some(255)
            };
        }
    }
    if bn == 8 {
        let c0 = ex_lower(*slice_index_get(b, 0));
        let c1 = ex_lower(*slice_index_get(b, 1));
        let c2 = ex_lower(*slice_index_get(b, 2));
        let c3 = ex_lower(*slice_index_get(b, 3));
        let c4 = ex_lower(*slice_index_get(b, 4));
        let c5 = ex_lower(*slice_index_get(b, 5));
        let c6 = ex_lower(*slice_index_get(b, 6));
        let c7 = ex_lower(*slice_index_get(b, 7));
        if c0 == 'i' && c1 == 'n' && c2 == 'f' && c3 == 'i' && c4 == 'n' && c5 == 'i' && c6 == 't'
            && c7 == 'y' {
            return if neg {
                Some(0)
            } else {
                Some(255)
            };
        }
    }
    proof {
        assert(!is_nan_text(b@));
        assert(!is_inf_text(b@));
    }
    let ei = find_char_e(b);
    let m = slice_subrange(b, 0, ei);
    proof {
        assert(m@ =~= b@.take(find_e(b@)));
    }
    let fd = find_char_dot(m);
    if !mantissa_ok(m, fd) {
        return None;
    }
    let ghost xseq = b@.skip(find_e(b@) + 1);
    let mut exp_sat: i128 = 0;
    let ghost mut exp_real: int = 0;
    if ei < bn {
        let x = slice_subrange(b, ei + 1, bn);
        proof {
            assert(x@ =~= xseq);
        }
        match parse_exp(x) {
            Some(pr) => {
                exp_sat = pr.0;
                proof {
                    exp_real = pr.1@;
                }
            },
            None => {
                return None;
            },
        }
    }
    proof {
        assert(exp_rel(exp_real, exp_sat));
        assert(exp_real == exp_of(b@, find_e(b@)));
    }
    if neg {
        return Some(0);
    }
    let md = strip_dot(m, fd);
    let mn = m.len();
    let fl: usize = if fd == mn {
        0
    } else {
        mn - 1 - fd
    };
    proof {
        assert(fl as int == frac_len(m@));
    }
    let mut z: usize = 0;
    while z < md.len() && ex_digit_val(md[z]) == 0
        invariant
            0 <= z <= md@.len(),
            all_digits(md@),
            forall|i: int| 0 <= i < z ==> digit_val(#[trigger] md@[i]) == 0,
        decreases md@.len() - z,
    {
        z += 1;
    }
    let ghost e_int = exp_real - fl;
    if z == md.len() {
        proof {
            lemma_digits_val_zeros(md@);
            assert(digits_val(mant_digits(m@)) == 0);
            if e_int >= 0 {
                lemma_p10_pos(e_int as nat);
                assert(51int * 0 * p10(e_int as nat) == 0) by (nonlinear_arith);
            } else {
                lemma_p10_pos((-e_int) as nat);
                lemma_basic_div(0, p10((-e_int) as nat));
            }
            assert(scaled51(0, e_int) == 0);
            lemma_basic_div(10, 20);
            assert(pct_of(0, e_int) == 0);
        }
        return Some(0);
    }
    let len2: usize = md.len() - z;
    let ghost mm = digits_val(md@.skip(z as int));
    proof {
        lemma_digits_val_skip_zeros(md@, z as int);
        assert(mm == digits_val(mant_digits(m@)));
        assert(md@.skip(z as int).len() == len2 as int);
        assert(all_digits(md@.skip(z as int)));
        lemma_digits_val_bounds(md@.skip(z as int));
        assert(md@.skip(z as int)[0] == md@[z as int]);
        assert(is_digit(md@[z as int]) && digit_val(md@[z as int]) != 0);
        lemma_digits_val_lower(md@.skip(z as int));
        assert(usize::MAX as int <= u64::MAX as int);
    }
    let p_sat: i128 = exp_sat - fl as i128 + len2 as i128;
    let ghost p_real = e_int + len2;
    if p_sat >= 3 {
        proof {
            assert(p_real >= 3);
            lemma_pct_high(mm, e_int, len2 as nat);
        }
        return Some(255);
    }
    if p_sat <= -1 {
        proof {
            assert(p_real <= -1);
            lemma_pct_low(mm, e_int, len2 as nat);
        }
        return Some(0);
    }
    proof {
        assert(exp_real == exp_sat as int);
        assert(p_real == p_sat as int);
    }
    let p: usize = p_sat as usize;
    if p >= len2 {
        let r0 = pct_whole(&md, z, p - len2);
        proof {
            assert(e_int == (p - len2) as int);
            assert(pct_of(mm, e_int) == r0 as int);
        }
        Some(r0 as u8)
    } else {
        let r0 = pct_frac(&md, z, p);
        proof {
            assert(md@.len() - z - p == len2 - p);
            assert(e_int == -((len2 - p) as int));
            assert(pct_of(mm, e_int) == r0 as int);
        }
        Some(r0 as u8)
    }
}

/// Parses one channel token: the percentage rule when it ends in `%`,
/// the decimal-or-hexadecimal number rule otherwise; the flag says
/// whether the percentage rule applied.
pub fn parse_percent_or_255(t: &[char]) -> (r: Option<(u8, bool)>)
    ensures
        r == percent_or_255_spec(t@),
{
    let n = t.len();
    if n > 0 && *slice_index_get(t, n - 1) == '%' {
        let body = slice_subrange(t, 0, n - 1);
        proof {
            assert(body@ =~= t@.drop_last());
        }
        match parse_percent_body(body) {
            Some(v) => Some((v, true)),
            None => None,
        }
    } else {
        match parse_number(t) {
            Some(v) => Some((v, false)),
            None => None,
        }
    }
}

} // verus!
