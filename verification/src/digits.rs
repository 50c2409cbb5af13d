//! Values of digit sequences, powers of ten, and the arithmetic facts
//! about them that the parsers' proofs rest on.

use vstd::prelude::*;
use crate::chars::{is_digit, digit_val, is_hex_digit, hex_val};

verus! {

/// Ten to the power `k`.
pub open spec fn p10(k: nat) -> int
    decreases k,
{
    if k == 0 {
        1
    } else {
        10 * p10((k - 1) as nat)
    }
}

/// Every character of `s` is a decimal digit.
pub open spec fn all_digits(s: Seq<char>) -> bool {
    forall|i: int| 0 <= i < s.len() ==> is_digit(#[trigger] s[i])
}

/// Every character of `s` is a hexadecimal digit.
pub open spec fn all_hex_digits(s: Seq<char>) -> bool {
    forall|i: int| 0 <= i < s.len() ==> is_hex_digit(#[trigger] s[i])
}

/// The value of `s` read as a decimal numeral.
pub open spec fn digits_val(s: Seq<char>) -> int
    decreases s.len(),
{
    if s.len() == 0 {
        0
    } else {
        digits_val(s.drop_last()) * 10 + digit_val(s.last())
    }
}

/// The value of `s` read as a hexadecimal numeral.
pub open spec fn hex_digits_val(s: Seq<char>) -> int
    decreases s.len(),
{
    if s.len() == 0 {
        0
    } else {
        hex_digits_val(s.drop_last()) * 16 + hex_val(s.last())
    }
}

pub proof fn lemma_p10_pos(k: nat)
    ensures
        p10(k) >= 1,
    decreases k,
{
    if k > 0 {
        lemma_p10_pos((k - 1) as nat);
    }
}

pub proof fn lemma_p10_adds(a: nat, b: nat)
    ensures
        p10(a + b) == p10(a) * p10(b),
    decreases a,
{
    if a == 0 {
    } else {
        lemma_p10_adds((a - 1) as nat, b);
        assert(p10(a + b) == 10 * p10((a + b - 1) as nat));
        assert(10 * (p10((a - 1) as nat) * p10(b)) == (10 * p10((a - 1) as nat)) * p10(b))
            by (nonlinear_arith);
    }
}

pub proof fn lemma_p10_mono(a: nat, b: nat)
    requires
        a <= b,
    ensures
        p10(a) <= p10(b),
{
    lemma_p10_adds(a, (b - a) as nat);
    lemma_p10_pos(a);
    lemma_p10_pos((b - a) as nat);
    assert(p10(a) * p10((b - a) as nat) >= p10(a) * 1) by (nonlinear_arith)
        requires
            p10(a) >= 1 && p10((b - a) as nat) >= 1,
    ;
}

/// A digit string's value is at least zero and below ten to its length.
pub proof fn lemma_digits_val_bounds(s: Seq<char>)
    requires
        all_digits(s),
    ensures
        0 <= digits_val(s) < p10(s.len()),
    decreases s.len(),
{
    if s.len() > 0 {
        lemma_digits_val_bounds(s.drop_last());
        let h = digits_val(s.drop_last());
        let n = (s.len() - 1) as nat;
        assert(is_digit(s[s.len() - 1]));
        assert(h * 10 + digit_val(s.last()) < p10(n) * 10) by (nonlinear_arith)
            requires
                0 <= h < p10(n) && 0 <= digit_val(s.last()) <= 9,
        ;
        assert(p10(n) * 10 == p10(s.len()));
    }
}

/// Splitting a digit string splits its value: the left part is scaled
/// by ten to the length of the right part.
pub proof fn lemma_digits_val_append(a: Seq<char>, b: Seq<char>)
    ensures
        digits_val(a + b) == digits_val(a) * p10(b.len()) + digits_val(b),
    decreases b.len(),
{
    if b.len() == 0 {
        assert(a + b =~= a);
        assert(digits_val(b) == 0);
        assert(p10(b.len()) == 1);
        assert(digits_val(a) * 1 == digits_val(a)) by (nonlinear_arith);
    } else {
        lemma_digits_val_append(a, b.drop_last());
        assert((a + b).drop_last() =~= a + b.drop_last());
        assert((a + b).last() == b.last());
        let va = digits_val(a);
        let k = (b.len() - 1) as nat;
        assert((va * p10(k) + digits_val(b.drop_last())) * 10 == va * (10 * p10(k)) + digits_val(
            b.drop_last(),
        ) * 10) by (nonlinear_arith);
        assert(p10(b.len()) == 10 * p10(k));
        assert(digits_val(a + b) == digits_val(a + b.drop_last()) * 10 + digit_val(b.last()));
        assert(digits_val(a + b) == (va * p10(k) + digits_val(b.drop_last())) * 10 + digit_val(
            b.last(),
        ));
        assert(digits_val(b) == digits_val(b.drop_last()) * 10 + digit_val(b.last()));
        assert(va * (10 * p10(k)) == va * p10(b.len())) by (nonlinear_arith)
            requires
                10 * p10(k) == p10(b.len()),
        ;
        assert(digits_val(a + b) == va * p10(b.len()) + digits_val(b));
    }
}

/// Same split for hexadecimal strings, scaled by sixteen.
pub proof fn lemma_hex_digits_val_bounds(s: Seq<char>)
    requires
        all_hex_digits(s),
    ensures
        0 <= hex_digits_val(s),
    decreases s.len(),
{
    if s.len() > 0 {
        lemma_hex_digits_val_bounds(s.drop_last());
        assert(is_hex_digit(s[s.len() - 1]));
        let h = hex_digits_val(s.drop_last());
        assert(h * 16 >= 0) by (nonlinear_arith)
            requires
                h >= 0,
        ;
    }
}

/// A run of zero-valued digits has value zero.
pub proof fn lemma_digits_val_zeros(s: Seq<char>)
    requires
        forall|i: int| 0 <= i < s.len() ==> digit_val(#[trigger] s[i]) == 0,
    ensures
        digits_val(s) == 0,
    decreases s.len(),
{
    if s.len() > 0 {
        lemma_digits_val_zeros(s.drop_last());
        assert(s.last() == s[s.len() - 1]);
    }
}

/// Leading zeros do not change a digit string's value.
pub proof fn lemma_digits_val_skip_zeros(s: Seq<char>, z: int)
    requires
        0 <= z <= s.len(),
        forall|i: int| 0 <= i < z ==> digit_val(#[trigger] s[i]) == 0,
    ensures
        digits_val(s) == digits_val(s.skip(z)),
{
    assert(s =~= s.take(z) + s.skip(z));
    lemma_digits_val_append(s.take(z), s.skip(z));
    lemma_digits_val_zeros(s.take(z));
}

/// A digit string with a nonzero first digit is at least ten to the
/// power of one less than its length.
pub proof fn lemma_digits_val_lower(s: Seq<char>)
    requires
        all_digits(s),
        s.len() >= 1,
        digit_val(s[0]) >= 1,
    ensures
        digits_val(s) >= p10((s.len() - 1) as nat),
{
    let a = s.take(1);
    let b = s.skip(1);
    assert(s =~= a + b);
    lemma_digits_val_append(a, b);
    assert(a.drop_last() =~= Seq::<char>::empty());
    assert(a.last() == s[0]);
    assert(is_digit(s[0]));
    lemma_digits_val_bounds(b);
    let k = (s.len() - 1) as nat;
    lemma_p10_pos(k);
    assert(digits_val(Seq::<char>::empty()) == 0);
    assert(digits_val(a) == digits_val(a.drop_last()) * 10 + digit_val(a.last()));
    assert(digits_val(a) == digit_val(s[0]));
    assert(digits_val(a) * p10(k) >= 1 * p10(k)) by (nonlinear_arith)
        requires
            digits_val(a) >= 1 && p10(k) >= 0,
    ;
}

/// Appending one digit multiplies by ten and adds the digit: the
/// step a left-to-right accumulator takes.
pub proof fn lemma_digits_val_push(s: Seq<char>, c: char)
    ensures
        digits_val(s.push(c)) == digits_val(s) * 10 + digit_val(c),
{
    assert(s.push(c).drop_last() =~= s);
    assert(s.push(c).last() == c);
}

/// The hexadecimal accumulator step.
pub proof fn lemma_hex_digits_val_push(s: Seq<char>, c: char)
    ensures
        hex_digits_val(s.push(c)) == hex_digits_val(s) * 16 + hex_val(c),
{
    assert(s.push(c).drop_last() =~= s);
    assert(s.push(c).last() == c);
}

} // verus!
