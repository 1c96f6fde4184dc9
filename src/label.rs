//! Decimal text of exact values: an integer `n` read as `n / 10^prec` and
//! written with exactly `prec` digits after the point.
use vstd::prelude::*;
use crate::nice::{pow10, pow10_u128, lemma_pow10_pos};

verus! {

/// The character of the decimal digit `d`.
pub open spec fn digit_char(d: int) -> char {
    ((48 + d) as u8) as char
}

/// The decimal digits of `n`, without leading zeros ("0" for zero).
pub open spec fn digits(n: nat) -> Seq<char>
    decreases n,
{
    if n < 10 {
        seq![digit_char(n as int)]
    } else {
        digits(n / 10).push(digit_char((n % 10) as int))
    }
}

/// The last `w` decimal digits of `n`, with leading zeros.
pub open spec fn padded(n: nat, w: nat) -> Seq<char>
    decreases w,
{
    if w == 0 {
        seq![]
    } else {
        padded(n / 10, (w - 1) as nat).push(digit_char((n % 10) as int))
    }
}

/// The text of `n / 10^prec` with `prec` digits after the point, and a
/// minus sign when negative.
pub open spec fn fixed_text(n: int, prec: nat) -> Seq<char> {
    let a = if n < 0 {
        -n
    } else {
        n
    };
    let sign = if n < 0 {
        seq!['-']
    } else {
        seq![]
    };
    let whole = digits((a / pow10(prec)) as nat);
    if prec == 0 {
        sign + whole
    } else {
        sign + whole + seq!['.'] + padded((a % pow10(prec)) as nat, prec)
    }
}

fn digit(d: u128) -> (c: char)
    requires
        d < 10,
    ensures
        c == digit_char(d as int),
{
    ((48 + d) as u8) as char
}

fn push_digits(n: u128, out: &mut Vec<char>)
    ensures
        final(out)@ == old(out)@ + digits(n as nat),
    decreases n,
{
    if n >= 10 {
        push_digits(n / 10, out);
    }
    out.push(digit(n % 10));
}

fn push_padded(n: u128, w: u32, out: &mut Vec<char>)
    ensures
        final(out)@ == old(out)@ + padded(n as nat, w as nat),
    decreases w,
{
    if w > 0 {
        push_padded(n / 10, w - 1, out);
        out.push(digit(n % 10));
    } else {
        assert(old(out)@ + padded(n as nat, 0) =~= old(out)@);
    }
}

/// Relies on std's `FromIterator<&char>` for `String`: the string holds the
/// characters in order.
#[verifier::external_body]
fn text_of(chars: &Vec<char>) -> (r: String)
    ensures
        r@ == chars@,
{
    chars.iter().collect()
}

/// The text of `n / 10^prec` with exactly `prec` digits after the point.
pub fn fixed_label(n: i128, prec: u32) -> (r: String)
    requires
        n > i128::MIN,
        prec <= 30,
    ensures
        r@ == fixed_text(n as int, prec as nat),
{
    let a: u128 = if n < 0 {
        (0 - n) as u128
    } else {
        n as u128
    };
    let pw = pow10_u128(prec);
    proof {
        lemma_pow10_pos(prec as nat);
    }
    let mut out: Vec<char> = Vec::new();
    if n < 0 {
        out.push('-');
    }
    push_digits(a / pw, &mut out);
    if prec > 0 {
        out.push('.');
        push_padded(a % pw, prec, &mut out);
    }
    text_of(&out)
}

} // verus!
