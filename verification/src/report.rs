//! Report helpers: fixed-point percentage rendering.
//!
//! Percentages are rendered with exact integer arithmetic instead of
//! floating point: the ratio is scaled to hundredths of a percent and
//! rounded half up. A zero base would make the ratio undefined, so it is
//! rendered as "0.00%" rather than letting a non-finite value reach a
//! report.

use crate::text::push_char;
use vstd::prelude::*;

verus! {

/// The character for one decimal digit.
pub open spec fn digit_char(d: nat) -> char {
    if d == 0 {
        '0'
    } else if d == 1 {
        '1'
    } else if d == 2 {
        '2'
    } else if d == 3 {
        '3'
    } else if d == 4 {
        '4'
    } else if d == 5 {
        '5'
    } else if d == 6 {
        '6'
    } else if d == 7 {
        '7'
    } else if d == 8 {
        '8'
    } else {
        '9'
    }
}

/// The decimal digits of a number, most significant first.
pub open spec fn dec_digits(n: nat) -> Seq<char>
    decreases n,
{
    if n < 10 {
        seq![digit_char(n)]
    } else {
        dec_digits(n / 10).push(digit_char(n % 10))
    }
}

/// The rendering of `percent / base * 100` with two decimal places,
/// rounded half up; a zero base renders as "0.00%".
pub open spec fn spec_percentage(base: nat, percent: nat) -> Seq<char> {
    if base == 0 {
        seq!['0', '.', '0', '0', '%']
    } else {
        let h = (20000 * percent + base) / (2 * base);
        dec_digits(h / 100) + seq!['.', digit_char((h / 10) % 10), digit_char(h % 10), '%']
    }
}

/// The character for one decimal digit.
fn digit_to_char(d: u128) -> (c: char)
    requires
        d < 10,
    ensures
        c == digit_char(d as nat),
{
    if d == 0 {
        '0'
    } else if d == 1 {
        '1'
    } else if d == 2 {
        '2'
    } else if d == 3 {
        '3'
    } else if d == 4 {
        '4'
    } else if d == 5 {
        '5'
    } else if d == 6 {
        '6'
    } else if d == 7 {
        '7'
    } else if d == 8 {
        '8'
    } else {
        '9'
    }
}

/// Appends the decimal digits of `n`, most significant first.
fn push_decimal(s: &mut String, n: u128)
    ensures
        final(s)@ == old(s)@ + dec_digits(n as nat),
    decreases n,
{
    if n < 10 {
        push_char(s, digit_to_char(n));
        proof {
            assert(final(s)@ =~= old(s)@ + dec_digits(n as nat));
        }
    } else {
        push_decimal(s, n / 10);
        push_char(s, digit_to_char(n % 10));
        proof {
            assert(final(s)@ =~= old(s)@ + dec_digits(n as nat));
        }
    }
}

/// Renders `percent / base * 100` to two decimal places ("25.00%"). A zero
/// base is rendered as "0.00%" so that no non-finite or undefined value
/// ever reaches a report.
pub fn get_fancy_percentage(base: usize, percent: usize) -> (r: String)
    ensures
        r@ == spec_percentage(base as nat, percent as nat),
{
    let mut s = String::new();
    if base == 0 {
        push_char(&mut s, '0');
        push_char(&mut s, '.');
        push_char(&mut s, '0');
        push_char(&mut s, '0');
        push_char(&mut s, '%');
        proof {
            assert(s@ =~= seq!['0', '.', '0', '0', '%']);
        }
        return s;
    }
    let b = base as u128;
    let p = percent as u128;
    proof {
        assert(p <= 0xffff_ffff_ffff_ffff);
        assert(20000 * p <= 20000 * 0xffff_ffff_ffff_ffffu128) by (nonlinear_arith)
            requires
                p <= 0xffff_ffff_ffff_ffffu128,
        ;
        assert(2 * b <= 2 * 0xffff_ffff_ffff_ffffu128) by (nonlinear_arith)
            requires
                b <= 0xffff_ffff_ffff_ffffu128,
        ;
    }
    let h = (20000 * p + b) / (2 * b);
    push_decimal(&mut s, h / 100);
    push_char(&mut s, '.');
    push_char(&mut s, digit_to_char((h / 10) % 10));
    push_char(&mut s, digit_to_char(h % 10));
    push_char(&mut s, '%');
    proof {
        let hn = ((20000 * (percent as nat) + (base as nat)) / (2 * (base as nat))) as nat;
        assert(h == hn);
        assert(s@ =~= dec_digits(hn / 100) + seq![
            '.',
            digit_char((hn / 10) % 10),
            digit_char(hn % 10),
            '%',
        ]);
    }
    s
}

} // verus!
