//! The grammar of decimal floating-point literals that a number token must
//! meet: `[+-]? (digits | digits '.' digits? | '.' digits) ([eE] [+-]? digits)?`.

use vstd::prelude::*;
use crate::scan::{CharClass, span_end, is_sign, find_span_end};

verus! {

/// Where the mantissa's leading digits start: after an optional sign.
pub open spec fn mantissa_start(t: Seq<char>) -> int {
    if t.len() > 0 && is_sign(t[0]) {
        1
    } else {
        0
    }
}

/// Where the mantissa ends: after its integer digits, and after a decimal
/// point and the fraction digits if a point follows them.
pub open spec fn mantissa_end(t: Seq<char>) -> int {
    let m = span_end(t, mantissa_start(t), CharClass::Digit);
    if m < t.len() && t[m] == '.' {
        span_end(t, m + 1, CharClass::Digit)
    } else {
        m
    }
}

/// The mantissa holds at least one digit, before or after the point.
pub open spec fn mantissa_has_digit(t: Seq<char>) -> bool {
    let a = mantissa_start(t);
    let m = span_end(t, a, CharClass::Digit);
    m > a || (m < t.len() && t[m] == '.' && span_end(t, m + 1, CharClass::Digit) > m + 1)
}

/// What follows the mantissa, from `f` on, is empty or a complete exponent.
pub open spec fn exponent_ok(t: Seq<char>, f: int) -> bool {
    f == t.len() || (f < t.len() && (t[f] == 'e' || t[f] == 'E') && {
        let g = if f + 1 < t.len() && is_sign(t[f + 1]) {
            f + 2
        } else {
            f + 1
        };
        let h = span_end(t, g, CharClass::Digit);
        h > g && h == t.len()
    })
}

/// The text is a decimal floating-point literal.
pub open spec fn is_float_literal(t: Seq<char>) -> bool {
    mantissa_has_digit(t) && exponent_ok(t, mantissa_end(t))
}

/// Decides whether `t` is a decimal floating-point literal.
pub fn check_float_literal(t: &Vec<char>) -> (r: bool)
    ensures
        r == is_float_literal(t@),
{
    let n = t.len();
    let a: usize = if n > 0 && (t[0] == '+' || t[0] == '-') {
        1
    } else {
        0
    };
    let m = find_span_end(t, a, CharClass::Digit);
    let has_dot = m < n && t[m] == '.';
    let f = if has_dot {
        find_span_end(t, m + 1, CharClass::Digit)
    } else {
        m
    };
    let has_digit = m > a || (has_dot && f > m + 1);
    if !has_digit {
        return false;
    }
    if f == n {
        return true;
    }
    if t[f] != 'e' && t[f] != 'E' {
        return false;
    }
    let g: usize = if f + 1 < n && (t[f + 1] == '+' || t[f + 1] == '-') {
        f + 2
    } else {
        f + 1
    };
    let h = find_span_end(t, g, CharClass::Digit);
    h > g && h == n
}

} // verus!
