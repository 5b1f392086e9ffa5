//! Character classes and runs of characters in the source text.

use vstd::prelude::*;

verus! {

/// Whitespace carries no meaning between tokens.
pub open spec fn is_whitespace(c: char) -> bool {
    c == ' ' || c == '\t' || c == '\n' || c == '\r'
}

pub open spec fn is_lower(c: char) -> bool {
    'a' <= c && c <= 'z'
}

pub open spec fn is_digit(c: char) -> bool {
    '0' <= c && c <= '9'
}

pub open spec fn is_sign(c: char) -> bool {
    c == '+' || c == '-'
}

/// The characters that a number scan takes, with no grammar imposed yet.
pub open spec fn is_number_char(c: char) -> bool {
    is_digit(c) || is_sign(c) || c == '.' || c == 'e' || c == 'E'
}

/// A number token starts with a digit or a minus sign.
pub open spec fn starts_number(c: char) -> bool {
    is_digit(c) || c == '-'
}

/// The class of characters that `span_end` runs over.
pub enum CharClass {
    Whitespace,
    Lower,
    Digit,
    NumberChar,
}

pub open spec fn in_class(k: CharClass, c: char) -> bool {
    match k {
        CharClass::Whitespace => is_whitespace(c),
        CharClass::Lower => is_lower(c),
        CharClass::Digit => is_digit(c),
        CharClass::NumberChar => is_number_char(c),
    }
}

/// The end of the longest run of characters of class `k` that starts at `i`.
pub open spec fn span_end(s: Seq<char>, i: int, k: CharClass) -> int
    decreases s.len() - i,
{
    if 0 <= i < s.len() && in_class(k, s[i]) {
        span_end(s, i + 1, k)
    } else {
        i
    }
}

pub proof fn lemma_span_end_bounds(s: Seq<char>, i: int, k: CharClass)
    requires
        0 <= i <= s.len(),
    ensures
        i <= span_end(s, i, k) <= s.len(),
        forall|j: int| i <= j < span_end(s, i, k) ==> in_class(k, #[trigger] s[j]),
        span_end(s, i, k) < s.len() ==> !in_class(k, s[span_end(s, i, k)]),
    decreases s.len() - i,
{
    if i < s.len() && in_class(k, s[i]) {
        lemma_span_end_bounds(s, i + 1, k);
    }
}

pub fn char_in_class(k: &CharClass, c: char) -> (r: bool)
    ensures
        r == in_class(*k, c),
{
    match k {
        CharClass::Whitespace => c == ' ' || c == '\t' || c == '\n' || c == '\r',
        CharClass::Lower => 'a' <= c && c <= 'z',
        CharClass::Digit => '0' <= c && c <= '9',
        CharClass::NumberChar => ('0' <= c && c <= '9') || c == '+' || c == '-' || c == '.'
            || c == 'e' || c == 'E',
    }
}

/// Returns the end of the run of class `k` in `s` that starts at `i`.
pub fn find_span_end(s: &Vec<char>, i: usize, k: CharClass) -> (r: usize)
    requires
        i <= s.len(),
    ensures
        r as int == span_end(s@, i as int, k),
        i <= r <= s.len(),
{
    let mut j: usize = i;
    while j < s.len() && char_in_class(&k, s[j])
        invariant
            i <= j <= s.len(),
            span_end(s@, j as int, k) == span_end(s@, i as int, k),
        decreases s.len() - j,
    {
        j = j + 1;
    }
    j
}

} // verus!
