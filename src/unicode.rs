//! Hexadecimal digits and UTF-16 code units, as found in `\u` escapes.

use vstd::prelude::*;

verus! {

pub open spec fn hex_value(c: char) -> Option<u16> {
    if '0' <= c && c <= '9' {
        Some((c as u32 - '0' as u32) as u16)
    } else if 'a' <= c && c <= 'f' {
        Some((c as u32 - 'a' as u32 + 10) as u16)
    } else if 'A' <= c && c <= 'F' {
        Some((c as u32 - 'A' as u32 + 10) as u16)
    } else {
        None
    }
}

/// The code unit that four hexadecimal digits at `i` spell, most significant
/// first; `None` where the text ends first or a character is no hex digit.
pub open spec fn hex4(s: Seq<char>, i: int) -> Option<u16> {
    if 0 <= i && i + 4 <= s.len() && hex_value(s[i]) is Some && hex_value(s[i + 1]) is Some
        && hex_value(s[i + 2]) is Some && hex_value(s[i + 3]) is Some {
        Some(
            (hex_value(s[i])->0 * 0x1000 + hex_value(s[i + 1])->0 * 0x100 + hex_value(s[i + 2])->0
                * 0x10 + hex_value(s[i + 3])->0) as u16,
        )
    } else {
        None
    }
}

pub open spec fn is_high_surrogate(u: u16) -> bool {
    0xD800 <= u <= 0xDBFF
}

pub open spec fn is_low_surrogate(u: u16) -> bool {
    0xDC00 <= u <= 0xDFFF
}

/// A value that a `char` can hold.
pub open spec fn is_scalar_value(v: u32) -> bool {
    v <= 0x10FFFF && !(0xD800 <= v <= 0xDFFF)
}

pub open spec fn pair_value(hi: u16, lo: u16) -> u32 {
    (0x10000 + (hi - 0xD800) * 0x400 + (lo - 0xDC00)) as u32
}

/// Decodes UTF-16 code units from index `k` on: a unit outside the surrogate
/// ranges is a character by itself, a high surrogate followed by a low one is
/// one character, and any other surrogate makes the whole sequence invalid.
pub open spec fn decode_utf16_from(u: Seq<u16>, k: int) -> Option<Seq<char>>
    decreases u.len() - k,
{
    if k < 0 || k >= u.len() {
        Some(seq![])
    } else if is_high_surrogate(u[k]) {
        if k + 1 < u.len() && is_low_surrogate(u[k + 1]) {
            match decode_utf16_from(u, k + 2) {
                Some(r) => Some(seq![pair_value(u[k], u[k + 1]) as char] + r),
                None => None,
            }
        } else {
            None
        }
    } else if is_low_surrogate(u[k]) {
        None
    } else {
        match decode_utf16_from(u, k + 1) {
            Some(r) => Some(seq![(u[k] as u32) as char] + r),
            None => None,
        }
    }
}

pub open spec fn decode_utf16(u: Seq<u16>) -> Option<Seq<char>> {
    decode_utf16_from(u, 0)
}

/// Relies on `char::from_u32`: `Some` of the character with that value exactly
/// when the value is a Unicode scalar value.
#[verifier::external_body]
fn char_from_u32(v: u32) -> (r: Option<char>)
    ensures
        is_scalar_value(v) ==> r == Some(v as char),
        !is_scalar_value(v) ==> r is None,
{
    char::from_u32(v)
}

pub fn hex_digit(c: char) -> (r: Option<u16>)
    ensures
        r == hex_value(c),
{
    if '0' <= c && c <= '9' {
        Some((c as u32 - '0' as u32) as u16)
    } else if 'a' <= c && c <= 'f' {
        Some((c as u32 - 'a' as u32 + 10) as u16)
    } else if 'A' <= c && c <= 'F' {
        Some((c as u32 - 'A' as u32 + 10) as u16)
    } else {
        None
    }
}

/// Reads the four hexadecimal digits of a `\u` escape at `i`.
pub fn read_hex4(s: &Vec<char>, i: usize) -> (r: Option<u16>)
    ensures
        r == hex4(s@, i as int),
{
    if i > s.len() || s.len() - i < 4 {
        return None;
    }
    let d0 = hex_digit(s[i]);
    let d1 = hex_digit(s[i + 1]);
    let d2 = hex_digit(s[i + 2]);
    let d3 = hex_digit(s[i + 3]);
    match (d0, d1, d2, d3) {
        (Some(a), Some(b), Some(c), Some(d)) => {
            Some(a * 0x1000 + b * 0x100 + c * 0x10 + d)
        },
        _ => None,
    }
}

/// Appends to `out` the characters that the code units `u` decode to; returns
/// `false`, with `out` in any state, where `u` is not valid UTF-16.
pub fn append_utf16(u: &Vec<u16>, out: &mut Vec<char>) -> (ok: bool)
    ensures
        match decode_utf16(u@) {
            Some(cs) => ok && final(out)@ == old(out)@ + cs,
            None => !ok,
        },
{
    let ghost start = out@;
    let mut k: usize = 0;
    while k < u.len()
        invariant
            k <= u.len(),
            decode_utf16(u@) == match decode_utf16_from(u@, k as int) {
                Some(r) => Some(out@.subrange(start.len() as int, out@.len() as int) + r),
                None => None::<Seq<char>>,
            },
            start.len() <= out@.len(),
            out@.subrange(0, start.len() as int) == start,
        decreases u.len() - k,
    {
        let w = u[k];
        let ghost done = out@.subrange(start.len() as int, out@.len() as int);
        if 0xD800 <= w && w <= 0xDBFF {
            if k + 1 < u.len() && 0xDC00 <= u[k + 1] && u[k + 1] <= 0xDFFF {
                let lo = u[k + 1];
                let v: u32 = 0x10000 + (w as u32 - 0xD800) * 0x400 + (lo as u32 - 0xDC00);
                match char_from_u32(v) {
                    Some(c) => out.push(c),
                    None => return false,
                }
                k = k + 2;
            } else {
                return false;
            }
        } else if 0xDC00 <= w && w <= 0xDFFF {
            return false;
        } else {
            match char_from_u32(w as u32) {
                Some(c) => out.push(c),
                None => return false,
            }
            k = k + 1;
        }
        assert(out@.subrange(start.len() as int, out@.len() as int) =~= done.push(out@.last()));
        assert(out@.subrange(0, start.len() as int) =~= start);
        proof {
            let r = decode_utf16_from(u@, k as int);
            if r is Some {
                assert(done + (seq![out@.last()] + r->0) =~= done.push(out@.last()) + r->0);
            }
        }
    }
    assert(out@ =~= start + out@.subrange(start.len() as int, out@.len() as int));
    true
}

} // verus!
