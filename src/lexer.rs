//! The tokenizer: a cursor over the source characters that produces one token
//! per request.

use vstd::prelude::*;
use crate::number::{is_float_literal, check_float_literal};
use crate::scan::{
    CharClass, span_end, is_lower, starts_number, lemma_span_end_bounds, find_span_end,
};
use crate::text::{chars_of, string_from_chars};
use crate::token::{Lexeme, Token, TokenType, keyword_of, symbol_of, keyword_type, symbol_type};
use crate::unicode::{
    decode_utf16, decode_utf16_from, hex4, read_hex4, append_utf16, is_high_surrogate,
    is_low_surrogate, pair_value,
};

verus! {

/// Why no token could be read.
#[derive(Debug, PartialEq, Eq, Clone, Copy)]
pub enum LexError {
    /// Only whitespace is left.
    EndOfInput,
    /// A character that starts no token.
    InvalidSymbol(char),
    /// A word of lower-case letters that is no keyword.
    UnknownKeyword,
    /// A run of number characters that is no decimal literal.
    MalformedNumber,
    /// The text ends inside a string literal.
    UnterminatedString,
    /// A `\u` escape without four hexadecimal digits.
    InvalidUnicodeEscape,
    /// `\u` escapes whose code units are not valid UTF-16.
    InvalidUnicodeSequence,
}

/// The escapes that a string keeps as written, backslash included.
pub open spec fn is_kept_escape(c: char) -> bool {
    c == '"' || c == '\\' || c == '/' || c == 'b' || c == 'f' || c == 'n' || c == 'r' || c == 't'
}

/// `out` followed by what the pending code units decode to.
pub open spec fn flush(out: Seq<char>, buf: Seq<u16>) -> Option<Seq<char>> {
    match decode_utf16(buf) {
        Some(cs) => Some(out + cs),
        None => None,
    }
}

/// Scans the body of a string literal from `i`, with the text decoded so far
/// in `out` and the code units of `\u` escapes not yet decoded in `buf`.
/// Gives the decoded text and the index after the closing quote.
pub open spec fn scan_string(s: Seq<char>, i: int, out: Seq<char>, buf: Seq<u16>) -> Result<
    (Seq<char>, int),
    LexError,
>
    decreases s.len() - i,
{
    if i < 0 || i >= s.len() {
        Err(LexError::UnterminatedString)
    } else if s[i] == '"' {
        match flush(out, buf) {
            Some(o) => Ok((o, i + 1)),
            None => Err(LexError::InvalidUnicodeSequence),
        }
    } else if s[i] == '\\' {
        if i + 1 >= s.len() {
            Err(LexError::UnterminatedString)
        } else if s[i + 1] == 'u' {
            match hex4(s, i + 2) {
                Some(w) => scan_string(s, i + 6, out, buf.push(w)),
                None => Err(LexError::InvalidUnicodeEscape),
            }
        } else {
            match flush(out, buf) {
                Some(o) => scan_string(
                    s,
                    i + 2,
                    if is_kept_escape(s[i + 1]) {
                        o + seq!['\\', s[i + 1]]
                    } else {
                        o.push(s[i + 1])
                    },
                    seq![],
                ),
                None => Err(LexError::InvalidUnicodeSequence),
            }
        }
    } else {
        match flush(out, buf) {
            Some(o) => scan_string(s, i + 1, o.push(s[i]), seq![]),
            None => Err(LexError::InvalidUnicodeSequence),
        }
    }
}

/// The keyword token whose word starts at `j`.
pub open spec fn keyword_token(s: Seq<char>, j: int) -> Result<(Lexeme, int), LexError> {
    let e = span_end(s, j, CharClass::Lower);
    match keyword_of(s.subrange(j, e)) {
        Some(t) => Ok((t, e)),
        None => Err(LexError::UnknownKeyword),
    }
}

/// The number token whose text starts at `j`.
pub open spec fn number_token(s: Seq<char>, j: int) -> Result<(Lexeme, int), LexError> {
    let e = span_end(s, j, CharClass::NumberChar);
    if is_float_literal(s.subrange(j, e)) {
        Ok((Lexeme::Number(s.subrange(j, e)), e))
    } else {
        Err(LexError::MalformedNumber)
    }
}

/// The string token whose opening quote is at `j`.
pub open spec fn string_token(s: Seq<char>, j: int) -> Result<(Lexeme, int), LexError> {
    match scan_string(s, j + 1, seq![], seq![]) {
        Ok((t, e)) => Ok((Lexeme::Str(t), e)),
        Err(x) => Err(x),
    }
}

/// The symbol token at `j`.
pub open spec fn symbol_token(s: Seq<char>, j: int) -> Result<(Lexeme, int), LexError> {
    match symbol_of(s[j]) {
        Some(t) => Ok((t, j + 1)),
        None => Err(LexError::InvalidSymbol(s[j])),
    }
}

/// The token that starts at `i` after whitespace, and the index after it.
pub open spec fn lex_token(s: Seq<char>, i: int) -> Result<(Lexeme, int), LexError> {
    let j = span_end(s, i, CharClass::Whitespace);
    if !(0 <= j < s.len()) {
        Err(LexError::EndOfInput)
    } else if is_lower(s[j]) {
        keyword_token(s, j)
    } else if starts_number(s[j]) {
        number_token(s, j)
    } else if s[j] == '"' {
        string_token(s, j)
    } else {
        symbol_token(s, j)
    }
}

/// The tokens read from `i` on, up to the first failure, and that failure
/// (`EndOfInput` where the text is used up).
#[verifier::opaque]
pub open spec fn tokens(s: Seq<char>, i: int) -> (Seq<Lexeme>, LexError)
    decreases s.len() - i,
    via tokens_decreases
{
    match lex_token(s, i) {
        Ok((t, e)) => {
            let rest = tokens(s, e);
            (seq![t] + rest.0, rest.1)
        },
        Err(x) => (seq![], x),
    }
}

#[via_fn]
proof fn tokens_decreases(s: Seq<char>, i: int) {
    lemma_lex_progress(s, i);
}

proof fn lemma_scan_progress(s: Seq<char>, i: int, out: Seq<char>, buf: Seq<u16>)
    ensures
        scan_string(s, i, out, buf) matches Ok((_, e)) ==> i < e <= s.len(),
    decreases s.len() - i,
{
    if 0 <= i < s.len() && s[i] == '\\' && i + 1 < s.len() {
        if s[i + 1] == 'u' {
            if let Some(w) = hex4(s, i + 2) {
                lemma_scan_progress(s, i + 6, out, buf.push(w));
            }
        } else if let Some(o) = flush(out, buf) {
            let o2 = if is_kept_escape(s[i + 1]) {
                o + seq!['\\', s[i + 1]]
            } else {
                o.push(s[i + 1])
            };
            lemma_scan_progress(s, i + 2, o2, seq![]);
        }
    } else if 0 <= i < s.len() && s[i] != '"' {
        if let Some(o) = flush(out, buf) {
            lemma_scan_progress(s, i + 1, o.push(s[i]), seq![]);
        }
    }
}

/// A token that is read takes at least one character.
pub proof fn lemma_lex_progress(s: Seq<char>, i: int)
    ensures
        lex_token(s, i) matches Ok((_, e)) ==> i < e <= s.len(),
{
    let j = span_end(s, i, CharClass::Whitespace);
    if 0 <= j < s.len() {
        if i < 0 {
            assert(j == i);
        } else if i <= s.len() {
            lemma_span_end_bounds(s, i, CharClass::Whitespace);
        }
        if i > s.len() {
            assert(j == i);
        }
        lemma_span_end_bounds(s, j, CharClass::Lower);
        lemma_span_end_bounds(s, j, CharClass::NumberChar);
        lemma_scan_progress(s, j + 1, seq![], seq![]);
    }
}

/// A quoted string with no quote or backslash inside is a string token that
/// holds those characters as they are.
pub proof fn lemma_plain_string_token(s: Seq<char>, j: int, close: int)
    requires
        0 <= j < close < s.len(),
        s[j] == '"',
        s[close] == '"',
        forall|i: int| j < i < close ==> #[trigger] s[i] != '"' && s[i] != '\\',
    ensures
        string_token(s, j) == Ok::<(Lexeme, int), LexError>(
            (Lexeme::Str(s.subrange(j + 1, close)), close + 1),
        ),
{
    lemma_scan_plain(s, j + 1, close, seq![]);
    assert(seq![] + s.subrange(j + 1, close) =~= s.subrange(j + 1, close));
}

proof fn lemma_scan_plain(s: Seq<char>, i: int, close: int, out: Seq<char>)
    requires
        0 <= i <= close < s.len(),
        s[close] == '"',
        forall|k: int| i <= k < close ==> #[trigger] s[k] != '"' && s[k] != '\\',
    ensures
        scan_string(s, i, out, seq![]) == Ok::<(Seq<char>, int), LexError>(
            (out + s.subrange(i, close), close + 1),
        ),
    decreases close - i,
{
    let empty: Seq<u16> = seq![];
    assert(decode_utf16_from(empty, 0) == Some(Seq::<char>::empty()));
    assert(out + Seq::<char>::empty() =~= out);
    if i < close {
        lemma_scan_plain(s, i + 1, close, out.push(s[i]));
        assert(out.push(s[i]) + s.subrange(i + 1, close) =~= out + s.subrange(i, close));
    } else {
        assert(out + s.subrange(i, close) =~= out);
    }
}

/// The escapes of a surrogate pair, `\u` and four hex digits twice, make one
/// character: the one whose value the pair encodes.
pub proof fn lemma_surrogate_pair_token(s: Seq<char>, j: int, hi: u16, lo: u16)
    requires
        0 <= j,
        j + 13 < s.len(),
        s[j] == '"',
        s[j + 1] == '\\',
        s[j + 2] == 'u',
        hex4(s, j + 3) == Some(hi),
        s[j + 7] == '\\',
        s[j + 8] == 'u',
        hex4(s, j + 9) == Some(lo),
        s[j + 13] == '"',
        is_high_surrogate(hi),
        is_low_surrogate(lo),
    ensures
        string_token(s, j) == Ok::<(Lexeme, int), LexError>(
            (Lexeme::Str(seq![pair_value(hi, lo) as char]), j + 14),
        ),
{
    let empty: Seq<u16> = seq![];
    let u = empty.push(hi).push(lo);
    assert(decode_utf16_from(u, 2) == Some(Seq::<char>::empty()));
    assert(decode_utf16_from(u, 0) == Some(seq![pair_value(hi, lo) as char] + Seq::<char>::empty()));
    assert(seq![pair_value(hi, lo) as char] + Seq::<char>::empty() =~= seq![pair_value(hi, lo) as char]);
    assert(Seq::<char>::empty() + seq![pair_value(hi, lo) as char] =~= seq![pair_value(hi, lo) as char]);
    assert(scan_string(s, j + 13, seq![], u) == Ok::<(Seq<char>, int), LexError>(
        (seq![pair_value(hi, lo) as char], j + 14),
    ));
    assert(scan_string(s, j + 7, seq![], empty.push(hi)) == scan_string(s, j + 13, seq![], u));
}

/// Reads tokens from a text, one per request.
pub struct Lexer {
    chars: Vec<char>,
    pos: usize,
}

impl Lexer {
    /// The whole source text.
    pub closed spec fn text(&self) -> Seq<char> {
        self.chars@
    }

    /// The index of the next character to read.
    pub closed spec fn cursor(&self) -> int {
        self.pos as int
    }

    /// The cursor lies within the text or at its end.
    pub open spec fn wf(&self) -> bool {
        0 <= self.cursor() <= self.text().len()
    }

    /// What the lexer hands out from here on: its tokens, then its failure.
    pub open spec fn remaining(&self) -> (Seq<Lexeme>, LexError) {
        tokens(self.text(), self.cursor())
    }

    pub fn new(input: &str) -> (l: Lexer)
        ensures
            l.wf(),
            l.text() == input@,
            l.cursor() == 0,
    {
        Lexer { chars: chars_of(input), pos: 0 }
    }

    /// Reads the next token, after any whitespace.
    pub fn next_token(&mut self) -> (r: Result<Token, LexError>)
        requires
            old(self).wf(),
        ensures
            final(self).wf(),
            final(self).text() == old(self).text(),
            lexed(r, *final(self), lex_token(old(self).text(), old(self).cursor())),
            span_end(old(self).text(), old(self).cursor(), CharClass::Whitespace)
                >= old(self).text().len() ==> r == Err::<Token, LexError>(LexError::EndOfInput)
                && final(self).cursor() == final(self).text().len(),
    {
        proof {
            lemma_span_end_bounds(self.text(), self.cursor(), CharClass::Whitespace);
        }
        self.skip_whitespace();
        let c = match self.peek_char() {
            Some(c) => c,
            None => return Err(LexError::EndOfInput),
        };
        if 'a' <= c && c <= 'z' {
            self.build_keyword()
        } else if ('0' <= c && c <= '9') || c == '-' {
            self.build_number()
        } else if c == '"' {
            self.build_string()
        } else {
            self.build_symbol()
        }
    }

    /// The character at the cursor, if any is left.
    pub fn peek_char(&self) -> (r: Option<char>)
        requires
            self.wf(),
        ensures
            self.cursor() < self.text().len() ==> r == Some(self.text()[self.cursor()]),
            self.cursor() >= self.text().len() ==> r is None,
    {
        if self.pos < self.chars.len() {
            Some(self.chars[self.pos])
        } else {
            None
        }
    }

    /// Takes the character at the cursor, if any is left.
    pub fn next_char(&mut self) -> (r: Option<char>)
        requires
            old(self).wf(),
        ensures
            final(self).wf(),
            final(self).text() == old(self).text(),
            old(self).cursor() < old(self).text().len() ==> r == Some(
                old(self).text()[old(self).cursor()],
            ) && final(self).cursor() == old(self).cursor() + 1,
            old(self).cursor() >= old(self).text().len() ==> r is None && final(self).cursor()
                == old(self).cursor(),
    {
        if self.pos < self.chars.len() {
            let c = self.chars[self.pos];
            self.pos = self.pos + 1;
            Some(c)
        } else {
            None
        }
    }

    /// Moves the cursor past whitespace.
    pub fn skip_whitespace(&mut self)
        requires
            old(self).wf(),
        ensures
            final(self).wf(),
            final(self).text() == old(self).text(),
            final(self).cursor() == span_end(
                old(self).text(),
                old(self).cursor(),
                CharClass::Whitespace,
            ),
    {
        self.pos = find_span_end(&self.chars, self.pos, CharClass::Whitespace);
    }

    /// Reads the four hexadecimal digits of a `\u` escape.
    pub fn read_unicode(&mut self) -> (r: Result<u16, LexError>)
        requires
            old(self).wf(),
        ensures
            final(self).wf(),
            final(self).text() == old(self).text(),
            match hex4(old(self).text(), old(self).cursor()) {
                Some(w) => r == Ok::<u16, LexError>(w) && final(self).cursor() == old(self).cursor()
                    + 4,
                None => r == Err::<u16, LexError>(LexError::InvalidUnicodeEscape),
            },
    {
        match read_hex4(&self.chars, self.pos) {
            Some(w) => {
                assert(self.pos + 4 <= self.chars.len());
                self.pos = self.pos + 4;
                Ok(w)
            },
            None => Err(LexError::InvalidUnicodeEscape),
        }
    }

    fn build_keyword(&mut self) -> (r: Result<Token, LexError>)
        requires
            old(self).wf(),
        ensures
            final(self).wf(),
            final(self).text() == old(self).text(),
            built(r, *old(self), *final(self), keyword_token(old(self).text(), old(self).cursor())),
    {
        if self.pos >= self.chars.len() {
            return Err(LexError::EndOfInput);
        }
        let start = self.pos;
        let end = find_span_end(&self.chars, start, CharClass::Lower);
        let word = slice_chars(&self.chars, start, end);
        self.pos = end;
        match keyword_type(&word) {
            Some(tt) => Ok(Token::new(tt, string_from_chars(&word))),
            None => Err(LexError::UnknownKeyword),
        }
    }

    fn build_number(&mut self) -> (r: Result<Token, LexError>)
        requires
            old(self).wf(),
        ensures
            final(self).wf(),
            final(self).text() == old(self).text(),
            built(r, *old(self), *final(self), number_token(old(self).text(), old(self).cursor())),
    {
        if self.pos >= self.chars.len() {
            return Err(LexError::EndOfInput);
        }
        let start = self.pos;
        let end = find_span_end(&self.chars, start, CharClass::NumberChar);
        let text = slice_chars(&self.chars, start, end);
        self.pos = end;
        if check_float_literal(&text) {
            Ok(Token::new(TokenType::Number(string_from_chars(&text)), string_from_chars(&text)))
        } else {
            Err(LexError::MalformedNumber)
        }
    }

    fn build_string(&mut self) -> (r: Result<Token, LexError>)
        requires
            old(self).wf(),
        ensures
            final(self).wf(),
            final(self).text() == old(self).text(),
            built(r, *old(self), *final(self), string_token(old(self).text(), old(self).cursor())),
    {
        if self.pos >= self.chars.len() {
            return Err(LexError::EndOfInput);
        }
        let ghost s = self.text();
        let ghost start = self.cursor();
        self.next_char();
        let mut out: Vec<char> = Vec::new();
        let mut buf: Vec<u16> = Vec::new();
        assert(out@ =~= seq![]);
        assert(buf@ =~= seq![]);
        loop
            invariant
                self.wf(),
                self.text() == s,
                s == old(self).text(),
                start == old(self).cursor(),
                start < self.cursor(),
                scan_string(s, start + 1, seq![], seq![]) == scan_string(
                    s,
                    self.cursor(),
                    out@,
                    buf@,
                ),
            decreases s.len() - self.cursor(),
        {
            let c = match self.next_char() {
                Some(c) => c,
                None => return Err(LexError::UnterminatedString),
            };
            if c == '"' {
                if !append_utf16(&buf, &mut out) {
                    return Err(LexError::InvalidUnicodeSequence);
                }
                return Ok(
                    Token::new(
                        TokenType::String(string_from_chars(&out)),
                        string_from_chars(&out),
                    ),
                );
            } else if c == '\\' {
                let c2 = match self.next_char() {
                    Some(c2) => c2,
                    None => return Err(LexError::UnterminatedString),
                };
                if c2 == 'u' {
                    let w = self.read_unicode()?;
                    buf.push(w);
                } else {
                    if !append_utf16(&buf, &mut out) {
                        return Err(LexError::InvalidUnicodeSequence);
                    }
                    buf = Vec::new();
                    assert(buf@ =~= seq![]);
                    if c2 == '"' || c2 == '\\' || c2 == '/' || c2 == 'b' || c2 == 'f' || c2 == 'n'
                        || c2 == 'r' || c2 == 't' {
                        let ghost o = out@;
                        out.push('\\');
                        out.push(c2);
                        assert(out@ =~= o + seq!['\\', c2]);
                    } else {
                        out.push(c2);
                    }
                }
            } else {
                if !append_utf16(&buf, &mut out) {
                    return Err(LexError::InvalidUnicodeSequence);
                }
                buf = Vec::new();
                assert(buf@ =~= seq![]);
                out.push(c);
            }
        }
    }

    fn build_symbol(&mut self) -> (r: Result<Token, LexError>)
        requires
            old(self).wf(),
        ensures
            final(self).wf(),
            final(self).text() == old(self).text(),
            built(r, *old(self), *final(self), symbol_token(old(self).text(), old(self).cursor())),
    {
        let c = match self.next_char() {
            Some(c) => c,
            None => return Err(LexError::EndOfInput),
        };
        match symbol_type(c) {
            Some(tt) => {
                let lit = vec![c];
                assert(lit@ =~= seq![c]);
                Ok(Token::new(tt, string_from_chars(&lit)))
            },
            None => Err(LexError::InvalidSymbol(c)),
        }
    }
}

/// What a token builder started on `before` gives: `EndOfInput`, with the
/// cursor kept, where no character is left; else what `expected` describes,
/// with `after` left after the token.
pub open spec fn built(
    r: Result<Token, LexError>,
    before: Lexer,
    after: Lexer,
    expected: Result<(Lexeme, int), LexError>,
) -> bool {
    if before.cursor() >= before.text().len() {
        r == Err::<Token, LexError>(LexError::EndOfInput) && after.cursor() == before.cursor()
    } else {
        lexed(r, after, expected)
    }
}

/// `r` is what `expected` describes, with `l` left after the token.
pub open spec fn lexed(
    r: Result<Token, LexError>,
    l: Lexer,
    expected: Result<(Lexeme, int), LexError>,
) -> bool {
    match expected {
        Ok((t, e)) => r is Ok && r->Ok_0.token_type@ == t && r->Ok_0.literal@ == t.literal()
            && l.cursor() == e,
        Err(x) => r == Err::<Token, LexError>(x),
    }
}

/// The characters of `s` from `i` up to `j`.
fn slice_chars(s: &Vec<char>, i: usize, j: usize) -> (r: Vec<char>)
    requires
        i <= j <= s.len(),
    ensures
        r@ == s@.subrange(i as int, j as int),
{
    let mut r: Vec<char> = Vec::new();
    let mut k: usize = i;
    while k < j
        invariant
            i <= k <= j <= s.len(),
            r@ == s@.subrange(i as int, k as int),
        decreases j - k,
    {
        r.push(s[k]);
        k = k + 1;
        assert(r@ =~= s@.subrange(i as int, k as int));
    }
    r
}

} // verus!
