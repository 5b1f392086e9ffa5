//! Tokens: the lexical units that the tokenizer hands to the parser.

use vstd::prelude::*;

verus! {

/// What a token is, as a mathematical value.
pub enum Lexeme {
    LBrace,
    RBrace,
    LBracket,
    RBracket,
    Colon,
    Comma,
    Period,
    Null,
    True,
    False,
    /// The text of a numeric literal, which the float grammar accepts.
    Number(Seq<char>),
    /// The decoded contents of a string literal.
    Str(Seq<char>),
}

impl Lexeme {
    /// The text a token carries for diagnostics: the symbol or keyword itself,
    /// a number's text, or a string's decoded contents.
    pub open spec fn literal(self) -> Seq<char> {
        match self {
            Lexeme::LBrace => seq!['{'],
            Lexeme::RBrace => seq!['}'],
            Lexeme::LBracket => seq!['['],
            Lexeme::RBracket => seq![']'],
            Lexeme::Colon => seq![':'],
            Lexeme::Comma => seq![','],
            Lexeme::Period => seq!['.'],
            Lexeme::Null => seq!['n', 'u', 'l', 'l'],
            Lexeme::True => seq!['t', 'r', 'u', 'e'],
            Lexeme::False => seq!['f', 'a', 'l', 's', 'e'],
            Lexeme::Number(t) => t,
            Lexeme::Str(t) => t,
        }
    }
}

/// The keyword that a word of lower-case letters names, if any.
pub open spec fn keyword_of(w: Seq<char>) -> Option<Lexeme> {
    if w == seq!['n', 'u', 'l', 'l'] {
        Some(Lexeme::Null)
    } else if w == seq!['t', 'r', 'u', 'e'] {
        Some(Lexeme::True)
    } else if w == seq!['f', 'a', 'l', 's', 'e'] {
        Some(Lexeme::False)
    } else {
        None
    }
}

/// The token that a single-character symbol stands for, if any.
pub open spec fn symbol_of(c: char) -> Option<Lexeme> {
    if c == '{' {
        Some(Lexeme::LBrace)
    } else if c == '}' {
        Some(Lexeme::RBrace)
    } else if c == '[' {
        Some(Lexeme::LBracket)
    } else if c == ']' {
        Some(Lexeme::RBracket)
    } else if c == ':' {
        Some(Lexeme::Colon)
    } else if c == ',' {
        Some(Lexeme::Comma)
    } else if c == '.' {
        Some(Lexeme::Period)
    } else {
        None
    }
}

#[derive(Debug, PartialEq)]
pub enum TokenType {
    LBrace,
    RBrace,
    LBracket,
    RBracket,
    Colon,
    Comma,
    Period,
    Null,
    True,
    False,
    /// The text of the number, as written in the source.
    Number(String),
    String(String),
}

impl View for TokenType {
    type V = Lexeme;

    open spec fn view(&self) -> Lexeme {
        match self {
            TokenType::LBrace => Lexeme::LBrace,
            TokenType::RBrace => Lexeme::RBrace,
            TokenType::LBracket => Lexeme::LBracket,
            TokenType::RBracket => Lexeme::RBracket,
            TokenType::Colon => Lexeme::Colon,
            TokenType::Comma => Lexeme::Comma,
            TokenType::Period => Lexeme::Period,
            TokenType::Null => Lexeme::Null,
            TokenType::True => Lexeme::True,
            TokenType::False => Lexeme::False,
            TokenType::Number(t) => Lexeme::Number(t@),
            TokenType::String(t) => Lexeme::Str(t@),
        }
    }
}

#[derive(Debug, PartialEq)]
pub struct Token {
    pub token_type: TokenType,
    pub literal: String,
}

impl Token {
    pub fn new(token_type: TokenType, literal: String) -> (r: Token)
        ensures
            r.token_type == token_type,
            r.literal == literal,
    {
        Token { token_type, literal }
    }

    /// The keyword token that `literal` spells, or `None` for any other word.
    pub fn lookup_keyword(literal: &str) -> (r: Option<Token>)
        ensures
            match keyword_of(literal@) {
                Some(t) => r is Some && r->0.token_type@ == t && r->0.literal@ == literal@,
                None => r is None,
            },
    {
        let w = crate::text::chars_of(literal);
        match keyword_type(&w) {
            Some(tt) => Some(Token::new(tt, crate::text::string_from_chars(&w))),
            None => None,
        }
    }
}

fn chars_equal(a: &Vec<char>, b: &[char]) -> (r: bool)
    ensures
        r == (a@ == b@),
{
    if a.len() != b.len() {
        return false;
    }
    let mut i: usize = 0;
    while i < a.len()
        invariant
            a.len() == b@.len(),
            i <= a.len(),
            forall|j: int| 0 <= j < i ==> a@[j] == b@[j],
        decreases a.len() - i,
    {
        if a[i] != b[i] {
            return false;
        }
        i = i + 1;
    }
    assert(a@ =~= b@);
    true
}

/// The keyword that `w` spells, as a token type.
pub fn keyword_type(w: &Vec<char>) -> (r: Option<TokenType>)
    ensures
        match keyword_of(w@) {
            Some(t) => r is Some && r->0@ == t,
            None => r is None,
        },
{
    let null = ['n', 'u', 'l', 'l'];
    let tru = ['t', 'r', 'u', 'e'];
    let fals = ['f', 'a', 'l', 's', 'e'];
    assert(null@ =~= seq!['n', 'u', 'l', 'l']);
    assert(tru@ =~= seq!['t', 'r', 'u', 'e']);
    assert(fals@ =~= seq!['f', 'a', 'l', 's', 'e']);
    if chars_equal(w, &null) {
        Some(TokenType::Null)
    } else if chars_equal(w, &tru) {
        Some(TokenType::True)
    } else if chars_equal(w, &fals) {
        Some(TokenType::False)
    } else {
        None
    }
}

/// The token type of a single-character symbol.
pub fn symbol_type(c: char) -> (r: Option<TokenType>)
    ensures
        match symbol_of(c) {
            Some(t) => r is Some && r->0@ == t,
            None => r is None,
        },
{
    match c {
        '{' => Some(TokenType::LBrace),
        '}' => Some(TokenType::RBrace),
        '[' => Some(TokenType::LBracket),
        ']' => Some(TokenType::RBracket),
        ':' => Some(TokenType::Colon),
        ',' => Some(TokenType::Comma),
        '.' => Some(TokenType::Period),
        _ => None,
    }
}

} // verus!
