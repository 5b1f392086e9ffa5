//! The recursive-descent parser: builds a value tree from the token stream,
//! with one token of lookahead.

use vstd::prelude::*;
use crate::lexer::{LexError, Lexer, lex_token, tokens};
use crate::token::{Lexeme, Token, TokenType};
use crate::value::{
    JsonView, Value, json_of, upsert, has_key, keys_unique, keys_unique_everywhere,
    lemma_upsert_unique,
};

verus! {

/// How deeply arrays and objects may nest.
pub const MAX_DEPTH: usize = 128;

/// Why no value could be parsed, as a mathematical value.
pub enum ParseFailure {
    /// A token that no production takes at its place.
    UnexpectedToken(Lexeme),
    /// The tokens ran out.
    NoToken,
    /// The tokenizer failed, other than at the end of the text.
    Lex(LexError),
    /// Arrays and objects nest deeper than `MAX_DEPTH`.
    NestingTooDeep,
}

/// Why no value could be parsed.
#[derive(Debug, PartialEq)]
pub enum ParseError {
    UnexpectedToken(Token),
    NoToken,
    Lex(LexError),
    NestingTooDeep,
}

impl View for ParseError {
    type V = ParseFailure;

    open spec fn view(&self) -> ParseFailure {
        match self {
            ParseError::UnexpectedToken(t) => ParseFailure::UnexpectedToken(t.token_type@),
            ParseError::NoToken => ParseFailure::NoToken,
            ParseError::Lex(e) => ParseFailure::Lex(*e),
            ParseError::NestingTooDeep => ParseFailure::NestingTooDeep,
        }
    }
}

/// The failure that reading past the last token gives: the end of the text
/// means that no token is left; any other failure of the tokenizer stands.
pub open spec fn stream_failure(end: LexError) -> ParseFailure {
    if end == LexError::EndOfInput {
        ParseFailure::NoToken
    } else {
        ParseFailure::Lex(end)
    }
}

/// The token at `k` of the stream `ts`, which stops with `end`.
pub open spec fn token_at(ts: Seq<Lexeme>, end: LexError, k: int) -> Result<Lexeme, ParseFailure> {
    if 0 <= k < ts.len() {
        Ok(ts[k])
    } else {
        Err(stream_failure(end))
    }
}

/// How many tokens are left from `k`.
pub open spec fn left(ts: Seq<Lexeme>, k: int) -> nat {
    if 0 <= k < ts.len() {
        (ts.len() - k) as nat
    } else {
        0
    }
}

/// The value whose first token is at `k`, with nesting allowed `d` levels
/// deeper, and the number of tokens it takes after its first.
pub open spec fn parse_value(ts: Seq<Lexeme>, end: LexError, k: int, d: nat) -> Result<
    (JsonView, nat),
    ParseFailure,
>
    decreases d, left(ts, k), 0nat,
{
    match token_at(ts, end, k) {
        Err(x) => Err(x),
        Ok(t) => match t {
            Lexeme::Null => Ok((JsonView::Null, 0)),
            Lexeme::Str(s) => Ok((JsonView::Str(s), 0)),
            Lexeme::Number(s) => Ok((JsonView::Number(s), 0)),
            Lexeme::LBracket => if d == 0 {
                Err(ParseFailure::NestingTooDeep)
            } else {
                parse_array(ts, end, k + 1, k + 1, (d - 1) as nat, seq![])
            },
            Lexeme::LBrace => if d == 0 {
                Err(ParseFailure::NestingTooDeep)
            } else {
                parse_object(ts, end, k + 1, (d - 1) as nat)
            },
            _ => Err(ParseFailure::UnexpectedToken(t)),
        },
    }
}

/// The rest of an array whose body starts at `start`, read from `k` on with
/// the elements `acc` found so far; gives the array and the number of tokens
/// from `start` up to its closing bracket, included. A comma may stand
/// anywhere in the body but right before the closing bracket.
pub open spec fn parse_array(
    ts: Seq<Lexeme>,
    end: LexError,
    start: int,
    k: int,
    d: nat,
    acc: Seq<JsonView>,
) -> Result<(JsonView, nat), ParseFailure>
    decreases d, left(ts, k), 1nat,
{
    match token_at(ts, end, k) {
        Err(x) => Err(x),
        Ok(t) => if t == Lexeme::RBracket {
            Ok((JsonView::Array(acc), (k + 1 - start) as nat))
        } else if t == Lexeme::Comma {
            if k + 1 < ts.len() && ts[k + 1] == Lexeme::RBracket {
                Err(ParseFailure::UnexpectedToken(Lexeme::RBracket))
            } else {
                parse_array(ts, end, start, k + 1, d, acc)
            }
        } else {
            match parse_value(ts, end, k, d) {
                Ok((v, n)) => parse_array(ts, end, start, k + 1 + n, d, acc.push(v)),
                Err(x) => Err(x),
            }
        },
    }
}

/// An object whose body starts at `k`: `}` at once, or `"key": value` pairs
/// separated by commas and closed by `}`. Gives the object and the number of
/// tokens from `k` up to the closing brace, included.
pub open spec fn parse_object(ts: Seq<Lexeme>, end: LexError, k: int, d: nat) -> Result<
    (JsonView, nat),
    ParseFailure,
>
    decreases d, left(ts, k), 2nat,
{
    match token_at(ts, end, k) {
        Err(x) => Err(x),
        Ok(t) => if t == Lexeme::RBrace {
            Ok((JsonView::Object(seq![]), 1))
        } else {
            parse_members(ts, end, k, k, d, seq![])
        },
    }
}

/// The pairs of an object from the key at `k` on, with the entries `acc`
/// found so far.
pub open spec fn parse_members(
    ts: Seq<Lexeme>,
    end: LexError,
    start: int,
    k: int,
    d: nat,
    acc: Seq<(Seq<char>, JsonView)>,
) -> Result<(JsonView, nat), ParseFailure>
    decreases d, left(ts, k), 1nat,
{
    match token_at(ts, end, k) {
        Err(x) => Err(x),
        Ok(Lexeme::Str(key)) => match token_at(ts, end, k + 1) {
            Err(x) => Err(x),
            Ok(Lexeme::Colon) => match parse_value(ts, end, k + 2, d) {
                Err(x) => Err(x),
                Ok((v, n)) => {
                    let m = k + 3 + n;
                    let acc2 = upsert(acc, key, v);
                    match token_at(ts, end, m) {
                        Err(x) => Err(x),
                        Ok(Lexeme::RBrace) => Ok((JsonView::Object(acc2), (m + 1 - start) as nat)),
                        Ok(Lexeme::Comma) => parse_members(ts, end, start, m + 1, d, acc2),
                        Ok(t) => Err(ParseFailure::UnexpectedToken(t)),
                    }
                },
            },
            Ok(t) => Err(ParseFailure::UnexpectedToken(t)),
        },
        Ok(t) => Err(ParseFailure::UnexpectedToken(t)),
    }
}

/// Decoding a whole text: the value that its first tokens form, and the
/// number of tokens it takes after its first.
pub open spec fn decode(s: Seq<char>) -> Result<(JsonView, nat), ParseFailure> {
    parse_value(tokens(s, 0).0, tokens(s, 0).1, 0, MAX_DEPTH as nat)
}

proof fn lemma_skip_one(ts: Seq<Lexeme>, k: int)
    requires
        0 <= k < ts.len(),
    ensures
        ts.subrange(k, ts.len() as int).drop_first() == ts.subrange(k + 1, ts.len() as int),
{
    assert(ts.subrange(k, ts.len() as int).drop_first() =~= ts.subrange(k + 1, ts.len() as int));
}

/// The value that a scalar token stands for.
pub open spec fn scalar_of(t: Lexeme) -> JsonView {
    match t {
        Lexeme::Number(s) => JsonView::Number(s),
        Lexeme::Str(s) => JsonView::Str(s),
        _ => JsonView::Null,
    }
}

/// A `null`, number or string token is a whole value by itself: it parses to
/// the matching scalar and takes that one token and no other.
pub proof fn lemma_scalar_value(ts: Seq<Lexeme>, end: LexError, k: int, d: nat)
    requires
        0 <= k < ts.len(),
        ts[k] is Null || ts[k] is Number || ts[k] is Str,
    ensures
        parse_value(ts, end, k, d) == Ok::<(JsonView, nat), ParseFailure>((scalar_of(ts[k]), 0)),
{
}

/// Over text: where the next token of `s` from `i` is `null`, a number or a
/// string, the value parsed there is that scalar, it takes that one token, and
/// the tokens left are those of the text after it.
pub proof fn lemma_scalar_text(s: Seq<char>, i: int, d: nat)
    requires
        lex_token(s, i) is Ok,
        lex_token(s, i)->Ok_0.0 is Null || lex_token(s, i)->Ok_0.0 is Number || lex_token(
            s,
            i,
        )->Ok_0.0 is Str,
    ensures
        parse_value(tokens(s, i).0, tokens(s, i).1, 0, d) == Ok::<(JsonView, nat), ParseFailure>(
            (scalar_of(lex_token(s, i)->Ok_0.0), 0),
        ),
        tokens(s, i).0.subrange(1, tokens(s, i).0.len() as int) == tokens(
            s,
            lex_token(s, i)->Ok_0.1,
        ).0,
        tokens(s, i).1 == tokens(s, lex_token(s, i)->Ok_0.1).1,
{
    reveal(tokens);
    let e = lex_token(s, i)->Ok_0.1;
    let ts = tokens(s, i).0;
    assert(ts.subrange(1, ts.len() as int) =~= tokens(s, e).0);
    lemma_scalar_value(ts, tokens(s, i).1, 0, d);
}

/// The index after the value that starts at `s`.
pub open spec fn value_end(ts: Seq<Lexeme>, end: LexError, s: int, d: nat) -> int {
    s + 1 + parse_value(ts, end, s, d)->Ok_0.1
}

/// The elements of an array body: element `i` starts at `starts[i]` and parses
/// to `vals[i]`, and a single comma stands between each two of them.
pub open spec fn array_elements(
    ts: Seq<Lexeme>,
    end: LexError,
    d: nat,
    starts: Seq<int>,
    vals: Seq<JsonView>,
) -> bool {
    &&& starts.len() == vals.len()
    &&& forall|i: int|
        0 <= i < starts.len() ==> parse_value(ts, end, #[trigger] starts[i], d) is Ok
            && parse_value(ts, end, starts[i], d)->Ok_0.0 == vals[i] && 0 <= starts[i]
    &&& forall|i: int|
        0 <= i < starts.len() - 1 ==> value_end(ts, end, #[trigger] starts[i], d) < ts.len()
            && ts[value_end(ts, end, starts[i], d)] == Lexeme::Comma && starts[i + 1]
            == value_end(ts, end, starts[i], d) + 1
}

proof fn lemma_array_from(
    ts: Seq<Lexeme>,
    end: LexError,
    body: int,
    d: nat,
    starts: Seq<int>,
    vals: Seq<JsonView>,
    i: int,
)
    requires
        array_elements(ts, end, d, starts, vals),
        0 <= i < starts.len(),
    ensures
        parse_array(ts, end, body, starts[i], d, vals.take(i)) == parse_array(
            ts,
            end,
            body,
            value_end(ts, end, starts[starts.len() - 1], d),
            d,
            vals,
        ),
    decreases starts.len() - i,
{
    let s = starts[i];
    let n = parse_value(ts, end, s, d)->Ok_0.1;
    assert(parse_value(ts, end, s, d) is Ok);
    assert(0 <= s < ts.len());
    assert(ts[s] != Lexeme::RBracket && ts[s] != Lexeme::Comma);
    assert(vals.take(i).push(vals[i]) =~= vals.take(i + 1));
    let e = value_end(ts, end, s, d);
    assert(parse_array(ts, end, body, s, d, vals.take(i)) == parse_array(
        ts,
        end,
        body,
        e,
        d,
        vals.take(i + 1),
    ));
    if i + 1 < starts.len() {
        assert(parse_value(ts, end, starts[i + 1], d) is Ok);
        assert(ts[starts[i + 1]] != Lexeme::RBracket);
        assert(parse_array(ts, end, body, e, d, vals.take(i + 1)) == parse_array(
            ts,
            end,
            body,
            starts[i + 1],
            d,
            vals.take(i + 1),
        ));
        lemma_array_from(ts, end, body, d, starts, vals, i + 1);
    } else {
        assert(vals.take(i + 1) =~= vals);
    }
}

/// A well-formed array `[e1, e2, ..., en]` parses to the array of the values
/// of its elements, in source order; `[]` parses to the empty array.
pub proof fn lemma_array_value(
    ts: Seq<Lexeme>,
    end: LexError,
    k: int,
    d: nat,
    starts: Seq<int>,
    vals: Seq<JsonView>,
    close: int,
)
    requires
        0 <= k < close < ts.len(),
        d > 0,
        ts[k] == Lexeme::LBracket,
        ts[close] == Lexeme::RBracket,
        array_elements(ts, end, (d - 1) as nat, starts, vals),
        starts.len() == 0 ==> close == k + 1,
        starts.len() > 0 ==> starts[0] == k + 1 && close == value_end(
            ts,
            end,
            starts[starts.len() - 1],
            (d - 1) as nat,
        ),
    ensures
        parse_value(ts, end, k, d) == Ok::<(JsonView, nat), ParseFailure>(
            (JsonView::Array(vals), (close - k) as nat),
        ),
{
    if starts.len() > 0 {
        lemma_array_from(ts, end, k + 1, (d - 1) as nat, starts, vals, 0);
        assert(vals.take(0) =~= seq![]);
    } else {
        assert(vals =~= seq![]);
    }
}

/// An array whose last element is followed by a comma and the closing
/// bracket, `[e1, ..., en,]`, is refused at that bracket.
pub proof fn lemma_array_trailing_comma(
    ts: Seq<Lexeme>,
    end: LexError,
    k: int,
    d: nat,
    starts: Seq<int>,
    vals: Seq<JsonView>,
    comma: int,
)
    requires
        0 <= k < comma,
        comma + 1 < ts.len(),
        d > 0,
        ts[k] == Lexeme::LBracket,
        ts[comma] == Lexeme::Comma,
        ts[comma + 1] == Lexeme::RBracket,
        array_elements(ts, end, (d - 1) as nat, starts, vals),
        starts.len() > 0,
        starts[0] == k + 1,
        comma == value_end(ts, end, starts[starts.len() - 1], (d - 1) as nat),
    ensures
        parse_value(ts, end, k, d) == Err::<(JsonView, nat), ParseFailure>(
            ParseFailure::UnexpectedToken(Lexeme::RBracket),
        ),
{
    lemma_array_from(ts, end, k + 1, (d - 1) as nat, starts, vals, 0);
    assert(vals.take(0) =~= seq![]);
}

/// A one-pair object `{"key": v}` parses to the object whose only entry maps
/// `key` to the value of `v`.
pub proof fn lemma_single_pair_object(
    ts: Seq<Lexeme>,
    end: LexError,
    k: int,
    d: nat,
    key: Seq<char>,
)
    requires
        0 <= k,
        k + 3 < ts.len(),
        d > 0,
        ts[k] == Lexeme::LBrace,
        ts[k + 1] == Lexeme::Str(key),
        ts[k + 2] == Lexeme::Colon,
        parse_value(ts, end, k + 3, (d - 1) as nat) is Ok,
        value_end(ts, end, k + 3, (d - 1) as nat) < ts.len(),
        ts[value_end(ts, end, k + 3, (d - 1) as nat)] == Lexeme::RBrace,
    ensures
        parse_value(ts, end, k, d) == Ok::<(JsonView, nat), ParseFailure>(
            (
                JsonView::Object(seq![(key, parse_value(ts, end, k + 3, (d - 1) as nat)->Ok_0.0)]),
                (value_end(ts, end, k + 3, (d - 1) as nat) - k) as nat,
            ),
        ),
{
    let d1 = (d - 1) as nat;
    let v = parse_value(ts, end, k + 3, d1)->Ok_0.0;
    let m = value_end(ts, end, k + 3, d1);
    let empty: Seq<(Seq<char>, JsonView)> = seq![];
    assert(!has_key(empty, key));
    assert(upsert(empty, key, v) =~= seq![(key, v)]);
    assert(parse_members(ts, end, k + 1, k + 1, d1, empty) == Ok::<(JsonView, nat), ParseFailure>(
        (JsonView::Object(upsert(empty, key, v)), (m + 1 - (k + 1)) as nat),
    ));
    assert(parse_object(ts, end, k + 1, d1) == parse_members(ts, end, k + 1, k + 1, d1, empty));
}

/// Every object in a parsed value has unique keys: a repeated key keeps the
/// value written last.
pub proof fn lemma_parsed_keys_unique(ts: Seq<Lexeme>, end: LexError, k: int, d: nat)
    ensures
        parse_value(ts, end, k, d) matches Ok((v, _)) ==> keys_unique_everywhere(v),
    decreases d, left(ts, k), 0nat,
{
    if 0 <= k < ts.len() && d > 0 {
        if ts[k] == Lexeme::LBracket {
            lemma_array_keys_unique(ts, end, k + 1, k + 1, (d - 1) as nat, seq![]);
        } else if ts[k] == Lexeme::LBrace {
            lemma_object_keys_unique(ts, end, k + 1, (d - 1) as nat);
        }
    }
}

proof fn lemma_array_keys_unique(
    ts: Seq<Lexeme>,
    end: LexError,
    start: int,
    k: int,
    d: nat,
    acc: Seq<JsonView>,
)
    requires
        forall|i: int| 0 <= i < acc.len() ==> keys_unique_everywhere(#[trigger] acc[i]),
    ensures
        parse_array(ts, end, start, k, d, acc) matches Ok((v, _)) ==> keys_unique_everywhere(v),
    decreases d, left(ts, k), 1nat,
{
    if 0 <= k < ts.len() {
        if ts[k] == Lexeme::Comma {
            lemma_array_keys_unique(ts, end, start, k + 1, d, acc);
        } else if ts[k] != Lexeme::RBracket {
            lemma_parsed_keys_unique(ts, end, k, d);
            if let Ok((v, n)) = parse_value(ts, end, k, d) {
                let acc2 = acc.push(v);
                assert forall|i: int| 0 <= i < acc2.len() implies keys_unique_everywhere(
                    #[trigger] acc2[i],
                ) by {
                    if i < acc.len() {
                        assert(acc2[i] == acc[i]);
                    }
                }
                lemma_array_keys_unique(ts, end, start, k + 1 + n, d, acc2);
            }
        }
    }
}

proof fn lemma_object_keys_unique(ts: Seq<Lexeme>, end: LexError, k: int, d: nat)
    ensures
        parse_object(ts, end, k, d) matches Ok((v, _)) ==> keys_unique_everywhere(v),
    decreases d, left(ts, k), 2nat,
{
    if 0 <= k < ts.len() && ts[k] != Lexeme::RBrace {
        lemma_members_keys_unique(ts, end, k, k, d, seq![]);
    }
}

proof fn lemma_members_keys_unique(
    ts: Seq<Lexeme>,
    end: LexError,
    start: int,
    k: int,
    d: nat,
    acc: Seq<(Seq<char>, JsonView)>,
)
    requires
        keys_unique(acc),
        forall|i: int| 0 <= i < acc.len() ==> keys_unique_everywhere((#[trigger] acc[i]).1),
    ensures
        parse_members(ts, end, start, k, d, acc) matches Ok((v, _)) ==> keys_unique_everywhere(v),
    decreases d, left(ts, k), 1nat,
{
    if 0 <= k && k + 1 < ts.len() && ts[k] is Str && ts[k + 1] == Lexeme::Colon {
        let key = ts[k]->Str_0;
        lemma_parsed_keys_unique(ts, end, k + 2, d);
        if let Ok((v, n)) = parse_value(ts, end, k + 2, d) {
            let acc2 = upsert(acc, key, v);
            lemma_upsert_unique(acc, key, v);
            let m = k + 3 + n;
            if 0 <= m < ts.len() && ts[m] == Lexeme::Comma {
                lemma_members_keys_unique(ts, end, start, m + 1, d, acc2);
            }
        }
    }
}

/// The views of a sequence of values.
pub open spec fn items_of(s: Seq<Value>) -> Seq<JsonView> {
    Seq::new(s.len(), |i: int| json_of(s[i]))
}

/// The views of a sequence of object entries.
pub open spec fn entries_of(s: Seq<(String, Value)>) -> Seq<(Seq<char>, JsonView)> {
    Seq::new(s.len(), |i: int| (s[i].0@, json_of(s[i].1)))
}

proof fn lemma_array_view(v: Vec<Value>)
    ensures
        json_of(Value::Array(v)) == JsonView::Array(items_of(v@)),
{
    assert(json_of(Value::Array(v))->Array_0 =~= items_of(v@));
}

proof fn lemma_object_view(v: Vec<(String, Value)>)
    ensures
        json_of(Value::Object(v)) == JsonView::Object(entries_of(v@)),
{
    assert(json_of(Value::Object(v))->Object_0 =~= entries_of(v@));
}

/// Sets `key` to `v` among the entries, in place where the key is present.
fn insert_entry(entries: &mut Vec<(String, Value)>, key: String, v: Value)
    requires
        keys_unique(entries_of(old(entries)@)),
    ensures
        keys_unique(entries_of(final(entries)@)),
        entries_of(final(entries)@) == upsert(entries_of(old(entries)@), key@, json_of(v)),
{
    let ghost es = entries_of(entries@);
    let mut i: usize = 0;
    while i < entries.len()
        invariant
            i <= entries.len(),
            entries_of(entries@) == es,
            es == entries_of(old(entries)@),
            keys_unique(es),
            forall|j: int| 0 <= j < i ==> (#[trigger] es[j]).0 != key@,
        decreases entries.len() - i,
    {
        if entries[i].0 == key {
            proof {
                assert(es[i as int].0 == key@);
                assert(has_key(es, key@));
                let c = choose|j: int| 0 <= j < es.len() && (#[trigger] es[j]).0 == key@;
                assert(c == i);
            }
            entries[i] = (key, v);
            proof {
                assert(entries_of(entries@) =~= upsert(es, key@, json_of(v)));
            }
            return;
        }
        i = i + 1;
    }
    entries.push((key, v));
    proof {
        assert(!has_key(es, key@));
        assert(entries_of(entries@) =~= es.push((key@, json_of(v))));
    }
}

/// The token carries the text of its kind: its symbol or keyword, a number's
/// text or a string's contents.
pub open spec fn carries_literal(t: Token) -> bool {
    t.literal@ == t.token_type@.literal()
}

/// An `UnexpectedToken` failure names the token found, with its text.
pub open spec fn names_token(r: Result<Value, ParseError>) -> bool {
    r matches Err(ParseError::UnexpectedToken(t)) ==> carries_literal(t)
}

/// The error that a failure of the tokenizer becomes.
fn lex_failure(e: LexError) -> (r: ParseError)
    ensures
        r@ == stream_failure(e),
{
    match e {
        LexError::EndOfInput => ParseError::NoToken,
        _ => ParseError::Lex(e),
    }
}

/// Builds a value tree from the tokens of a lexer, with one token of
/// lookahead.
pub struct Parser {
    lexer: Lexer,
    peeked: Option<Token>,
}

impl Parser {
    /// The tokens not yet taken.
    pub closed spec fn stream(&self) -> Seq<Lexeme> {
        match self.peeked {
            Some(t) => seq![t.token_type@] + self.lexer.remaining().0,
            None => self.lexer.remaining().0,
        }
    }

    /// How the token stream ends.
    pub closed spec fn stream_end(&self) -> LexError {
        self.lexer.remaining().1
    }

    pub closed spec fn wf(&self) -> bool {
        &&& self.lexer.wf()
        &&& self.peeked matches Some(t) ==> carries_literal(t)
    }

    pub fn new(lexer: Lexer) -> (p: Parser)
        requires
            lexer.wf(),
        ensures
            p.wf(),
            p.stream() == lexer.remaining().0,
            p.stream_end() == lexer.remaining().1,
    {
        Parser { lexer, peeked: None }
    }

    /// Parses one value from the tokens not yet taken.
    pub fn parse(&mut self) -> (r: Result<Value, ParseError>)
        requires
            old(self).wf(),
        ensures
            final(self).wf(),
            match parse_value(old(self).stream(), old(self).stream_end(), 0, MAX_DEPTH as nat) {
                Ok((v, n)) => r is Ok && r->Ok_0@ == v && n + 1 <= old(self).stream().len()
                    && final(self).stream() == old(self).stream().subrange(
                    n + 1 as int,
                    old(self).stream().len() as int,
                ) && final(self).stream_end() == old(self).stream_end(),
                Err(x) => r is Err && r->Err_0@ == x,
            },
            names_token(r),
            r is Ok ==> keys_unique_everywhere(r->Ok_0@),
    {
        let ghost ts = self.stream();
        let ghost end = self.stream_end();
        assert(ts.subrange(0, ts.len() as int) =~= ts);
        proof {
            lemma_parsed_keys_unique(ts, end, 0, MAX_DEPTH as nat);
        }
        self.parse_value(MAX_DEPTH, Ghost(ts), Ghost(end), Ghost(0))
    }

    /// Takes the next token.
    fn next_token(&mut self) -> (r: Result<Token, ParseError>)
        requires
            old(self).wf(),
        ensures
            final(self).wf(),
            r is Ok ==> carries_literal(r->Ok_0),
            old(self).stream().len() > 0 ==> r is Ok && r->Ok_0.token_type@ == old(self).stream()[0]
                && final(self).stream() == old(self).stream().drop_first()
                && final(self).stream_end() == old(self).stream_end(),
            old(self).stream().len() == 0 ==> r is Err && r->Err_0@ == stream_failure(
                old(self).stream_end(),
            ),
    {
        match self.peeked.take() {
            Some(t) => {
                assert(old(self).stream().drop_first() =~= self.stream());
                Ok(t)
            },
            None => {
                let ghost s = self.lexer.text();
                reveal(tokens);
                match self.lexer.next_token() {
                    Ok(t) => {
                        assert(self.lexer.remaining() == tokens(s, self.lexer.cursor()));
                        assert(old(self).stream().drop_first() =~= self.stream());
                        Ok(t)
                    },
                    Err(e) => Err(lex_failure(e)),
                }
            },
        }
    }

    /// Fills the lookahead, taking no token from the stream.
    fn peek_token(&mut self) -> (r: Result<(), ParseError>)
        requires
            old(self).wf(),
        ensures
            final(self).wf(),
            old(self).stream().len() > 0 ==> r is Ok && final(self).peeked is Some
                && final(self).stream() == old(self).stream()
                && final(self).stream_end() == old(self).stream_end(),
            old(self).stream().len() == 0 ==> r is Err && r->Err_0@ == stream_failure(
                old(self).stream_end(),
            ),
    {
        if self.peeked.is_none() {
            reveal(tokens);
            match self.lexer.next_token() {
                Ok(t) => {
                    self.peeked = Some(t);
                },
                Err(e) => return Err(lex_failure(e)),
            }
        }
        Ok(())
    }

    /// The type of the token in the lookahead.
    fn peeked_type(&self) -> (r: &TokenType)
        requires
            self.peeked is Some,
        ensures
            *r == self.peeked->0.token_type,
    {
        &self.peeked.as_ref().unwrap().token_type
    }

    /// Parses the value whose first token is at `k` of `ts`, the stream as it
    /// stood when the outermost parse began.
    fn parse_value(
        &mut self,
        d: usize,
        Ghost(ts): Ghost<Seq<Lexeme>>,
        Ghost(end): Ghost<LexError>,
        Ghost(k): Ghost<int>,
    ) -> (r: Result<Value, ParseError>)
        requires
            old(self).wf(),
            0 <= k <= ts.len(),
            old(self).stream() == ts.subrange(k, ts.len() as int),
            old(self).stream_end() == end,
        ensures
            final(self).wf(),
            match parse_value(ts, end, k, d as nat) {
                Ok((v, n)) => r is Ok && r->Ok_0@ == v && k + 1 + n <= ts.len()
                    && final(self).stream() == ts.subrange(k + 1 + n, ts.len() as int)
                    && final(self).stream_end() == end,
                Err(x) => r is Err && r->Err_0@ == x,
            },
            names_token(r),
        decreases d, left(ts, k), 0nat,
    {
        let tok = self.next_token()?;
        proof {
            lemma_skip_one(ts, k);
        }
        match tok.token_type {
            TokenType::Null => Ok(Value::Null),
            TokenType::String(s) => Ok(Value::String(s)),
            TokenType::Number(s) => Ok(Value::Number(s)),
            TokenType::LBracket => {
                if d == 0 {
                    Err(ParseError::NestingTooDeep)
                } else {
                    self.parse_array(d - 1, Ghost(ts), Ghost(end), Ghost(k + 1))
                }
            },
            TokenType::LBrace => {
                if d == 0 {
                    Err(ParseError::NestingTooDeep)
                } else {
                    self.parse_object(d - 1, Ghost(ts), Ghost(end), Ghost(k + 1))
                }
            },
            other => Err(ParseError::UnexpectedToken(Token::new(other, tok.literal))),
        }
    }

    /// Parses the rest of an array whose opening bracket was just taken.
    fn parse_array(
        &mut self,
        d: usize,
        Ghost(ts): Ghost<Seq<Lexeme>>,
        Ghost(end): Ghost<LexError>,
        Ghost(start): Ghost<int>,
    ) -> (r: Result<Value, ParseError>)
        requires
            old(self).wf(),
            0 <= start <= ts.len(),
            old(self).stream() == ts.subrange(start, ts.len() as int),
            old(self).stream_end() == end,
        ensures
            final(self).wf(),
            match parse_array(ts, end, start, start, d as nat, seq![]) {
                Ok((v, n)) => r is Ok && r->Ok_0@ == v && start + n <= ts.len()
                    && final(self).stream() == ts.subrange(start + n, ts.len() as int)
                    && final(self).stream_end() == end,
                Err(x) => r is Err && r->Err_0@ == x,
            },
            names_token(r),
        decreases d, left(ts, start), 1nat,
    {
        let mut res: Vec<Value> = Vec::new();
        let ghost mut k = start;
        assert(items_of(res@) =~= seq![]);
        loop
            invariant
                self.wf(),
                0 <= start <= k <= ts.len(),
                self.stream() == ts.subrange(k, ts.len() as int),
                self.stream_end() == end,
                parse_array(ts, end, start, start, d as nat, seq![]) == parse_array(
                    ts,
                    end,
                    start,
                    k,
                    d as nat,
                    items_of(res@),
                ),
            decreases ts.len() - k,
        {
            self.peek_token()?;
            proof {
                lemma_skip_one(ts, k);
            }
            if matches!(self.peeked_type(), TokenType::RBracket) {
                let _ = self.next_token();
                proof {
                    lemma_array_view(res);
                }
                return Ok(Value::Array(res));
            } else if matches!(self.peeked_type(), TokenType::Comma) {
                assert(self.stream()[0] == ts[k]);
                assert(ts[k] == Lexeme::Comma);
                let ghost k0 = k;
                let _ = self.next_token();
                proof {
                    k = k + 1;
                }
                match self.peek_token() {
                    Ok(()) => {
                        if matches!(self.peeked_type(), TokenType::RBracket) {
                            let tok = self.next_token()?;
                            return Err(ParseError::UnexpectedToken(tok));
                        }
                        assert(self.stream()[0] == ts[k]);
                        assert(ts[k] != Lexeme::RBracket);
                        assert(parse_array(ts, end, start, k0, d as nat, items_of(res@))
                            == parse_array(ts, end, start, k, d as nat, items_of(res@)));
                    },
                    Err(e) => {
                        assert(parse_array(ts, end, start, k, d as nat, items_of(res@)) == Err::<
                            (JsonView, nat),
                            ParseFailure,
                        >(stream_failure(end)));
                        return Err(e);
                    },
                }
            } else {
                assert(self.peeked->0.token_type@ != Lexeme::RBracket);
                assert(self.peeked->0.token_type@ != Lexeme::Comma);
                assert(self.stream()[0] == ts[k]);
                let v = self.parse_value(d, Ghost(ts), Ghost(end), Ghost(k));
                assert(parse_array(ts, end, start, k, d as nat, items_of(res@)) == match parse_value(
                    ts,
                    end,
                    k,
                    d as nat,
                ) {
                    Ok((v, n)) => parse_array(
                        ts,
                        end,
                        start,
                        k + 1 + n,
                        d as nat,
                        items_of(res@).push(v),
                    ),
                    Err(x) => Err(x),
                });
                let v = v?;
                let ghost n = parse_value(ts, end, k, d as nat)->Ok_0.1;
                let ghost old_items = items_of(res@);
                res.push(v);
                assert(items_of(res@) =~= old_items.push(v@));
                proof {
                    k = k + 1 + n;
                }
            }
        }
    }

    /// Parses the rest of an object whose opening brace was just taken.
    fn parse_object(
        &mut self,
        d: usize,
        Ghost(ts): Ghost<Seq<Lexeme>>,
        Ghost(end): Ghost<LexError>,
        Ghost(start): Ghost<int>,
    ) -> (r: Result<Value, ParseError>)
        requires
            old(self).wf(),
            0 <= start <= ts.len(),
            old(self).stream() == ts.subrange(start, ts.len() as int),
            old(self).stream_end() == end,
        ensures
            final(self).wf(),
            match parse_object(ts, end, start, d as nat) {
                Ok((v, n)) => r is Ok && r->Ok_0@ == v && start + n <= ts.len()
                    && final(self).stream() == ts.subrange(start + n, ts.len() as int)
                    && final(self).stream_end() == end,
                Err(x) => r is Err && r->Err_0@ == x,
            },
            names_token(r),
        decreases d, left(ts, start), 2nat,
    {
        self.peek_token()?;
        if matches!(self.peeked_type(), TokenType::RBrace) {
            let _ = self.next_token();
            proof {
                lemma_skip_one(ts, start);
            }
            let es: Vec<(String, Value)> = Vec::new();
            proof {
                lemma_object_view(es);
                assert(entries_of(es@) =~= seq![]);
            }
            return Ok(Value::Object(es));
        }
        let mut entries: Vec<(String, Value)> = Vec::new();
        let ghost mut k = start;
        assert(entries_of(entries@) =~= seq![]);
        assert(self.peeked->0.token_type@ != Lexeme::RBrace);
        assert(self.stream()[0] != Lexeme::RBrace);
        assert(ts[start] != Lexeme::RBrace);
        assert(parse_object(ts, end, start, d as nat) == parse_members(
            ts,
            end,
            start,
            start,
            d as nat,
            seq![],
        ));
        loop
            invariant
                self.wf(),
                0 <= start <= k <= ts.len(),
                self.stream() == ts.subrange(k, ts.len() as int),
                self.stream_end() == end,
                keys_unique(entries_of(entries@)),
                parse_object(ts, end, start, d as nat) == parse_members(
                    ts,
                    end,
                    start,
                    k,
                    d as nat,
                    entries_of(entries@),
                ),
            decreases ts.len() - k,
        {
            let key_tok = self.next_token()?;
            proof {
                lemma_skip_one(ts, k);
            }
            let key = match key_tok.token_type {
                TokenType::String(s) => s,
                other => return Err(
                    ParseError::UnexpectedToken(Token::new(other, key_tok.literal)),
                ),
            };
            let colon_tok = self.next_token()?;
            proof {
                lemma_skip_one(ts, k + 1);
            }
            match colon_tok.token_type {
                TokenType::Colon => {},
                other => return Err(
                    ParseError::UnexpectedToken(Token::new(other, colon_tok.literal)),
                ),
            }
            let v = self.parse_value(d, Ghost(ts), Ghost(end), Ghost(k + 2));
            let v = v?;
            let ghost n = parse_value(ts, end, k + 2, d as nat)->Ok_0.1;
            let ghost m = k + 3 + n;
            insert_entry(&mut entries, key, v);
            let sep = self.next_token()?;
            proof {
                lemma_skip_one(ts, m);
            }
            match sep.token_type {
                TokenType::RBrace => {
                    proof {
                        lemma_object_view(entries);
                    }
                    return Ok(Value::Object(entries));
                },
                TokenType::Comma => {},
                other => return Err(ParseError::UnexpectedToken(Token::new(other, sep.literal))),
            }
            proof {
                k = m + 1;
            }
        }
    }
}

/// Decodes the first value of a JSON text.
pub fn parse_json(input: &str) -> (r: Result<Value, ParseError>)
    ensures
        match decode(input@) {
            Ok((v, _)) => r is Ok && r->Ok_0@ == v,
            Err(x) => r is Err && r->Err_0@ == x,
        },
        r is Ok ==> keys_unique_everywhere(r->Ok_0@),
        names_token(r),
{
    let mut p = Parser::new(Lexer::new(input));
    p.parse()
}

} // verus!
