//! The lexical tokenizer: scans the input text left to right and produces the
//! flat sequence of tokens that the parser consumes, or the first lexical
//! error.
//!
//! The scanner is specified by a family of `spec` functions over the input's
//! character sequence (`spec_tokenize_from` and its helpers); every executable
//! function here is proved to return exactly what those functions describe.
//!
//! A number token carries its literal text rather than a converted value;
//! conversion to a machine float is left to unverified callers. A literal is
//! accepted only when it is a well-formed float literal (it has a digit in its
//! significand), so conversion cannot fail on an accepted token.
use crate::text::{chars_of, digit_char, is_digit_char, is_ws_char, string_from_chars, ws_char};
use vstd::prelude::*;

verus! {

/// A lexical unit of the input text.
#[derive(Debug)]
pub enum Token {
    /// `{`
    LeftBrace,
    /// `}`
    RightBrace,
    /// `[`
    LeftBracket,
    /// `]`
    RightBracket,
    /// `,`
    Comma,
    /// `:`
    Colon,
    /// `null`
    Null,
    /// `false`
    False,
    /// `true`
    True,
    /// A number literal, kept as its exact text.
    Number(String),
    /// A string payload, with its backslash escapes still unresolved.
    String(String),
}

/// The tokenizer's error taxonomy.
#[derive(Debug, Clone)]
pub enum TokenizeError {
    /// A `t`, `f` or `n` that does not continue as `true`, `false` or `null`.
    UnfinishedLiteralValue,
    /// A number literal the grammar rejects, with a message.
    InvalidNumber(String),
    /// A literal the grammar passed through that still is no float literal
    /// (for example a lone minus sign); it carries the literal text.
    ParseNumberError(String),
    /// A string whose closing quote is missing.
    UnclosedQuotes,
    /// A character no token can start with.
    CharNotRecognized(char),
    /// Reserved for a decision point that needs a character after the end of
    /// the input; the current grammar reports such cases under the variants
    /// above, so no input produces it.
    UnexpectedEof,
}

/// The mathematical counterpart of `Token`: payloads are character sequences.
pub enum SpecToken {
    LeftBrace,
    RightBrace,
    LeftBracket,
    RightBracket,
    Comma,
    Colon,
    Null,
    False,
    True,
    Number(Seq<char>),
    String(Seq<char>),
}

/// The mathematical counterpart of `TokenizeError`.
pub enum SpecTokenizeError {
    UnfinishedLiteralValue,
    InvalidNumber(Seq<char>),
    ParseNumberError(Seq<char>),
    UnclosedQuotes,
    CharNotRecognized(char),
    UnexpectedEof,
}

impl View for Token {
    type V = SpecToken;

    open spec fn view(&self) -> SpecToken {
        match self {
            Token::LeftBrace => SpecToken::LeftBrace,
            Token::RightBrace => SpecToken::RightBrace,
            Token::LeftBracket => SpecToken::LeftBracket,
            Token::RightBracket => SpecToken::RightBracket,
            Token::Comma => SpecToken::Comma,
            Token::Colon => SpecToken::Colon,
            Token::Null => SpecToken::Null,
            Token::False => SpecToken::False,
            Token::True => SpecToken::True,
            Token::Number(s) => SpecToken::Number(s@),
            Token::String(s) => SpecToken::String(s@),
        }
    }
}

impl View for TokenizeError {
    type V = SpecTokenizeError;

    open spec fn view(&self) -> SpecTokenizeError {
        match self {
            TokenizeError::UnfinishedLiteralValue => SpecTokenizeError::UnfinishedLiteralValue,
            TokenizeError::InvalidNumber(s) => SpecTokenizeError::InvalidNumber(s@),
            TokenizeError::ParseNumberError(s) => SpecTokenizeError::ParseNumberError(s@),
            TokenizeError::UnclosedQuotes => SpecTokenizeError::UnclosedQuotes,
            TokenizeError::CharNotRecognized(c) => SpecTokenizeError::CharNotRecognized(*c),
            TokenizeError::UnexpectedEof => SpecTokenizeError::UnexpectedEof,
        }
    }
}

impl PartialEq for Token {
    fn eq(&self, other: &Token) -> (r: bool) {
        match (self, other) {
            (Token::LeftBrace, Token::LeftBrace) => true,
            (Token::RightBrace, Token::RightBrace) => true,
            (Token::LeftBracket, Token::LeftBracket) => true,
            (Token::RightBracket, Token::RightBracket) => true,
            (Token::Comma, Token::Comma) => true,
            (Token::Colon, Token::Colon) => true,
            (Token::Null, Token::Null) => true,
            (Token::False, Token::False) => true,
            (Token::True, Token::True) => true,
            (Token::Number(a), Token::Number(b)) => a.eq(b),
            (Token::String(a), Token::String(b)) => a.eq(b),
            _ => false,
        }
    }
}

impl vstd::std_specs::cmp::PartialEqSpecImpl for Token {
    open spec fn obeys_eq_spec() -> bool {
        true
    }

    open spec fn eq_spec(&self, other: &Token) -> bool {
        self@ == other@
    }
}

impl PartialEq for TokenizeError {
    fn eq(&self, other: &TokenizeError) -> (r: bool) {
        match (self, other) {
            (TokenizeError::UnfinishedLiteralValue, TokenizeError::UnfinishedLiteralValue) => true,
            (TokenizeError::InvalidNumber(a), TokenizeError::InvalidNumber(b)) => a.eq(b),
            (TokenizeError::ParseNumberError(a), TokenizeError::ParseNumberError(b)) => a.eq(b),
            (TokenizeError::UnclosedQuotes, TokenizeError::UnclosedQuotes) => true,
            (TokenizeError::CharNotRecognized(a), TokenizeError::CharNotRecognized(b)) => *a == *b,
            (TokenizeError::UnexpectedEof, TokenizeError::UnexpectedEof) => true,
            _ => false,
        }
    }
}

impl vstd::std_specs::cmp::PartialEqSpecImpl for TokenizeError {
    open spec fn obeys_eq_spec() -> bool {
        true
    }

    open spec fn eq_spec(&self, other: &TokenizeError) -> bool {
        self@ == other@
    }
}

/// The views of a token sequence.
pub open spec fn toks_view(ts: Seq<Token>) -> Seq<SpecToken> {
    ts.map_values(|t: Token| t@)
}

/// The message every `InvalidNumber` error carries.
pub open spec fn invalid_number_msg() -> Seq<char> {
    "Invalid number provided."@
}

/// A character that starts a number literal: a minus sign or a digit.
pub open spec fn is_number_char(c: char) -> bool {
    c == '-' || is_digit_char(c)
}

/// The first position at or after `i` holding a non-whitespace character, or
/// the input's length if only whitespace remains.
pub open spec fn spec_skip_ws(s: Seq<char>, i: int) -> int
    decreases s.len() - i,
{
    if i < s.len() && is_ws_char(s[i]) {
        spec_skip_ws(s, i + 1)
    } else {
        i
    }
}

/// The position of the closing quote of a string opened before `i`, given the
/// escaping state `esc`, or `None` if the input ends first. A backslash arms
/// escaping for the character after it; two backslashes in a row cancel.
pub open spec fn spec_string_end(s: Seq<char>, i: int, esc: bool) -> Option<int>
    decreases s.len() - i,
{
    if i >= s.len() {
        None
    } else if s[i] == '"' && !esc {
        Some(i)
    } else {
        spec_string_end(s, i + 1, if s[i] == '\\' { !esc } else { false })
    }
}

/// The string token starting at `i` (the position after the opening quote):
/// its payload is the raw text up to the first unescaped quote, and scanning
/// resumes after that quote. An unterminated string is `UnclosedQuotes`.
pub open spec fn spec_scan_string(s: Seq<char>, i: int) -> Result<
    (SpecToken, int),
    SpecTokenizeError,
> {
    match spec_string_end(s, i, false) {
        Some(j) => Ok((SpecToken::String(s.subrange(i, j)), j + 1)),
        None => Err(SpecTokenizeError::UnclosedQuotes),
    }
}

/// The tail of a number literal from position `i` on: consecutive digits, at
/// most one decimal point before any exponent, and at most one exponent
/// marker. A marker counts only when a character follows it; it may be
/// followed by one sign and must then be followed by a digit, else the number
/// is invalid. The result is the consumed text and the position after it.
pub open spec fn spec_number_loop(s: Seq<char>, i: int, has_dec: bool, has_exp: bool) -> Result<
    (Seq<char>, int),
    SpecTokenizeError,
>
    decreases s.len() - i,
{
    if i >= s.len() {
        Ok((Seq::empty(), i))
    } else if is_digit_char(s[i]) {
        match spec_number_loop(s, i + 1, has_dec, has_exp) {
            Ok((rest, j)) => Ok((seq![s[i]] + rest, j)),
            Err(e) => Err(e),
        }
    } else if !has_exp && (s[i] == 'e' || s[i] == 'E') && i + 1 < s.len() {
        let j = if s[i + 1] == '+' || s[i + 1] == '-' {
            i + 2
        } else {
            i + 1
        };
        if j < s.len() && is_digit_char(s[j]) {
            match spec_number_loop(s, j, has_dec, true) {
                Ok((rest, k)) => Ok((s.subrange(i, j) + rest, k)),
                Err(e) => Err(e),
            }
        } else {
            Err(SpecTokenizeError::InvalidNumber(invalid_number_msg()))
        }
    } else if s[i] == '.' && !has_dec && !has_exp {
        match spec_number_loop(s, i + 1, true, has_exp) {
            Ok((rest, j)) => Ok((seq!['.'] + rest, j)),
            Err(e) => Err(e),
        }
    } else {
        Ok((Seq::empty(), i))
    }
}

/// Whether a literal accepted by the number grammar is a well-formed float
/// literal: its significand, the part before any exponent marker, holds at
/// least one digit. A literal without one (a lone minus sign, `-.`) passed
/// the character-level grammar but names no number.
pub open spec fn spec_float_parseable_from(lit: Seq<char>, i: int) -> bool
    decreases lit.len() - i,
{
    if i >= lit.len() {
        false
    } else if is_digit_char(lit[i]) {
        true
    } else if lit[i] == 'e' || lit[i] == 'E' {
        false
    } else {
        spec_float_parseable_from(lit, i + 1)
    }
}

/// Whether the whole literal is a well-formed float literal.
pub open spec fn spec_float_parseable(lit: Seq<char>) -> bool {
    spec_float_parseable_from(lit, 0)
}

/// A finished number literal becomes a token when it is a well-formed float
/// literal, and `ParseNumberError` carrying the literal otherwise.
pub open spec fn spec_number_token(lit: Seq<char>, j: int) -> Result<
    (SpecToken, int),
    SpecTokenizeError,
> {
    if spec_float_parseable(lit) {
        Ok((SpecToken::Number(lit), j))
    } else {
        Err(SpecTokenizeError::ParseNumberError(lit))
    }
}

/// A finished number scan becomes a token or stays an error.
pub open spec fn spec_finish_number(r: Result<(Seq<char>, int), SpecTokenizeError>) -> Result<
    (SpecToken, int),
    SpecTokenizeError,
> {
    match r {
        Ok((lit, j)) => spec_number_token(lit, j),
        Err(e) => Err(e),
    }
}

/// The number token starting at `i`, where `s[i]` is a minus sign or digit.
/// A leading zero of the integer part (after an optional minus sign) must not
/// be followed by another digit; that is `InvalidNumber`.
pub open spec fn spec_scan_number(s: Seq<char>, i: int) -> Result<
    (SpecToken, int),
    SpecTokenizeError,
>
    recommends
        0 <= i < s.len(),
        is_number_char(s[i]),
{
    let c = s[i];
    if c == '-' && i + 1 < s.len() && s[i + 1] == '0' {
        if i + 2 < s.len() && is_digit_char(s[i + 2]) {
            Err(SpecTokenizeError::InvalidNumber(invalid_number_msg()))
        } else {
            match spec_number_loop(s, i + 2, false, false) {
                Ok((rest, j)) => spec_number_token(seq!['-', '0'] + rest, j),
                Err(e) => Err(e),
            }
        }
    } else if c == '0' && i + 1 < s.len() && is_digit_char(s[i + 1]) {
        Err(SpecTokenizeError::InvalidNumber(invalid_number_msg()))
    } else {
        match spec_number_loop(s, i + 1, false, false) {
            Ok((rest, j)) => spec_number_token(seq![c] + rest, j),
            Err(e) => Err(e),
        }
    }
}

/// The token starting at the non-whitespace position `i`, with the position
/// right after it. Dispatch is on the first character: a number start, an
/// opening quote, single-character punctuation, or one of the three keyword
/// literals, whose remaining letters must follow exactly; anything else is
/// `CharNotRecognized`.
pub open spec fn spec_next_token(s: Seq<char>, i: int) -> Result<(SpecToken, int), SpecTokenizeError>
    recommends
        0 <= i < s.len(),
        !is_ws_char(s[i]),
{
    let c = s[i];
    if is_number_char(c) {
        spec_scan_number(s, i)
    } else if c == '"' {
        spec_scan_string(s, i + 1)
    } else if c == '[' {
        Ok((SpecToken::LeftBracket, i + 1))
    } else if c == ']' {
        Ok((SpecToken::RightBracket, i + 1))
    } else if c == '{' {
        Ok((SpecToken::LeftBrace, i + 1))
    } else if c == '}' {
        Ok((SpecToken::RightBrace, i + 1))
    } else if c == ',' {
        Ok((SpecToken::Comma, i + 1))
    } else if c == ':' {
        Ok((SpecToken::Colon, i + 1))
    } else if c == 't' {
        if i + 4 <= s.len() && s[i + 1] == 'r' && s[i + 2] == 'u' && s[i + 3] == 'e' {
            Ok((SpecToken::True, i + 4))
        } else {
            Err(SpecTokenizeError::UnfinishedLiteralValue)
        }
    } else if c == 'f' {
        if i + 5 <= s.len() && s[i + 1] == 'a' && s[i + 2] == 'l' && s[i + 3] == 's' && s[i + 4]
            == 'e' {
            Ok((SpecToken::False, i + 5))
        } else {
            Err(SpecTokenizeError::UnfinishedLiteralValue)
        }
    } else if c == 'n' {
        if i + 4 <= s.len() && s[i + 1] == 'u' && s[i + 2] == 'l' && s[i + 3] == 'l' {
            Ok((SpecToken::Null, i + 4))
        } else {
            Err(SpecTokenizeError::UnfinishedLiteralValue)
        }
    } else {
        Err(SpecTokenizeError::CharNotRecognized(c))
    }
}

/// Prepends already-consumed literal text to the outcome of scanning the rest
/// of a number literal.
pub open spec fn spec_lit_prepend(
    pre: Seq<char>,
    r: Result<(Seq<char>, int), SpecTokenizeError>,
) -> Result<(Seq<char>, int), SpecTokenizeError> {
    match r {
        Ok((rest, j)) => Ok((pre + rest, j)),
        Err(e) => Err(e),
    }
}

/// Prepends already-scanned tokens to the outcome of scanning the rest.
pub open spec fn spec_toks_prepend(
    pre: Seq<SpecToken>,
    r: Result<Seq<SpecToken>, SpecTokenizeError>,
) -> Result<Seq<SpecToken>, SpecTokenizeError> {
    match r {
        Ok(rest) => Ok(pre + rest),
        Err(e) => Err(e),
    }
}

/// The token sequence of the input from position `i` on: skip whitespace,
/// stop at the end of the input, otherwise scan one token and continue after
/// it. The first lexical error aborts the scan.
pub open spec fn spec_tokenize_from(s: Seq<char>, i: int) -> Result<
    Seq<SpecToken>,
    SpecTokenizeError,
>
    decreases s.len() - i,
{
    let j = spec_skip_ws(s, i);
    if j >= s.len() {
        Ok(Seq::empty())
    } else {
        match spec_next_token(s, j) {
            Err(e) => Err(e),
            Ok((t, k)) => {
                // every token ends past `i`; the guard makes that plain to the
                // termination check
                let k2 = if i < k <= s.len() {
                    k
                } else {
                    i + 1
                };
                spec_toks_prepend(seq![t], spec_tokenize_from(s, k2))
            },
        }
    }
}

/// The token sequence of the whole input, or its first lexical error.
pub open spec fn spec_tokenize(s: Seq<char>) -> Result<Seq<SpecToken>, SpecTokenizeError> {
    spec_tokenize_from(s, 0)
}

/// Tokenizing a text of opening brackets alone gives one `LeftBracket`
/// token per character.
pub proof fn lemma_brackets_tokenize(s: Seq<char>, i: int)
    requires
        0 <= i <= s.len(),
        forall|k: int| 0 <= k < s.len() ==> s[k] == '[',
    ensures
        spec_tokenize_from(s, i) matches Ok(ts) && ts.len() == s.len() - i && (forall|m: int|
            0 <= m < ts.len() ==> ts[m] == SpecToken::LeftBracket),
    decreases s.len() - i,
{
    if i < s.len() {
        lemma_brackets_tokenize(s, i + 1);
        assert(spec_skip_ws(s, i) == i);
        assert(spec_next_token(s, i) == Ok::<_, SpecTokenizeError>((
            SpecToken::LeftBracket,
            i + 1,
        )));
        match spec_tokenize_from(s, i + 1) {
            Ok(rest) => {
                let ts = seq![SpecToken::LeftBracket] + rest;
                assert(spec_tokenize_from(s, i) == Ok::<_, SpecTokenizeError>(ts));
                assert(forall|m: int| 1 <= m < ts.len() ==> ts[m] == rest[m - 1]);
            },
            Err(_) => {
                assert(false);
            },
        }
    } else {
        assert(spec_skip_ws(s, i) == i);
    }
}

proof fn lemma_lit_prepend_assoc(
    a: Seq<char>,
    b: Seq<char>,
    r: Result<(Seq<char>, int), SpecTokenizeError>,
)
    ensures
        spec_lit_prepend(a, spec_lit_prepend(b, r)) == spec_lit_prepend(a + b, r),
{
    match r {
        Ok((rest, j)) => {
            assert(a + (b + rest) =~= (a + b) + rest);
        },
        Err(_) => {},
    }
}

proof fn lemma_toks_prepend_assoc(
    a: Seq<SpecToken>,
    b: Seq<SpecToken>,
    r: Result<Seq<SpecToken>, SpecTokenizeError>,
)
    ensures
        spec_toks_prepend(a, spec_toks_prepend(b, r)) == spec_toks_prepend(a + b, r),
{
    match r {
        Ok(rest) => {
            assert(a + (b + rest) =~= (a + b) + rest);
        },
        Err(_) => {},
    }
}

/// Whether a character can start a number literal.
pub fn is_number(ch: char) -> (r: bool)
    ensures
        r == is_number_char(ch),
{
    ch == '-' || digit_char(ch)
}

/// Whether `c` opens an exponent part: no exponent was seen yet, `c` is a
/// marker letter, and a character follows it.
pub fn is_exponenta(has_exponent: bool, c: char, has_next: bool) -> (r: bool)
    ensures
        r == (!has_exponent && (c == 'e' || c == 'E') && has_next),
{
    !has_exponent && (c == 'e' || c == 'E') && has_next
}

/// Whether `c` opens a fractional part: a decimal point, before any other
/// decimal point and before any exponent.
pub fn is_decimal(has_decimal: bool, has_exponenta: bool, c: char) -> (r: bool)
    ensures
        r == (c == '.' && !has_decimal && !has_exponenta),
{
    c == '.' && !has_decimal && !has_exponenta
}

/// Whether the finished literal is a well-formed float literal.
fn float_parseable(lit: &Vec<char>) -> (r: bool)
    ensures
        r == spec_float_parseable(lit@),
{
    let mut i: usize = 0;
    loop
        invariant
            i <= lit.len(),
            spec_float_parseable(lit@) == spec_float_parseable_from(lit@, i as int),
        decreases lit@.len() - i,
    {
        if i == lit.len() {
            return false;
        }
        let c = lit[i];
        if digit_char(c) {
            return true;
        }
        if c == 'e' || c == 'E' {
            return false;
        }
        i += 1;
    }
}

/// Scans the keyword `true` whose first letter stands at `i`.
fn tokenize_true(cs: &Vec<char>, i: usize) -> (r: Result<(Token, usize), TokenizeError>)
    requires
        i < cs.len(),
        cs@[i as int] == 't',
    ensures
        match r {
            Ok((t, k)) => spec_next_token(cs@, i as int) == Ok::<_, SpecTokenizeError>(
                (t@, k as int),
            ) && i < k <= cs.len(),
            Err(e) => spec_next_token(cs@, i as int) == Err::<(SpecToken, int), _>(e@),
        },
{
    if cs.len() - i > 3 && cs[i + 1] == 'r' && cs[i + 2] == 'u' && cs[i + 3] == 'e' {
        Ok((Token::True, i + 4))
    } else {
        Err(TokenizeError::UnfinishedLiteralValue)
    }
}

/// Scans the keyword `false` whose first letter stands at `i`.
fn tokenize_false(cs: &Vec<char>, i: usize) -> (r: Result<(Token, usize), TokenizeError>)
    requires
        i < cs.len(),
        cs@[i as int] == 'f',
    ensures
        match r {
            Ok((t, k)) => spec_next_token(cs@, i as int) == Ok::<_, SpecTokenizeError>(
                (t@, k as int),
            ) && i < k <= cs.len(),
            Err(e) => spec_next_token(cs@, i as int) == Err::<(SpecToken, int), _>(e@),
        },
{
    if cs.len() - i > 4 && cs[i + 1] == 'a' && cs[i + 2] == 'l' && cs[i + 3] == 's' && cs[i + 4]
        == 'e' {
        Ok((Token::False, i + 5))
    } else {
        Err(TokenizeError::UnfinishedLiteralValue)
    }
}

/// Scans the keyword `null` whose first letter stands at `i`.
fn tokenize_null(cs: &Vec<char>, i: usize) -> (r: Result<(Token, usize), TokenizeError>)
    requires
        i < cs.len(),
        cs@[i as int] == 'n',
    ensures
        match r {
            Ok((t, k)) => spec_next_token(cs@, i as int) == Ok::<_, SpecTokenizeError>(
                (t@, k as int),
            ) && i < k <= cs.len(),
            Err(e) => spec_next_token(cs@, i as int) == Err::<(SpecToken, int), _>(e@),
        },
{
    if cs.len() - i > 3 && cs[i + 1] == 'u' && cs[i + 2] == 'l' && cs[i + 3] == 'l' {
        Ok((Token::Null, i + 4))
    } else {
        Err(TokenizeError::UnfinishedLiteralValue)
    }
}

/// Scans a string token; `i` is the position right after the opening quote.
fn tokenize_string(cs: &Vec<char>, i: usize) -> (r: Result<(Token, usize), TokenizeError>)
    requires
        i <= cs.len(),
    ensures
        match r {
            Ok((t, k)) => spec_scan_string(cs@, i as int) == Ok::<_, SpecTokenizeError>(
                (t@, k as int),
            ) && i < k <= cs.len(),
            Err(e) => spec_scan_string(cs@, i as int) == Err::<(SpecToken, int), _>(e@),
        },
{
    let mut j = i;
    let mut esc = false;
    let mut out: Vec<char> = Vec::new();
    loop
        invariant
            i <= j <= cs.len(),
            out@ == cs@.subrange(i as int, j as int),
            spec_string_end(cs@, i as int, false) == spec_string_end(cs@, j as int, esc),
        decreases cs@.len() - j,
    {
        if j == cs.len() {
            return Err(TokenizeError::UnclosedQuotes);
        }
        let c = cs[j];
        if c == '"' && !esc {
            let payload = string_from_chars(out);
            return Ok((Token::String(payload), j + 1));
        }
        esc = if c == '\\' {
            !esc
        } else {
            false
        };
        out.push(c);
        proof {
            assert(out@ =~= cs@.subrange(i as int, j as int + 1));
        }
        j += 1;
    }
}

/// Scans a number token whose first character stands at `i`.
fn tokenize_float(cs: &Vec<char>, i: usize) -> (r: Result<(Token, usize), TokenizeError>)
    requires
        i < cs.len(),
        is_number_char(cs@[i as int]),
    ensures
        match r {
            Ok((t, k)) => spec_scan_number(cs@, i as int) == Ok::<_, SpecTokenizeError>(
                (t@, k as int),
            ) && i < k <= cs.len(),
            Err(e) => spec_scan_number(cs@, i as int) == Err::<(SpecToken, int), _>(e@),
        },
{
    let c = cs[i];
    let mut lit: Vec<char> = Vec::new();
    lit.push(c);
    let mut j = i + 1;
    if c == '-' && j < cs.len() && cs[j] == '0' {
        lit.push('0');
        j += 1;
        if j < cs.len() && digit_char(cs[j]) {
            return Err(TokenizeError::InvalidNumber("Invalid number provided.".to_owned()));
        }
    } else if c == '0' && j < cs.len() && digit_char(cs[j]) {
        return Err(TokenizeError::InvalidNumber("Invalid number provided.".to_owned()));
    }
    let ghost j0 = j as int;
    let ghost lit0 = lit@;
    let mut has_dec = false;
    let mut has_exp = false;
    proof {
        if j0 == i + 2 {
            assert(lit0 =~= seq!['-', '0']);
        } else {
            assert(lit0 =~= seq![c]);
        }
        assert(spec_scan_number(cs@, i as int) == spec_finish_number(
            spec_lit_prepend(lit0, spec_number_loop(cs@, j0, false, false)),
        ));
    }
    #[verifier::loop_isolation(true)]
    loop
        invariant
            i < j0 <= j <= cs.len(),
            spec_scan_number(cs@, i as int) == spec_finish_number(
                spec_lit_prepend(lit0, spec_number_loop(cs@, j0, false, false)),
            ),
            spec_lit_prepend(lit0, spec_number_loop(cs@, j0, false, false)) == spec_lit_prepend(
                lit@,
                spec_number_loop(cs@, j as int, has_dec, has_exp),
            ),
        ensures
            spec_number_loop(cs@, j as int, has_dec, has_exp) == Ok::<_, SpecTokenizeError>(
                (Seq::<char>::empty(), j as int),
            ),
        decreases cs@.len() - j,
    {
        if j == cs.len() {
            break ;
        }
        let ghost j_at = j as int;
        let ghost lit_at = lit@;
        let c2 = cs[j];
        if digit_char(c2) {
            lit.push(c2);
            j += 1;
            proof {
                lemma_lit_prepend_assoc(
                    lit_at,
                    seq![c2],
                    spec_number_loop(cs@, j as int, has_dec, has_exp),
                );
                assert(lit_at + seq![c2] =~= lit@);
            }
        } else if is_exponenta(has_exp, c2, j + 1 < cs.len()) {
            lit.push(c2);
            j += 1;
            let csign = cs[j];
            if csign == '+' || csign == '-' {
                lit.push(csign);
                j += 1;
            }
            if j == cs.len() || !digit_char(cs[j]) {
                return Err(TokenizeError::InvalidNumber("Invalid number provided.".to_owned()));
            }
            proof {
                lemma_lit_prepend_assoc(
                    lit_at,
                    cs@.subrange(j_at, j as int),
                    spec_number_loop(cs@, j as int, has_dec, true),
                );
                assert(lit_at + cs@.subrange(j_at, j as int) =~= lit@);
            }
            has_exp = true;
        } else if is_decimal(has_dec, has_exp, c2) {
            lit.push(c2);
            j += 1;
            has_dec = true;
            proof {
                lemma_lit_prepend_assoc(
                    lit_at,
                    seq![c2],
                    spec_number_loop(cs@, j as int, true, has_exp),
                );
                assert(lit_at + seq![c2] =~= lit@);
            }
        } else {
            break ;
        }
    }
    proof {
        assert(lit0 + Seq::<char>::empty() =~= lit0);
        assert(lit@ + Seq::<char>::empty() =~= lit@);
    }
    if float_parseable(&lit) {
        let k = j;
        Ok((Token::Number(string_from_chars(lit)), k))
    } else {
        Err(TokenizeError::ParseNumberError(string_from_chars(lit)))
    }
}

/// Scans the token starting at the non-whitespace position `i`.
fn make_token(cs: &Vec<char>, i: usize) -> (r: Result<(Token, usize), TokenizeError>)
    requires
        i < cs.len(),
        !is_ws_char(cs@[i as int]),
    ensures
        match r {
            Ok((t, k)) => spec_next_token(cs@, i as int) == Ok::<_, SpecTokenizeError>(
                (t@, k as int),
            ) && i < k <= cs.len(),
            Err(e) => spec_next_token(cs@, i as int) == Err::<(SpecToken, int), _>(e@),
        },
{
    let c = cs[i];
    if is_number(c) {
        tokenize_float(cs, i)
    } else if c == '"' {
        tokenize_string(cs, i + 1)
    } else if c == '[' {
        Ok((Token::LeftBracket, i + 1))
    } else if c == ']' {
        Ok((Token::RightBracket, i + 1))
    } else if c == '{' {
        Ok((Token::LeftBrace, i + 1))
    } else if c == '}' {
        Ok((Token::RightBrace, i + 1))
    } else if c == ',' {
        Ok((Token::Comma, i + 1))
    } else if c == ':' {
        Ok((Token::Colon, i + 1))
    } else if c == 't' {
        tokenize_true(cs, i)
    } else if c == 'f' {
        tokenize_false(cs, i)
    } else if c == 'n' {
        tokenize_null(cs, i)
    } else {
        Err(TokenizeError::CharNotRecognized(c))
    }
}

/// Turns the whole input into its token sequence, left to right, skipping
/// whitespace between tokens; the first lexical error aborts the scan. The
/// result is exactly what `spec_tokenize` describes of the input's
/// characters.
pub fn tokenize(input: String) -> (r: Result<Vec<Token>, TokenizeError>)
    ensures
        match r {
            Ok(toks) => spec_tokenize(input@) == Ok::<_, SpecTokenizeError>(toks_view(toks@)),
            Err(e) => spec_tokenize(input@) == Err::<Seq<SpecToken>, _>(e@),
        },
{
    let cs = chars_of(input.as_str());
    let mut tokens: Vec<Token> = Vec::new();
    let mut i: usize = 0;
    loop
        invariant
            i <= cs.len(),
            cs@ == input@,
            spec_tokenize_from(cs@, 0) == spec_toks_prepend(
                toks_view(tokens@),
                spec_tokenize_from(cs@, i as int),
            ),
        decreases cs@.len() - i,
    {
        let ghost i_entry = i as int;
        while i < cs.len() && ws_char(cs[i])
            invariant
                i_entry <= i <= cs.len(),
                spec_skip_ws(cs@, i_entry) == spec_skip_ws(cs@, i as int),
            decreases cs@.len() - i,
        {
            i += 1;
        }
        if i == cs.len() {
            proof {
                assert(toks_view(tokens@) + Seq::<SpecToken>::empty() =~= toks_view(tokens@));
            }
            return Ok(tokens);
        }
        match make_token(&cs, i) {
            Err(e) => {
                return Err(e);
            },
            Ok((t, k)) => {
                let ghost toks_at = tokens@;
                tokens.push(t);
                proof {
                    lemma_toks_prepend_assoc(
                        toks_view(toks_at),
                        seq![t@],
                        spec_tokenize_from(cs@, k as int),
                    );
                    assert(toks_view(toks_at) + seq![t@] =~= toks_view(tokens@));
                }
                i = k;
            },
        }
    }
}

} // verus!
