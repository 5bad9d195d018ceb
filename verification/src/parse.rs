//! The recursive-descent parser: consumes the token sequence through a
//! position cursor with one-token lookahead and builds the value tree, or
//! fails with the first structural error.
//!
//! The grammar is specified by the `spec` functions `spec_parse_value`,
//! `spec_parse_array` and `spec_parse_object` over the token sequence's view;
//! every executable function is proved to return exactly what they describe.
//!
//! Descent is bounded: each array or object level spends one unit of a depth
//! budget that starts at `MAX_DEPTH`, and a document nesting deeper fails
//! with `RecursionLimitExceeded` instead of exhausting the call stack.
use crate::text::{char_from_u32, chars_of, string_from_chars};
use crate::tokenize::{toks_view, SpecToken, Token};
use crate::{member_view, SpecValue, Value};
use vstd::prelude::*;

verus! {

broadcast use vstd::std_specs::vec::group_vec_axioms;

/// The deepest nesting of arrays and objects the parser descends into.
pub const MAX_DEPTH: usize = 256;

/// The parser's error taxonomy.
#[derive(Debug, Clone, Copy, PartialEq, Eq, Structural)]
pub enum TokenParseError {
    /// A `\u` escape with fewer than four characters after it.
    UnfinishedEscape,
    /// A `\u` escape whose four characters are not all hexadecimal digits.
    InvalidHexValue,
    /// A `\u` escape naming a code that is no character (a surrogate).
    InvalidCodePointValue,
    /// An array element or object member not followed by a comma or the
    /// closing bracket or brace.
    ExpectedComma,
    /// An object member that does not start with a string key.
    ExpectedProperty,
    /// An object key not followed by a colon.
    ExpectedColon,
    /// A value position holding a token no value can start with.
    UnexpectedToken,
    /// The token sequence ending where a token is still required.
    UnexpectedEndOfTokens,
    /// A document nesting arrays and objects deeper than `MAX_DEPTH`.
    RecursionLimitExceeded,
}

/// The value of a hexadecimal digit, as `char::to_digit` with base 16 gives
/// it, or `None` for any other character.
pub open spec fn spec_hex_val(c: char) -> Option<int> {
    let u = c as u32;
    if '0' as u32 <= u && u <= '9' as u32 {
        Some(u - '0' as u32)
    } else if 'a' as u32 <= u && u <= 'f' as u32 {
        Some(u - 'a' as u32 + 10)
    } else if 'A' as u32 <= u && u <= 'F' as u32 {
        Some(u - 'A' as u32 + 10)
    } else {
        None
    }
}

/// Folds `n` hexadecimal digits starting at `i` into `acc`. A missing
/// character is `UnfinishedEscape`, a non-hexadecimal one `InvalidHexValue`,
/// whichever the left-to-right scan meets first.
pub open spec fn spec_hex_fold(s: Seq<char>, i: int, n: int, acc: int) -> Result<
    int,
    TokenParseError,
>
    decreases n,
{
    if n <= 0 {
        Ok(acc)
    } else if i >= s.len() {
        Err(TokenParseError::UnfinishedEscape)
    } else {
        match spec_hex_val(s[i]) {
            None => Err(TokenParseError::InvalidHexValue),
            Some(d) => spec_hex_fold(s, i + 1, n - 1, acc * 16 + d),
        }
    }
}

/// Prepends already-unescaped characters to the outcome of unescaping the
/// rest.
pub open spec fn spec_chars_prepend(pre: Seq<char>, r: Result<Seq<char>, TokenParseError>) -> Result<
    Seq<char>,
    TokenParseError,
> {
    match r {
        Ok(rest) => Ok(pre + rest),
        Err(e) => Err(e),
    }
}

/// One unescaped character before the rest.
pub open spec fn spec_cons(c: char, r: Result<Seq<char>, TokenParseError>) -> Result<
    Seq<char>,
    TokenParseError,
> {
    spec_chars_prepend(seq![c], r)
}

/// The unescaped text of a raw string payload from position `i` on. Outside
/// an escape, characters are copied verbatim; a backslash arms an escape for
/// the character after it (one at the very end is dropped). The named
/// escapes map to quote, backslash, backspace, form feed, line feed,
/// carriage return and tab; `\u` reads four hexadecimal digits and becomes
/// the character with that code, each escape decoded on its own (surrogate
/// halves are not paired, they are `InvalidCodePointValue`). Any other
/// escaped character is copied through as it stands.
pub open spec fn spec_unescape_from(s: Seq<char>, i: int) -> Result<Seq<char>, TokenParseError>
    decreases s.len() - i,
{
    if i >= s.len() {
        Ok(Seq::empty())
    } else if s[i] != '\\' {
        spec_cons(s[i], spec_unescape_from(s, i + 1))
    } else if i + 1 >= s.len() {
        Ok(Seq::empty())
    } else {
        let c = s[i + 1];
        if c == '"' {
            spec_cons('"', spec_unescape_from(s, i + 2))
        } else if c == '\\' {
            spec_cons('\\', spec_unescape_from(s, i + 2))
        } else if c == 'b' {
            spec_cons('\u{8}', spec_unescape_from(s, i + 2))
        } else if c == 'f' {
            spec_cons('\u{c}', spec_unescape_from(s, i + 2))
        } else if c == 'n' {
            spec_cons('\n', spec_unescape_from(s, i + 2))
        } else if c == 'r' {
            spec_cons('\r', spec_unescape_from(s, i + 2))
        } else if c == 't' {
            spec_cons('\t', spec_unescape_from(s, i + 2))
        } else if c == 'u' {
            match spec_hex_fold(s, i + 2, 4, 0) {
                Err(e) => Err(e),
                Ok(v) => {
                    if 0xD800 <= v && v < 0xE000 {
                        Err(TokenParseError::InvalidCodePointValue)
                    } else {
                        let next = if i + 6 <= s.len() {
                            i + 6
                        } else {
                            s.len() as int
                        };
                        spec_cons((v as u32) as char, spec_unescape_from(s, next))
                    }
                },
            }
        } else {
            spec_cons(c, spec_unescape_from(s, i + 2))
        }
    }
}

/// The unescaped text of a whole raw string payload.
pub open spec fn spec_unescape(s: Seq<char>) -> Result<Seq<char>, TokenParseError> {
    spec_unescape_from(s, 0)
}

/// The views of a value sequence.
pub open spec fn vals_view(s: Seq<Value>) -> Seq<SpecValue> {
    s.map_values(|v: Value| v@)
}

/// The views of an object's key-value pairs.
pub open spec fn pairs_view(s: Seq<(String, Value)>) -> Seq<(Seq<char>, SpecValue)> {
    s.map_values(|p: (String, Value)| member_view(p))
}

/// The index of `key` among the members, or `-1` when no member has it.
pub open spec fn spec_obj_find(m: Seq<(Seq<char>, SpecValue)>, key: Seq<char>) -> int
    decreases m.len(),
{
    if m.len() == 0 {
        -1
    } else if m[0].0 == key {
        0
    } else {
        let r = spec_obj_find(m.drop_first(), key);
        if r < 0 {
            -1
        } else {
            r + 1
        }
    }
}

/// Inserting a member: a value under a key that is already present replaces
/// that member in place, keeping its position; a new key goes to the end.
pub open spec fn spec_obj_insert(
    m: Seq<(Seq<char>, SpecValue)>,
    key: Seq<char>,
    v: SpecValue,
) -> Seq<(Seq<char>, SpecValue)> {
    let idx = spec_obj_find(m, key);
    if idx >= 0 {
        m.update(idx, (key, v))
    } else {
        m.push((key, v))
    }
}

/// The value stored under a key, when the key is present.
pub open spec fn spec_obj_lookup(m: Seq<(Seq<char>, SpecValue)>, key: Seq<char>) -> Option<
    SpecValue,
> {
    let i = spec_obj_find(m, key);
    if i >= 0 {
        Some(m[i].1)
    } else {
        None
    }
}

/// Prepends already-parsed elements to the outcome of parsing the rest of an
/// array.
pub open spec fn spec_items_prepend(
    pre: Seq<SpecValue>,
    r: Result<(Seq<SpecValue>, int), TokenParseError>,
) -> Result<(Seq<SpecValue>, int), TokenParseError> {
    match r {
        Ok((rest, j)) => Ok((pre + rest, j)),
        Err(e) => Err(e),
    }
}

/// The value starting at token `i`: a scalar token is itself the value (a
/// string token's payload unescaped first), an opening bracket or brace
/// starts an array or object one depth unit further down, and any other
/// token is `UnexpectedToken`; at the end of the tokens a value is missing.
pub open spec fn spec_parse_value(ts: Seq<SpecToken>, i: int, depth: int) -> Result<
    (SpecValue, int),
    TokenParseError,
>
    decreases ts.len() - i, 0int,
{
    if i >= ts.len() {
        Err(TokenParseError::UnexpectedEndOfTokens)
    } else {
        match ts[i] {
            SpecToken::Null => Ok((SpecValue::Null, i + 1)),
            SpecToken::True => Ok((SpecValue::Boolean(true), i + 1)),
            SpecToken::False => Ok((SpecValue::Boolean(false), i + 1)),
            SpecToken::Number(lit) => Ok((SpecValue::Number(lit), i + 1)),
            SpecToken::String(raw) => match spec_unescape(raw) {
                Ok(u) => Ok((SpecValue::String(u), i + 1)),
                Err(e) => Err(e),
            },
            SpecToken::LeftBracket => {
                if depth <= 0 {
                    Err(TokenParseError::RecursionLimitExceeded)
                } else {
                    spec_parse_array(ts, i + 1, depth - 1)
                }
            },
            SpecToken::LeftBrace => {
                if depth <= 0 {
                    Err(TokenParseError::RecursionLimitExceeded)
                } else {
                    spec_parse_object(ts, i + 1, depth - 1)
                }
            },
            _ => Err(TokenParseError::UnexpectedToken),
        }
    }
}

/// The elements of a non-empty array from token `i` on: a value, then a
/// comma and further elements or the closing bracket; anything else after a
/// value is `ExpectedComma`, and a missing token is the end-of-tokens error.
pub open spec fn spec_parse_items(ts: Seq<SpecToken>, i: int, depth: int) -> Result<
    (Seq<SpecValue>, int),
    TokenParseError,
>
    decreases ts.len() - i, 2int,
{
    match spec_parse_value(ts, i, depth) {
        Err(e) => Err(e),
        Ok((v, j)) => {
            if j >= ts.len() {
                Err(TokenParseError::UnexpectedEndOfTokens)
            } else if ts[j] is Comma {
                if i < j + 1 && j + 1 <= ts.len() {
                    spec_items_prepend(seq![v], spec_parse_items(ts, j + 1, depth))
                } else {
                    // never reached: a parsed value ends within the tokens,
                    // past its start, as `lemma_parse_value_advances` shows
                    Err(TokenParseError::UnexpectedEndOfTokens)
                }
            } else if ts[j] is RightBracket {
                Ok((seq![v], j + 1))
            } else {
                Err(TokenParseError::ExpectedComma)
            }
        },
    }
}

/// The array whose opening bracket stood at token `i - 1`: an immediate
/// closing bracket gives the empty array, anything else its elements.
pub open spec fn spec_parse_array(ts: Seq<SpecToken>, i: int, depth: int) -> Result<
    (SpecValue, int),
    TokenParseError,
>
    decreases ts.len() - i, 3int,
{
    if i < ts.len() && ts[i] is RightBracket {
        Ok((SpecValue::Array(Seq::empty()), i + 1))
    } else {
        match spec_parse_items(ts, i, depth) {
            Ok((vs, j)) => Ok((SpecValue::Array(vs), j)),
            Err(e) => Err(e),
        }
    }
}

/// The members of a non-empty object from token `i` on, accumulated into
/// `acc`: a string key (else `ExpectedProperty`), a colon (else
/// `ExpectedColon`), a value inserted under the unescaped key, then a comma
/// and further members or the closing brace (anything else after a member is
/// `ExpectedComma`).
pub open spec fn spec_parse_members(
    ts: Seq<SpecToken>,
    i: int,
    depth: int,
    acc: Seq<(Seq<char>, SpecValue)>,
) -> Result<(Seq<(Seq<char>, SpecValue)>, int), TokenParseError>
    decreases ts.len() - i, 2int,
{
    if i >= ts.len() {
        Err(TokenParseError::ExpectedProperty)
    } else {
        match ts[i] {
            SpecToken::String(raw) => {
                if i + 1 >= ts.len() || !(ts[i + 1] is Colon) {
                    Err(TokenParseError::ExpectedColon)
                } else {
                    match spec_unescape(raw) {
                        Err(e) => Err(e),
                        Ok(key) => match spec_parse_value(ts, i + 2, depth) {
                            Err(e) => Err(e),
                            Ok((v, j)) => {
                                let acc2 = spec_obj_insert(acc, key, v);
                                if j >= ts.len() {
                                    Err(TokenParseError::ExpectedComma)
                                } else if ts[j] is Comma {
                                    if i < j + 1 && j + 1 <= ts.len() {
                                        spec_parse_members(ts, j + 1, depth, acc2)
                                    } else {
                                        // never reached: a parsed value ends
                                        // within the tokens, past its start
                                        Err(TokenParseError::ExpectedProperty)
                                    }
                                } else if ts[j] is RightBrace {
                                    Ok((acc2, j + 1))
                                } else {
                                    Err(TokenParseError::ExpectedComma)
                                }
                            },
                        },
                    }
                }
            },
            _ => Err(TokenParseError::ExpectedProperty),
        }
    }
}

/// The object whose opening brace stood at token `i - 1`: an immediate
/// closing brace gives the empty object, anything else its members.
pub open spec fn spec_parse_object(ts: Seq<SpecToken>, i: int, depth: int) -> Result<
    (SpecValue, int),
    TokenParseError,
>
    decreases ts.len() - i, 3int,
{
    if i < ts.len() && ts[i] is RightBrace {
        Ok((SpecValue::Object(Seq::empty()), i + 1))
    } else {
        match spec_parse_members(ts, i, depth, Seq::empty()) {
            Ok((ms, j)) => Ok((SpecValue::Object(ms), j)),
            Err(e) => Err(e),
        }
    }
}

proof fn lemma_parse_items_advances(ts: Seq<SpecToken>, i: int, depth: int)
    ensures
        spec_parse_items(ts, i, depth) matches Ok(p) ==> i < p.1 <= ts.len(),
    decreases ts.len() - i, 2int,
{
    lemma_parse_value_advances(ts, i, depth);
    match spec_parse_value(ts, i, depth) {
        Ok((v, j)) => {
            if j < ts.len() && ts[j] is Comma && i < j + 1 && j + 1 <= ts.len() {
                lemma_parse_items_advances(ts, j + 1, depth);
            }
        },
        Err(_) => {},
    }
}

proof fn lemma_parse_members_advances(
    ts: Seq<SpecToken>,
    i: int,
    depth: int,
    acc: Seq<(Seq<char>, SpecValue)>,
)
    ensures
        spec_parse_members(ts, i, depth, acc) matches Ok(p) ==> i < p.1 <= ts.len(),
    decreases ts.len() - i, 2int,
{
    if i < ts.len() {
        match ts[i] {
            SpecToken::String(raw) => {
                if i + 1 < ts.len() && ts[i + 1] is Colon {
                    match spec_unescape(raw) {
                        Ok(key) => {
                            lemma_parse_value_advances(ts, i + 2, depth);
                            match spec_parse_value(ts, i + 2, depth) {
                                Ok((v, j)) => {
                                    if j < ts.len() && ts[j] is Comma && i < j + 1 && j + 1
                                        <= ts.len() {
                                        lemma_parse_members_advances(
                                            ts,
                                            j + 1,
                                            depth,
                                            spec_obj_insert(acc, key, v),
                                        );
                                    }
                                },
                                Err(_) => {},
                            }
                        },
                        Err(_) => {},
                    }
                }
            },
            _ => {},
        }
    }
}

proof fn lemma_parse_array_advances(ts: Seq<SpecToken>, i: int, depth: int)
    ensures
        spec_parse_array(ts, i, depth) matches Ok(p) ==> i < p.1 <= ts.len(),
    decreases ts.len() - i, 3int,
{
    lemma_parse_items_advances(ts, i, depth);
}

proof fn lemma_parse_object_advances(ts: Seq<SpecToken>, i: int, depth: int)
    ensures
        spec_parse_object(ts, i, depth) matches Ok(p) ==> i < p.1 <= ts.len(),
    decreases ts.len() - i, 3int,
{
    lemma_parse_members_advances(ts, i, depth, Seq::empty());
}

/// Every successfully parsed value, element list or member list ends within
/// the token sequence and past the position it started at; the bounds the
/// grammar's recursion guards assume therefore always hold.
pub proof fn lemma_parse_value_advances(ts: Seq<SpecToken>, i: int, depth: int)
    ensures
        spec_parse_value(ts, i, depth) matches Ok(p) ==> i < p.1 <= ts.len(),
    decreases ts.len() - i, 0int,
{
    if i < ts.len() {
        match ts[i] {
            SpecToken::LeftBracket => {
                if depth > 0 {
                    lemma_parse_array_advances(ts, i + 1, depth - 1);
                }
            },
            SpecToken::LeftBrace => {
                if depth > 0 {
                    lemma_parse_object_advances(ts, i + 1, depth - 1);
                }
            },
            _ => {},
        }
    }
}

/// A token sequence that opens more arrays in a row than the depth budget
/// allows fails with the recursion limit, whatever follows the brackets.
pub proof fn lemma_depth_guard(ts: Seq<SpecToken>, i: int, depth: int)
    requires
        0 <= i,
        0 <= depth,
        i + depth < ts.len(),
        forall|k: int| i <= k <= i + depth ==> ts[k] == SpecToken::LeftBracket,
    ensures
        spec_parse_value(ts, i, depth) == Err::<(SpecValue, int), TokenParseError>(
            TokenParseError::RecursionLimitExceeded,
        ),
    decreases depth,
{
    assert(ts[i] == SpecToken::LeftBracket);
    if depth > 0 {
        lemma_depth_guard(ts, i + 1, depth - 1);
        assert(ts[i + 1] == SpecToken::LeftBracket);
        assert(spec_parse_items(ts, i + 1, depth - 1) == Err::<
            (Seq<SpecValue>, int),
            TokenParseError,
        >(TokenParseError::RecursionLimitExceeded));
        assert(spec_parse_array(ts, i + 1, depth - 1) == Err::<(SpecValue, int), TokenParseError>(
            TokenParseError::RecursionLimitExceeded,
        ));
    }
}

proof fn lemma_chars_prepend_assoc(
    a: Seq<char>,
    b: Seq<char>,
    r: Result<Seq<char>, TokenParseError>,
)
    ensures
        spec_chars_prepend(a, spec_chars_prepend(b, r)) == spec_chars_prepend(a + b, r),
{
    match r {
        Ok(rest) => {
            assert(a + (b + rest) =~= (a + b) + rest);
        },
        Err(_) => {},
    }
}

/// The value of one hexadecimal digit.
fn hex_digit(c: char) -> (r: Option<u32>)
    ensures
        match r {
            Some(d) => spec_hex_val(c) == Some(d as int) && d < 16,
            None => spec_hex_val(c) is None,
        },
{
    let u = c as u32;
    if '0' as u32 <= u && u <= '9' as u32 {
        Some(u - '0' as u32)
    } else if 'a' as u32 <= u && u <= 'f' as u32 {
        Some(u - 'a' as u32 + 10)
    } else if 'A' as u32 <= u && u <= 'F' as u32 {
        Some(u - 'A' as u32 + 10)
    } else {
        None
    }
}

/// Reads the four hexadecimal digits of a `\u` escape starting at `i`.
fn hex4(cs: &Vec<char>, i: usize) -> (r: Result<u32, TokenParseError>)
    requires
        i <= cs.len(),
    ensures
        match r {
            Ok(v) => spec_hex_fold(cs@, i as int, 4, 0) == Ok::<int, TokenParseError>(v as int)
                && i + 4 <= cs.len() && v < 0x10000,
            Err(e) => spec_hex_fold(cs@, i as int, 4, 0) == Err::<int, TokenParseError>(e),
        },
{
    if cs.len() - i < 4 {
        // fewer than four characters remain: scan what is there
        let mut k = i;
        loop
            invariant
                i <= k <= cs.len(),
                cs.len() - i < 4,
                forall|m: int| i <= m < k ==> spec_hex_val(cs@[m]) is Some,
            decreases cs.len() - k,
        {
            if k == cs.len() {
                proof {
                    lemma_hex_fold_short(cs@, i as int, k as int, 4);
                }
                return Err(TokenParseError::UnfinishedEscape);
            }
            if hex_digit(cs[k]).is_none() {
                proof {
                    lemma_hex_fold_bad(cs@, i as int, k as int, 4);
                }
                return Err(TokenParseError::InvalidHexValue);
            }
            k += 1;
        }
    }
    let d0 = match hex_digit(cs[i]) {
        Some(d) => d,
        None => {
            return Err(TokenParseError::InvalidHexValue);
        },
    };
    proof {
        assert(spec_hex_fold(cs@, i as int, 4, 0) == spec_hex_fold(
            cs@,
            i as int + 1,
            3,
            d0 as int,
        ));
    }
    let d1 = match hex_digit(cs[i + 1]) {
        Some(d) => d,
        None => {
            return Err(TokenParseError::InvalidHexValue);
        },
    };
    proof {
        assert(spec_hex_fold(cs@, i as int + 1, 3, d0 as int) == spec_hex_fold(
            cs@,
            i as int + 2,
            2,
            d0 * 16 + d1,
        ));
    }
    let d2 = match hex_digit(cs[i + 2]) {
        Some(d) => d,
        None => {
            return Err(TokenParseError::InvalidHexValue);
        },
    };
    proof {
        assert(spec_hex_fold(cs@, i as int + 2, 2, d0 * 16 + d1) == spec_hex_fold(
            cs@,
            i as int + 3,
            1,
            (d0 * 16 + d1) * 16 + d2,
        ));
    }
    let d3 = match hex_digit(cs[i + 3]) {
        Some(d) => d,
        None => {
            return Err(TokenParseError::InvalidHexValue);
        },
    };
    proof {
        assert(spec_hex_fold(cs@, i as int + 3, 1, (d0 * 16 + d1) * 16 + d2) == spec_hex_fold(
            cs@,
            i as int + 4,
            0,
            ((d0 * 16 + d1) * 16 + d2) * 16 + d3,
        ));
    }
    Ok(((d0 * 16 + d1) * 16 + d2) * 16 + d3)
}

/// Folding stops with `UnfinishedEscape` when the digits run out before `n`
/// are read and every character up to the end was a digit.
proof fn lemma_hex_fold_short(s: Seq<char>, i: int, end: int, n: int)
    requires
        i <= end == s.len(),
        end - i < n,
        forall|m: int| i <= m < end ==> spec_hex_val(s[m]) is Some,
    ensures
        forall|acc: int| #![all_triggers]
            spec_hex_fold(s, i, n, acc) == Err::<int, TokenParseError>(
                TokenParseError::UnfinishedEscape,
            ),
    decreases end - i,
{
    if i < end {
        lemma_hex_fold_short(s, i + 1, end, n - 1);
        assert forall|acc: int|
            spec_hex_fold(s, i, n, acc) == Err::<int, TokenParseError>(
                TokenParseError::UnfinishedEscape,
            ) by {
            match spec_hex_val(s[i]) {
                Some(d) => {
                    assert(spec_hex_fold(s, i, n, acc) == spec_hex_fold(
                        s,
                        i + 1,
                        n - 1,
                        acc * 16 + d,
                    ));
                },
                None => {
                    assert(false);
                },
            }
        }
    }
}

/// Folding stops with `InvalidHexValue` at the first non-digit, here at
/// position `bad`, when it lies within the `n` characters read.
proof fn lemma_hex_fold_bad(s: Seq<char>, i: int, bad: int, n: int)
    requires
        i <= bad < s.len(),
        bad - i < n,
        spec_hex_val(s[bad]) is None,
        forall|m: int| i <= m < bad ==> spec_hex_val(s[m]) is Some,
    ensures
        forall|acc: int| #![all_triggers]
            spec_hex_fold(s, i, n, acc) == Err::<int, TokenParseError>(
                TokenParseError::InvalidHexValue,
            ),
    decreases bad - i,
{
    if i < bad {
        lemma_hex_fold_bad(s, i + 1, bad, n - 1);
        assert forall|acc: int|
            spec_hex_fold(s, i, n, acc) == Err::<int, TokenParseError>(
                TokenParseError::InvalidHexValue,
            ) by {
            match spec_hex_val(s[i]) {
                Some(d) => {
                    assert(spec_hex_fold(s, i, n, acc) == spec_hex_fold(
                        s,
                        i + 1,
                        n - 1,
                        acc * 16 + d,
                    ));
                },
                None => {
                    assert(false);
                },
            }
        }
    }
}

/// Resolves the backslash escapes of a raw string payload, or reports the
/// first malformed escape; the result is exactly what `spec_unescape`
/// describes of the payload's characters.
pub fn unescape_string(input: &str) -> (r: Result<String, TokenParseError>)
    ensures
        match r {
            Ok(out) => spec_unescape(input@) == Ok::<Seq<char>, TokenParseError>(out@),
            Err(e) => spec_unescape(input@) == Err::<Seq<char>, TokenParseError>(e),
        },
{
    broadcast use vstd::utf8::char_u32_cast;

    let cs = chars_of(input);
    let mut out: Vec<char> = Vec::new();
    let mut i: usize = 0;
    loop
        invariant
            i <= cs.len(),
            cs@ == input@,
            spec_unescape(input@) == spec_chars_prepend(out@, spec_unescape_from(cs@, i as int)),
        decreases cs@.len() - i,
    {
        let ghost out_at = out@;
        if i == cs.len() {
            proof {
                assert(out@ + Seq::<char>::empty() =~= out@);
            }
            return Ok(string_from_chars(out));
        }
        let c = cs[i];
        if c != '\\' {
            out.push(c);
            i += 1;
            proof {
                lemma_chars_prepend_assoc(out_at, seq![c], spec_unescape_from(cs@, i as int));
                assert(out_at + seq![c] =~= out@);
            }
        } else if i + 1 == cs.len() {
            proof {
                assert(out@ + Seq::<char>::empty() =~= out@);
            }
            return Ok(string_from_chars(out));
        } else {
            let c2 = cs[i + 1];
            if c2 == 'u' {
                match hex4(&cs, i + 2) {
                    Err(e) => {
                        return Err(e);
                    },
                    Ok(v) => {
                        if 0xD800 <= v && v < 0xE000 {
                            return Err(TokenParseError::InvalidCodePointValue);
                        }
                        let ch = char_from_u32(v);
                        out.push(ch);
                        i += 6;
                        proof {
                            lemma_chars_prepend_assoc(
                                out_at,
                                seq![ch],
                                spec_unescape_from(cs@, i as int),
                            );
                            assert(out_at + seq![ch] =~= out@);
                        }
                    },
                }
            } else {
                let mapped = if c2 == '"' {
                    '"'
                } else if c2 == '\\' {
                    '\\'
                } else if c2 == 'b' {
                    '\u{8}'
                } else if c2 == 'f' {
                    '\u{c}'
                } else if c2 == 'n' {
                    '\n'
                } else if c2 == 'r' {
                    '\r'
                } else if c2 == 't' {
                    '\t'
                } else {
                    c2
                };
                out.push(mapped);
                i += 2;
                proof {
                    lemma_chars_prepend_assoc(out_at, seq![mapped], spec_unescape_from(cs@, i as int));
                    assert(out_at + seq![mapped] =~= out@);
                }
            }
        }
    }
}

proof fn lemma_pairs_view_index(s: Seq<(String, Value)>, k: int)
    requires
        0 <= k < s.len(),
    ensures
        pairs_view(s).len() == s.len(),
        pairs_view(s)[k] == member_view(s[k]),
        pairs_view(s)[k].0 == s[k].0@,
        pairs_view(s)[k].1 == s[k].1@,
{
}

proof fn lemma_pairs_view_push(s: Seq<(String, Value)>, p: (String, Value))
    ensures
        pairs_view(s.push(p)) == pairs_view(s).push((p.0@, p.1@)),
{
    assert forall|k: int| 0 <= k < s.len() + 1 implies pairs_view(s.push(p))[k] == pairs_view(
        s,
    ).push((p.0@, p.1@))[k] by {
        lemma_pairs_view_index(s.push(p), k);
        if k < s.len() {
            lemma_pairs_view_index(s, k);
        }
    }
    assert(pairs_view(s.push(p)) =~= pairs_view(s).push((p.0@, p.1@)));
}

proof fn lemma_pairs_view_update(s: Seq<(String, Value)>, i: int, p: (String, Value))
    requires
        0 <= i < s.len(),
    ensures
        pairs_view(s.update(i, p)) == pairs_view(s).update(i, (p.0@, p.1@)),
{
    assert forall|k: int| 0 <= k < s.len() implies pairs_view(s.update(i, p))[k] == pairs_view(
        s,
    ).update(i, (p.0@, p.1@))[k] by {
        lemma_pairs_view_index(s.update(i, p), k);
        if k != i {
            lemma_pairs_view_index(s, k);
        }
    }
    assert(pairs_view(s.update(i, p)) =~= pairs_view(s).update(i, (p.0@, p.1@)));
}

proof fn lemma_obj_find_update_other(m: Seq<(Seq<char>, SpecValue)>, i: int, p: (Seq<char>, SpecValue), key: Seq<char>)
    requires
        0 <= i < m.len(),
        m[i].0 != key,
        p.0 != key,
    ensures
        spec_obj_find(m.update(i, p), key) == spec_obj_find(m, key),
    decreases m.len(),
{
    if m.len() > 0 {
        if i == 0 {
            assert(m.update(i, p).drop_first() =~= m.drop_first());
        } else {
            assert(m.update(i, p)[0] == m[0]);
            assert(m.update(i, p).drop_first() =~= m.drop_first().update(i - 1, p));
            if m[0].0 != key {
                lemma_obj_find_update_other(m.drop_first(), i - 1, p, key);
            }
        }
    }
}

proof fn lemma_obj_find_push(m: Seq<(Seq<char>, SpecValue)>, p: (Seq<char>, SpecValue), key: Seq<char>)
    ensures
        spec_obj_find(m.push(p), key) == (if spec_obj_find(m, key) >= 0 {
            spec_obj_find(m, key)
        } else if p.0 == key {
            m.len() as int
        } else {
            -1
        }),
    decreases m.len(),
{
    let mp = m.push(p);
    if m.len() == 0 {
        assert(mp[0] == p);
        if p.0 == key {
            assert(spec_obj_find(mp, key) == 0);
        } else {
            assert(mp.drop_first() =~= Seq::<(Seq<char>, SpecValue)>::empty());
            assert(spec_obj_find(mp.drop_first(), key) == -1);
            assert(spec_obj_find(mp, key) == -1);
        }
    } else {
        assert(mp[0] == m[0]);
        assert(mp.drop_first() =~= m.drop_first().push(p));
        lemma_obj_find_push(m.drop_first(), p, key);
        if m[0].0 == key {
            assert(spec_obj_find(mp, key) == 0);
            assert(spec_obj_find(m, key) == 0);
        } else {
            let rp = spec_obj_find(mp.drop_first(), key);
            let rm = spec_obj_find(m.drop_first(), key);
            assert(spec_obj_find(mp, key) == (if rp < 0 { -1 } else { rp + 1 }));
            assert(spec_obj_find(m, key) == (if rm < 0 { -1 } else { rm + 1 }));
            assert(m.drop_first().len() == m.len() - 1);
        }
    }
}

/// The value found under a key after an insertion: the inserted value under
/// the inserted key (the last write wins), and under every other key exactly
/// what was there before.
pub proof fn lemma_obj_insert_last_wins(
    m: Seq<(Seq<char>, SpecValue)>,
    key: Seq<char>,
    v: SpecValue,
)
    ensures
        spec_obj_lookup(spec_obj_insert(m, key, v), key) == Some(v),
        forall|k2: Seq<char>| k2 != key ==> spec_obj_lookup(spec_obj_insert(m, key, v), k2)
            == spec_obj_lookup(m, k2),
{
    lemma_obj_find(m, key);
    let idx = spec_obj_find(m, key);
    if idx >= 0 {
        let m2 = m.update(idx, (key, v));
        lemma_obj_find(m2, key);
        let r2 = spec_obj_find(m2, key);
        assert(m2[idx].0 == key);
        assert(r2 == idx);
        assert forall|k2: Seq<char>| k2 != key implies spec_obj_lookup(m2, k2) == spec_obj_lookup(
            m,
            k2,
        ) by {
            lemma_obj_find_update_other(m, idx, (key, v), k2);
            lemma_obj_find(m, k2);
        }
    } else {
        let m2 = m.push((key, v));
        lemma_obj_find_push(m, (key, v), key);
        assert(spec_obj_lookup(m2, key) == Some(v));
        assert forall|k2: Seq<char>| k2 != key implies spec_obj_lookup(m2, k2) == spec_obj_lookup(
            m,
            k2,
        ) by {
            lemma_obj_find_push(m, (key, v), k2);
            lemma_obj_find(m, k2);
        }
    }
}

/// `spec_obj_find` names the first member with the key, or `-1` when none
/// has it.
proof fn lemma_obj_find(m: Seq<(Seq<char>, SpecValue)>, key: Seq<char>)
    ensures
        -1 <= spec_obj_find(m, key) < m.len(),
        spec_obj_find(m, key) >= 0 ==> m[spec_obj_find(m, key)].0 == key && (forall|k: int|
            0 <= k < spec_obj_find(m, key) ==> m[k].0 != key),
        spec_obj_find(m, key) < 0 ==> (forall|k: int| 0 <= k < m.len() ==> m[k].0 != key),
    decreases m.len(),
{
    if m.len() > 0 && m[0].0 != key {
        lemma_obj_find(m.drop_first(), key);
        let r = spec_obj_find(m, key);
        if r >= 0 {
            assert(m.drop_first()[r - 1] == m[r]);
            assert forall|k: int| 0 <= k < r implies m[k].0 != key by {
                if k > 0 {
                    assert(m.drop_first()[k - 1] == m[k]);
                }
            }
        } else {
            assert forall|k: int| 0 <= k < m.len() implies m[k].0 != key by {
                if k > 0 {
                    assert(m.drop_first()[k - 1] == m[k]);
                }
            }
        }
    }
}

/// Adds one member: replaces the value of an existing key in place, appends
/// a new key at the end, exactly as `spec_obj_insert` describes.
fn insert_pair(pairs: &mut Vec<(String, Value)>, key: String, v: Value)
    ensures
        pairs_view(final(pairs)@) == spec_obj_insert(pairs_view(old(pairs)@), key@, v@),
{
    let mut idx: usize = 0;
    loop
        invariant
            idx <= pairs.len(),
            pairs@ == old(pairs)@,
            forall|k: int| 0 <= k < idx ==> pairs@[k].0@ != key@,
        decreases pairs.len() - idx,
    {
        if idx == pairs.len() {
            proof {
                lemma_obj_find(pairs_view(pairs@), key@);
                let m = pairs_view(pairs@);
                let r = spec_obj_find(m, key@);
                if r >= 0 {
                    lemma_pairs_view_index(pairs@, r);
                }
                assert(r < 0);
            }
            let ghost before = pairs@;
            pairs.push((key, v));
            proof {
                lemma_pairs_view_push(before, (key, v));
                assert(pairs@ == before.push((key, v)));
            }
            return ;
        }
        if pairs[idx].0 == key {
            proof {
                lemma_obj_find(pairs_view(pairs@), key@);
                let m = pairs_view(pairs@);
                let r = spec_obj_find(m, key@);
                lemma_pairs_view_index(pairs@, idx as int);
                if 0 <= r < idx as int {
                    lemma_pairs_view_index(pairs@, r);
                }
                assert(r == idx as int);
            }
            let ghost before = pairs@;
            pairs[idx] = (key, v);
            proof {
                lemma_pairs_view_update(before, idx as int, (key, v));
                assert(pairs@ == before.update(idx as int, (key, v)));
            }
            return ;
        }
        idx += 1;
    }
}

/// Unescapes a string token's payload and wraps it as a string value.
fn parse_string(input: &str) -> (r: Result<Value, TokenParseError>)
    ensures
        match r {
            Ok(v) => spec_unescape(input@) matches Ok(u) && v@ == SpecValue::String(u),
            Err(e) => spec_unescape(input@) == Err::<Seq<char>, TokenParseError>(e),
        },
{
    match unescape_string(input) {
        Ok(s) => Ok(Value::String(s)),
        Err(e) => Err(e),
    }
}

/// Parses the value starting at token `pos` with the given remaining depth
/// budget; returns the value and the position after it.
fn parse_value(tokens: &Vec<Token>, pos: usize, depth: usize) -> (r: Result<
    (Value, usize),
    TokenParseError,
>)
    ensures
        match r {
            Ok((v, j)) => spec_parse_value(toks_view(tokens@), pos as int, depth as int)
                == Ok::<_, TokenParseError>((v@, j as int)) && pos < j <= tokens.len(),
            Err(e) => spec_parse_value(toks_view(tokens@), pos as int, depth as int) == Err::<
                (SpecValue, int),
                TokenParseError,
            >(e),
        },
    decreases tokens.len() - pos, 0int,
{
    if pos >= tokens.len() {
        return Err(TokenParseError::UnexpectedEndOfTokens);
    }
    match &tokens[pos] {
        Token::Null => Ok((Value::Null, pos + 1)),
        Token::True => Ok((Value::Boolean(true), pos + 1)),
        Token::False => Ok((Value::Boolean(false), pos + 1)),
        Token::Number(lit) => Ok((Value::Number(lit.clone()), pos + 1)),
        Token::String(raw) => match parse_string(raw.as_str()) {
            Ok(v) => Ok((v, pos + 1)),
            Err(e) => Err(e),
        },
        Token::LeftBracket => {
            if depth == 0 {
                Err(TokenParseError::RecursionLimitExceeded)
            } else {
                parse_array(tokens, pos + 1, depth - 1)
            }
        },
        Token::LeftBrace => {
            if depth == 0 {
                Err(TokenParseError::RecursionLimitExceeded)
            } else {
                parse_objects(tokens, pos + 1, depth - 1)
            }
        },
        _ => Err(TokenParseError::UnexpectedToken),
    }
}

/// Parses the array whose opening bracket stood right before `pos`.
fn parse_array(tokens: &Vec<Token>, pos: usize, depth: usize) -> (r: Result<
    (Value, usize),
    TokenParseError,
>)
    requires
        pos <= tokens.len(),
    ensures
        match r {
            Ok((v, j)) => spec_parse_array(toks_view(tokens@), pos as int, depth as int)
                == Ok::<_, TokenParseError>((v@, j as int)) && pos < j <= tokens.len(),
            Err(e) => spec_parse_array(toks_view(tokens@), pos as int, depth as int) == Err::<
                (SpecValue, int),
                TokenParseError,
            >(e),
        },
    decreases tokens.len() - pos, 1int,
{
    let ghost ts = toks_view(tokens@);
    if pos < tokens.len() && matches!(&tokens[pos], Token::RightBracket) {
        let out = Value::Array(Vec::new());
        proof {
            assert(out@->Array_0 =~= Seq::<SpecValue>::empty());
            assert(out@ == SpecValue::Array(Seq::<SpecValue>::empty()));
        }
        return Ok((out, pos + 1));
    }
    let mut elems: Vec<Value> = Vec::new();
    let mut i = pos;
    loop
        invariant
            pos <= i <= tokens.len(),
            spec_parse_items(ts, pos as int, depth as int) == spec_items_prepend(
                vals_view(elems@),
                spec_parse_items(ts, i as int, depth as int),
            ),
        decreases tokens.len() - i,
    {
        let ghost elems_at = elems@;
        let ghost i_at = i as int;
        match parse_value(tokens, i, depth) {
            Err(e) => {
                return Err(e);
            },
            Ok((v, j)) => {
                let ghost vv = v@;
                elems.push(v);
                proof {
                    assert(vals_view(elems@) =~= vals_view(elems_at) + seq![vv]);
                }
                if j >= tokens.len() {
                    return Err(TokenParseError::UnexpectedEndOfTokens);
                }
                match &tokens[j] {
                    Token::Comma => {
                        proof {
                            assert(spec_parse_items(ts, i_at, depth as int) == spec_items_prepend(
                                seq![vv],
                                spec_parse_items(ts, j as int + 1, depth as int),
                            ));
                            match spec_parse_items(ts, j as int + 1, depth as int) {
                                Ok((rest, k)) => {
                                    assert(vals_view(elems_at) + (seq![vv] + rest) =~= vals_view(
                                        elems@,
                                    ) + rest);
                                },
                                Err(_) => {},
                            }
                        }
                        i = j + 1;
                    },
                    Token::RightBracket => {
                        proof {
                            assert(vals_view(elems_at) + seq![vv] =~= vals_view(elems@));
                        }
                        let ghost ev = vals_view(elems@);
                        let out = Value::Array(elems);
                        proof {
                            assert(out@->Array_0 =~= ev);
                            assert(out@ == SpecValue::Array(ev));
                        }
                        return Ok((out, j + 1));
                    },
                    _ => {
                        return Err(TokenParseError::ExpectedComma);
                    },
                }
            },
        }
    }
}

/// Parses the object whose opening brace stood right before `pos`.
fn parse_objects(tokens: &Vec<Token>, pos: usize, depth: usize) -> (r: Result<
    (Value, usize),
    TokenParseError,
>)
    requires
        pos <= tokens.len(),
    ensures
        match r {
            Ok((v, j)) => spec_parse_object(toks_view(tokens@), pos as int, depth as int)
                == Ok::<_, TokenParseError>((v@, j as int)) && pos < j <= tokens.len(),
            Err(e) => spec_parse_object(toks_view(tokens@), pos as int, depth as int) == Err::<
                (SpecValue, int),
                TokenParseError,
            >(e),
        },
    decreases tokens.len() - pos, 1int,
{
    let ghost ts = toks_view(tokens@);
    if pos < tokens.len() && matches!(&tokens[pos], Token::RightBrace) {
        let out = Value::Object(Vec::new());
        proof {
            assert(out@->Object_0 =~= Seq::<(Seq<char>, SpecValue)>::empty());
            assert(out@ == SpecValue::Object(Seq::<(Seq<char>, SpecValue)>::empty()));
        }
        return Ok((out, pos + 1));
    }
    let mut pairs: Vec<(String, Value)> = Vec::new();
    let mut i = pos;
    proof {
        assert(pairs_view(pairs@) =~= Seq::<(Seq<char>, SpecValue)>::empty());
    }
    loop
        invariant
            pos <= i <= tokens.len(),
            spec_parse_members(ts, pos as int, depth as int, Seq::empty())
                == spec_parse_members(ts, i as int, depth as int, pairs_view(pairs@)),
        decreases tokens.len() - i,
    {
        if i >= tokens.len() {
            return Err(TokenParseError::ExpectedProperty);
        }
        match &tokens[i] {
            Token::String(raw) => {
                if i + 1 >= tokens.len() || !matches!(&tokens[i + 1], Token::Colon) {
                    return Err(TokenParseError::ExpectedColon);
                }
                match unescape_string(raw.as_str()) {
                    Err(e) => {
                        return Err(e);
                    },
                    Ok(key) => match parse_value(tokens, i + 2, depth) {
                        Err(e) => {
                            return Err(e);
                        },
                        Ok((v, j)) => {
                            let ghost i_at = i as int;
                            let ghost pairs_at = pairs_view(pairs@);
                            let ghost keyv = key@;
                            let ghost vv = v@;
                            insert_pair(&mut pairs, key, v);
                            if j >= tokens.len() {
                                return Err(TokenParseError::ExpectedComma);
                            }
                            match &tokens[j] {
                                Token::Comma => {
                                    i = j + 1;
                                },
                                Token::RightBrace => {
                                    let ghost pv = pairs_view(pairs@);
                                    let ghost pseq = pairs@;
                                    let out = Value::Object(pairs);
                                    proof {
                                        assert forall|k: int| 0 <= k < pv.len() implies out@->Object_0[k]
                                            == pv[k] by {
                                            lemma_pairs_view_index(pseq, k);
                                        }
                                        assert(out@->Object_0 =~= pv);
                                        assert(out@ == SpecValue::Object(pv));
                                    }
                                    return Ok((out, j + 1));
                                },
                                _ => {
                                    return Err(TokenParseError::ExpectedComma);
                                },
                            }
                        },
                    },
                }
            },
            _ => {
                return Err(TokenParseError::ExpectedProperty);
            },
        }
    }
}

/// Parses one value from the cursor position with the full depth budget;
/// returns the value and the position after it. Tokens after the value are
/// left where they are.
pub fn parse_tokens(tokens: &Vec<Token>, pos: usize) -> (r: Result<(Value, usize), TokenParseError>)
    ensures
        match r {
            Ok((v, j)) => spec_parse_value(toks_view(tokens@), pos as int, MAX_DEPTH as int)
                == Ok::<_, TokenParseError>((v@, j as int)) && pos < j <= tokens.len(),
            Err(e) => spec_parse_value(toks_view(tokens@), pos as int, MAX_DEPTH as int) == Err::<
                (SpecValue, int),
                TokenParseError,
            >(e),
        },
{
    parse_value(tokens, pos, MAX_DEPTH)
}

} // verus!
