//! A JSON reader: a tokenizer that turns text into a flat token sequence and
//! a recursive-descent parser that turns the tokens into a tree of values.
#![verifier::loop_isolation(false)]
use vstd::prelude::*;

pub mod text;
pub mod tokenize;
pub mod parse;

verus! {

broadcast use vstd::std_specs::vec::group_vec_axioms;

/// A parsed JSON document: a tree of tagged values.
///
/// A number keeps its literal text; turning it into a machine float is the
/// caller's concern. An object keeps its members in insertion order as a
/// vector of pairs whose keys are unique: when a key recurs in the input,
/// the later value replaces the earlier one in place (last write wins).
#[derive(Debug)]
pub enum Value {
    Null,
    Boolean(bool),
    String(String),
    Number(String),
    Array(Vec<Value>),
    Object(Vec<(String, Value)>),
}

/// The mathematical counterpart of `Value`: text is a character sequence,
/// an array a sequence of values, an object a sequence of key-value pairs.
pub enum SpecValue {
    Null,
    Boolean(bool),
    String(Seq<char>),
    Number(Seq<char>),
    Array(Seq<SpecValue>),
    Object(Seq<(Seq<char>, SpecValue)>),
}

/// The view of one object member: the key's characters and the value's view.
pub open spec fn member_view(p: (String, Value)) -> (Seq<char>, SpecValue)
    decreases p,
{
    (p.0@, p.1@)
}

impl View for Value {
    type V = SpecValue;

    open spec fn view(&self) -> SpecValue
        decreases self,
    {
        match self {
            Value::Null => SpecValue::Null,
            Value::Boolean(b) => SpecValue::Boolean(*b),
            Value::String(s) => SpecValue::String(s@),
            Value::Number(s) => SpecValue::Number(s@),
            Value::Array(a) => SpecValue::Array(
                Seq::new(
                    a.len() as nat,
                    |k: int|
                        if 0 <= k < a.len() {
                            a[k]@
                        } else {
                            SpecValue::Null
                        },
                ),
            ),
            Value::Object(m) => SpecValue::Object(
                Seq::new(
                    m.len() as nat,
                    |k: int|
                        if 0 <= k < m.len() {
                            member_view(m[k])
                        } else {
                            arbitrary()
                        },
                ),
            ),
        }
    }
}

impl PartialEq for Value {
    /// Structural equality of two value trees: same variant, same text, and
    /// the same children in the same order; object members must match
    /// pairwise, key and value, in insertion order.
    fn eq(&self, other: &Value) -> (r: bool)
        decreases self,
    {
        match (self, other) {
            (Value::Null, Value::Null) => true,
            (Value::Boolean(a), Value::Boolean(b)) => *a == *b,
            (Value::String(a), Value::String(b)) => a.eq(b),
            (Value::Number(a), Value::Number(b)) => a.eq(b),
            (Value::Array(a), Value::Array(b)) => {
                if a.len() != b.len() {
                    proof {
                        assert(self@->Array_0.len() == a@.len());
                        assert(other@->Array_0.len() == b@.len());
                    }
                    return false;
                }
                let mut k: usize = 0;
                loop
                    invariant
                        k <= a.len(),
                        a@.len() == b@.len(),
                        forall|m: int| 0 <= m < k ==> a@[m]@ == b@[m]@,
                    decreases a.len() - k,
                {
                    if k == a.len() {
                        proof {
                            assert(self@->Array_0 =~= other@->Array_0);
                            assert(self@ == other@);
                        }
                        return true;
                    }
                    if !a[k].eq(&b[k]) {
                        proof {
                            assert(self@->Array_0[k as int] != other@->Array_0[k as int]);
                        }
                        return false;
                    }
                    k += 1;
                }
            },
            (Value::Object(a), Value::Object(b)) => {
                if a.len() != b.len() {
                    proof {
                        assert(self@->Object_0.len() == a@.len());
                        assert(other@->Object_0.len() == b@.len());
                    }
                    return false;
                }
                let mut k: usize = 0;
                loop
                    invariant
                        k <= a.len(),
                        a@.len() == b@.len(),
                        forall|m: int| 0 <= m < k ==> member_view(a@[m]) == member_view(b@[m]),
                    decreases a.len() - k,
                {
                    if k == a.len() {
                        proof {
                            assert(self@->Object_0 =~= other@->Object_0);
                            assert(self@ == other@);
                        }
                        return true;
                    }
                    if !a[k].0.eq(&b[k].0) {
                        proof {
                            assert(member_view(a@[k as int]).0 != member_view(b@[k as int]).0);
                            assert(self@->Object_0[k as int] != other@->Object_0[k as int]);
                        }
                        return false;
                    }
                    if !a[k].1.eq(&b[k].1) {
                        proof {
                            assert(member_view(a@[k as int]).1 != member_view(b@[k as int]).1);
                            assert(self@->Object_0[k as int] != other@->Object_0[k as int]);
                        }
                        return false;
                    }
                    proof {
                        assert(member_view(a@[k as int]) == member_view(b@[k as int]));
                    }
                    k += 1;
                }
            },
            _ => false,
        }
    }
}

impl vstd::std_specs::cmp::PartialEqSpecImpl for Value {
    open spec fn obeys_eq_spec() -> bool {
        true
    }

    open spec fn eq_spec(&self, other: &Value) -> bool {
        self@ == other@
    }
}

/// The unified error of the whole pipeline: the stage that failed, with its
/// own error inside.
#[derive(Debug)]
pub enum ParseError {
    /// The tokenizer rejected the text.
    TokenizeError(tokenize::TokenizeError),
    /// The parser rejected the token sequence.
    ParseError(parse::TokenParseError),
}

/// The mathematical counterpart of `ParseError`.
pub enum SpecParseError {
    TokenizeError(tokenize::SpecTokenizeError),
    ParseError(parse::TokenParseError),
}

impl View for ParseError {
    type V = SpecParseError;

    open spec fn view(&self) -> SpecParseError {
        match self {
            ParseError::TokenizeError(e) => SpecParseError::TokenizeError(e@),
            ParseError::ParseError(e) => SpecParseError::ParseError(*e),
        }
    }
}

impl PartialEq for ParseError {
    fn eq(&self, other: &ParseError) -> (r: bool) {
        match (self, other) {
            (ParseError::TokenizeError(a), ParseError::TokenizeError(b)) => a.eq(b),
            (ParseError::ParseError(a), ParseError::ParseError(b)) => *a == *b,
            _ => false,
        }
    }
}

impl vstd::std_specs::cmp::PartialEqSpecImpl for ParseError {
    open spec fn obeys_eq_spec() -> bool {
        true
    }

    open spec fn eq_spec(&self, other: &ParseError) -> bool {
        self@ == other@
    }
}

impl From<parse::TokenParseError> for ParseError {
    fn from(err: parse::TokenParseError) -> (r: Self) {
        ParseError::ParseError(err)
    }
}

impl vstd::std_specs::convert::FromSpecImpl<parse::TokenParseError> for ParseError {
    open spec fn obeys_from_spec() -> bool {
        true
    }

    open spec fn from_spec(err: parse::TokenParseError) -> Self {
        ParseError::ParseError(err)
    }
}

impl From<tokenize::TokenizeError> for ParseError {
    fn from(err: tokenize::TokenizeError) -> (r: Self) {
        ParseError::TokenizeError(err)
    }
}

impl vstd::std_specs::convert::FromSpecImpl<tokenize::TokenizeError> for ParseError {
    open spec fn obeys_from_spec() -> bool {
        true
    }

    open spec fn from_spec(err: tokenize::TokenizeError) -> Self {
        ParseError::TokenizeError(err)
    }
}

/// The document denoted by the text: its token sequence parsed as one value,
/// with each stage's failure wrapped under the stage's name. Tokens after
/// the first value are ignored, as is trailing whitespace.
pub open spec fn spec_parse(s: Seq<char>) -> Result<SpecValue, SpecParseError> {
    match tokenize::spec_tokenize(s) {
        Err(e) => Err(SpecParseError::TokenizeError(e)),
        Ok(ts) => match parse::spec_parse_value(ts, 0, parse::MAX_DEPTH as int) {
            Err(e) => Err(SpecParseError::ParseError(e)),
            Ok((v, _)) => Ok(v),
        },
    }
}

/// Tokenizes the whole input and parses one value from the front of the
/// token sequence: exactly what `spec_parse` describes of the input's
/// characters.
pub fn parse(input: String) -> (r: Result<Value, ParseError>)
    ensures
        match r {
            Ok(v) => spec_parse(input@) == Ok::<SpecValue, SpecParseError>(v@),
            Err(e) => spec_parse(input@) == Err::<SpecValue, SpecParseError>(e@),
        },
{
    match tokenize::tokenize(input) {
        Err(e) => Err(ParseError::from(e)),
        Ok(tokens) => match parse::parse_tokens(&tokens, 0) {
            Err(e) => Err(ParseError::from(e)),
            Ok((v, _rest)) => Ok(v),
        },
    }
}

/// The value a scalar token stands for.
pub open spec fn spec_scalar_value(t: tokenize::SpecToken) -> SpecValue {
    match t {
        tokenize::SpecToken::Null => SpecValue::Null,
        tokenize::SpecToken::True => SpecValue::Boolean(true),
        tokenize::SpecToken::False => SpecValue::Boolean(false),
        tokenize::SpecToken::Number(lit) => SpecValue::Number(lit),
        _ => arbitrary(),
    }
}

/// Round trip for scalar literals: a text whose token sequence is one
/// keyword or number token parses to exactly the corresponding value; a
/// number keeps its literal text unchanged.
pub proof fn lemma_scalar_round_trip(s: Seq<char>, t: tokenize::SpecToken)
    requires
        tokenize::spec_tokenize(s) == Ok::<Seq<tokenize::SpecToken>, tokenize::SpecTokenizeError>(
            seq![t],
        ),
        t is Null || t is True || t is False || t is Number,
    ensures
        spec_parse(s) == Ok::<SpecValue, SpecParseError>(spec_scalar_value(t)),
{
    assert(seq![t].len() == 1);
    assert(seq![t][0] == t);
}

/// A document of more opening brackets in a row than the parser's depth
/// budget fails with `RecursionLimitExceeded` instead of descending without
/// bound.
pub proof fn lemma_depth_guard_brackets(s: Seq<char>)
    requires
        s.len() > parse::MAX_DEPTH,
        forall|k: int| 0 <= k < s.len() ==> s[k] == '[',
    ensures
        spec_parse(s) == Err::<SpecValue, SpecParseError>(
            SpecParseError::ParseError(parse::TokenParseError::RecursionLimitExceeded),
        ),
{
    tokenize::lemma_brackets_tokenize(s, 0);
    match tokenize::spec_tokenize(s) {
        Ok(ts) => {
            parse::lemma_depth_guard(ts, 0, parse::MAX_DEPTH as int);
        },
        Err(_) => {
            assert(false);
        },
    }
}

} // verus!
