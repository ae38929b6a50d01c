use crate::lexer::{
    false_word, generate_tokens, DIGIT_NINE, DIGIT_ZERO, is_digit, is_false_word, is_null_word, is_true_word, lex,
    null_word, tokens_view, true_word, LexError, LexFault, Token, TokenSpec, TokenType,
};
use crate::text::{lossy_text, text_of};
use crate::value::{
    keys_unique, lemma_array_model, lemma_members_map_push, lemma_members_map_update, members_map, models, Value,
    ValueModel,
};
use vstd::prelude::*;
use vstd::string::StringSliceAdditionalSpecFns;

verus! {

/// Why a sequence of tokens is not one well-formed document.
#[derive(PartialEq, Eq, Structural, Debug, Clone, Copy)]
pub enum SyntaxError {
    /// A token that cannot begin a value, or no token where a value was expected.
    UnexpectedToken,
    /// An object member whose key is not followed by a colon.
    ColonExpected,
    /// An object whose members are not followed by a closing brace.
    UnterminatedObject,
    /// An array whose elements are not followed by a closing bracket.
    UnterminatedArray,
    /// A key or string that is not a quote, a string and a quote.
    InvalidString,
    /// A number token whose text is not a decimal literal.
    InvalidNumber,
    /// Tokens left over after the document's value.
    TrailingData,
    /// No token at all.
    EmptyInput,
}

/// Why a text could not be decoded.
#[derive(PartialEq, Debug)]
pub enum ParseError {
    Lex(LexError),
    Syntax(SyntaxError),
}

/// The model of a `ParseError`.
pub enum ParseFault {
    Lex(LexFault),
    Syntax(SyntaxError),
}

impl View for ParseError {
    type V = ParseFault;

    open spec fn view(&self) -> ParseFault {
        match self {
            ParseError::Lex(e) => ParseFault::Lex(e@),
            ParseError::Syntax(e) => ParseFault::Syntax(*e),
        }
    }
}

pub const DOT: u8 = 0x2e;

pub open spec fn is_exponent_mark(c: u8) -> bool {
    c == 0x65 || c == 0x45
}

pub open spec fn is_sign(c: u8) -> bool {
    c == 0x2b || c == 0x2d
}

/// The first offset at or after `j` that does not hold a digit, or the length of `w`.
pub open spec fn digits_end(w: Seq<u8>, j: nat) -> nat
    decreases w.len() - j,
{
    if j >= w.len() {
        w.len()
    } else if is_digit(w[j as int]) {
        digits_end(w, j + 1)
    } else {
        j
    }
}

/// A decimal literal: one or more digits; then optionally a point and digits; then
/// optionally an exponent mark, an optional sign and one or more digits; and nothing else.
pub open spec fn is_number_literal(w: Seq<u8>) -> bool {
    let a = digits_end(w, 0);
    let b = if a < w.len() && w[a as int] == DOT {
        digits_end(w, a + 1)
    } else {
        a
    };
    let c = if b + 1 < w.len() && is_sign(w[b + 1int]) {
        b + 2
    } else {
        b + 1
    };
    &&& a > 0
    &&& (b == w.len() || (is_exponent_mark(w[b as int]) && c < w.len() && digits_end(w, c)
        == w.len()))
}

pub open spec fn kind_at(ts: Seq<TokenSpec>, i: nat, k: TokenType) -> bool {
    i < ts.len() && ts[i as int].kind == k
}

/// How many tokens are left from offset `i` on.
pub open spec fn remaining(ts: Seq<TokenSpec>, i: nat) -> nat {
    if i < ts.len() {
        (ts.len() - i) as nat
    } else {
        0
    }
}

/// Adds `d` to the count of consumed tokens of a successful result.
pub open spec fn shift(r: Result<(ValueModel, nat), SyntaxError>, d: nat) -> Result<
    (ValueModel, nat),
    SyntaxError,
> {
    match r {
        Ok((v, n)) => Ok((v, n + d)),
        Err(e) => Err(e),
    }
}

/// The text of the quoted string `Quote String Quote` at offset `i`.
pub open spec fn string_at(ts: Seq<TokenSpec>, i: nat) -> Result<Seq<char>, SyntaxError> {
    if kind_at(ts, i, TokenType::Quote) && kind_at(ts, i + 1, TokenType::String) && kind_at(
        ts,
        i + 2,
        TokenType::Quote,
    ) {
        Ok(lossy_text(ts[i + 1int].text))
    } else {
        Err(SyntaxError::InvalidString)
    }
}

/// The value that begins at token `i`, with the number of tokens it spans.
pub open spec fn value_at(ts: Seq<TokenSpec>, i: nat) -> Result<(ValueModel, nat), SyntaxError>
    decreases remaining(ts, i), 1nat,
{
    if i >= ts.len() {
        Err(SyntaxError::UnexpectedToken)
    } else {
        let t = ts[i as int];
        match t.kind {
            TokenType::LeftBracket => object_at(ts, i),
            TokenType::LeftSquareBracket => array_at(ts, i),
            TokenType::Quote => match string_at(ts, i) {
                Ok(s) => Ok((ValueModel::Str(s), 3)),
                Err(e) => Err(e),
            },
            TokenType::Number => if is_number_literal(t.text) {
                Ok((ValueModel::Number(lossy_text(t.text)), 1))
            } else {
                Err(SyntaxError::InvalidNumber)
            },
            TokenType::Boolean => if t.text == true_word() {
                Ok((ValueModel::Bool(true), 1))
            } else if t.text == false_word() {
                Ok((ValueModel::Bool(false), 1))
            } else {
                Err(SyntaxError::UnexpectedToken)
            },
            TokenType::Null => if t.text == null_word() {
                Ok((ValueModel::Null, 1))
            } else {
                Err(SyntaxError::UnexpectedToken)
            },
            _ => Err(SyntaxError::UnexpectedToken),
        }
    }
}

/// The object that opens at token `i`, with the number of tokens it spans.
pub open spec fn object_at(ts: Seq<TokenSpec>, i: nat) -> Result<(ValueModel, nat), SyntaxError>
    decreases remaining(ts, i), 0nat,
{
    if !kind_at(ts, i, TokenType::LeftBracket) {
        Err(SyntaxError::UnexpectedToken)
    } else if kind_at(ts, i + 1, TokenType::RightBracket) {
        Ok((ValueModel::Object(Map::empty()), 2))
    } else {
        shift(members_at(ts, i + 1, Map::empty()), 1)
    }
}

/// The members from token `j` to the closing brace, added in order to `m`, where a later
/// member overwrites an earlier one of the same key; with the number of tokens they span.
pub open spec fn members_at(ts: Seq<TokenSpec>, j: nat, m: Map<Seq<char>, ValueModel>) -> Result<
    (ValueModel, nat),
    SyntaxError,
>
    decreases remaining(ts, j), 2nat,
{
    match string_at(ts, j) {
        Err(e) => Err(e),
        Ok(key) => if !kind_at(ts, j + 3, TokenType::Colon) {
            Err(SyntaxError::ColonExpected)
        } else {
            match value_at(ts, j + 4) {
                Err(e) => Err(e),
                Ok((v, n)) => {
                    let m2 = m.insert(key, v);
                    let k = j + 4 + n;
                    if kind_at(ts, k, TokenType::Comma) {
                        shift(members_at(ts, k + 1, m2), 5 + n)
                    } else if kind_at(ts, k, TokenType::RightBracket) {
                        Ok((ValueModel::Object(m2), 5 + n))
                    } else {
                        Err(SyntaxError::UnterminatedObject)
                    }
                },
            }
        },
    }
}

/// The array that opens at token `i`, with the number of tokens it spans.
pub open spec fn array_at(ts: Seq<TokenSpec>, i: nat) -> Result<(ValueModel, nat), SyntaxError>
    decreases remaining(ts, i), 0nat,
{
    if !kind_at(ts, i, TokenType::LeftSquareBracket) {
        Err(SyntaxError::UnexpectedToken)
    } else if kind_at(ts, i + 1, TokenType::RightSquareBracket) {
        Ok((ValueModel::Array(seq![]), 2))
    } else {
        shift(elements_at(ts, i + 1, seq![]), 1)
    }
}

/// The elements from token `j` to the closing bracket, appended to `acc`, with the number of
/// tokens they span.
pub open spec fn elements_at(ts: Seq<TokenSpec>, j: nat, acc: Seq<ValueModel>) -> Result<
    (ValueModel, nat),
    SyntaxError,
>
    decreases remaining(ts, j), 2nat,
{
    match value_at(ts, j) {
        Err(e) => Err(e),
        Ok((v, n)) => {
            let acc2 = acc.push(v);
            let k = j + n;
            if kind_at(ts, k, TokenType::Comma) {
                shift(elements_at(ts, k + 1, acc2), n + 1)
            } else if kind_at(ts, k, TokenType::RightSquareBracket) {
                Ok((ValueModel::Array(acc2), n + 1))
            } else {
                Err(SyntaxError::UnterminatedArray)
            }
        },
    }
}

/// The document that a whole token sequence denotes: exactly one value and nothing after it.
pub open spec fn tokens_value(ts: Seq<TokenSpec>) -> Result<ValueModel, SyntaxError> {
    if ts.len() == 0 {
        Err(SyntaxError::EmptyInput)
    } else {
        match value_at(ts, 0) {
            Err(e) => Err(e),
            Ok((v, n)) => if n < ts.len() {
                Err(SyntaxError::TrailingData)
            } else {
                Ok(v)
            },
        }
    }
}

/// The document that the text with bytes `b` denotes.
pub open spec fn document_value(b: Seq<u8>) -> Result<ValueModel, ParseFault> {
    match lex(b) {
        Err(f) => Err(ParseFault::Lex(f)),
        Ok(ts) => match tokens_value(ts) {
            Ok(v) => Ok(v),
            Err(e) => Err(ParseFault::Syntax(e)),
        },
    }
}

proof fn lemma_shift_shift(r: Result<(ValueModel, nat), SyntaxError>, a: nat, b: nat)
    ensures
        shift(shift(r, a), b) == shift(r, a + b),
{
}

/// The first offset at or after `j` that does not hold a digit.
fn skip_digits(w: &[u8], j: usize) -> (r: usize)
    requires
        j <= w.len(),
    ensures
        r == digits_end(w@, j as nat),
        j <= r <= w.len(),
{
    let mut k = j;
    while k < w.len() && DIGIT_ZERO <= w[k] && w[k] <= DIGIT_NINE
        invariant
            j <= k <= w@.len(),
            digits_end(w@, j as nat) == digits_end(w@, k as nat),
        decreases w@.len() - k,
    {
        k = k + 1;
    }
    k
}

/// Whether `w` is a decimal literal.
fn is_number(w: &[u8]) -> (r: bool)
    ensures
        r == is_number_literal(w@),
{
    let a = skip_digits(w, 0);
    if a == 0 {
        return false;
    }
    let b = if a < w.len() && w[a] == DOT {
        skip_digits(w, a + 1)
    } else {
        a
    };
    if b == w.len() {
        return true;
    }
    if w[b] != 0x65 && w[b] != 0x45 {
        return false;
    }
    let c = if w.len() - b > 1 && (w[b + 1] == 0x2b || w[b + 1] == 0x2d) {
        b + 2
    } else {
        b + 1
    };
    c < w.len() && skip_digits(w, c) == w.len()
}

/// The text of the quoted string at token `i`.
fn parse_string<'a>(tokens: &[Token<'a>], i: usize) -> (r: Result<String, SyntaxError>)
    requires
        i <= tokens.len(),
    ensures
        match r {
            Ok(s) => i + 2 < tokens.len() && string_at(tokens_view(tokens@), i as nat) == Ok::<
                Seq<char>,
                SyntaxError,
            >(s@),
            Err(e) => string_at(tokens_view(tokens@), i as nat) == Err::<Seq<char>, SyntaxError>(
                e,
            ),
        },
{
    if tokens.len() - i > 2 && tokens[i]._type == TokenType::Quote && tokens[i + 1]._type
        == TokenType::String && tokens[i + 2]._type == TokenType::Quote {
        Ok(text_of(tokens[i + 1].s))
    } else {
        Err(SyntaxError::InvalidString)
    }
}

/// Parses the value that begins at token `i`; returns it with the offset of the token after it.
fn parse_value<'a>(tokens: &[Token<'a>], i: usize) -> (r: Result<(Value, usize), SyntaxError>)
    requires
        i <= tokens.len(),
    ensures
        match r {
            Ok((v, e)) => i < e <= tokens.len() && v.well_formed() && value_at(
                tokens_view(tokens@),
                i as nat,
            ) == Ok::<(ValueModel, nat), SyntaxError>((v.model(), (e - i) as nat)),
            Err(err) => value_at(tokens_view(tokens@), i as nat) == Err::<
                (ValueModel, nat),
                SyntaxError,
            >(err),
        },
    decreases tokens@.len() - i, 1int,
{
    if i >= tokens.len() {
        return Err(SyntaxError::UnexpectedToken);
    }
    let t = &tokens[i];
    match t._type {
        TokenType::LeftBracket => parse_object(tokens, i),
        TokenType::LeftSquareBracket => parse_array(tokens, i),
        TokenType::Quote => match parse_string(tokens, i) {
            Ok(s) => Ok((Value::String(s), i + 3)),
            Err(e) => Err(e),
        },
        TokenType::Number => if is_number(t.s) {
            Ok((Value::Number(text_of(t.s)), i + 1))
        } else {
            Err(SyntaxError::InvalidNumber)
        },
        TokenType::Boolean => if is_true_word(t.s) {
            Ok((Value::Bool(true), i + 1))
        } else if is_false_word(t.s) {
            Ok((Value::Bool(false), i + 1))
        } else {
            Err(SyntaxError::UnexpectedToken)
        },
        TokenType::Null => if is_null_word(t.s) {
            Ok((Value::Null, i + 1))
        } else {
            Err(SyntaxError::UnexpectedToken)
        },
        _ => Err(SyntaxError::UnexpectedToken),
    }
}

/// Sets the member `key` to `v`: overwrites the entry of that key, or appends one.
fn insert_member(es: &mut Vec<(String, Value)>, key: String, v: Value)
    requires
        keys_unique(old(es)@),
        v.well_formed(),
        forall|k: int| 0 <= k < old(es)@.len() ==> (#[trigger] old(es)@[k]).1.well_formed(),
    ensures
        keys_unique(final(es)@),
        members_map(final(es)@) == members_map(old(es)@).insert(key@, v.model()),
        forall|k: int| 0 <= k < final(es)@.len() ==> (#[trigger] final(es)@[k]).1.well_formed(),
{
    let mut idx: usize = 0;
    while idx < es.len() && es[idx].0 != key
        invariant
            idx <= es@.len(),
            forall|k: int| 0 <= k < idx ==> (#[trigger] es@[k]).0@ != key@,
        decreases es@.len() - idx,
    {
        idx = idx + 1;
    }
    if idx < es.len() {
        proof {
            lemma_members_map_update(es@, idx as int, (key, v));
        }
        es.set(idx, (key, v));
    } else {
        proof {
            lemma_members_map_push(es@, (key, v));
        }
        es.push((key, v));
    }
}

/// Parses the object that opens at token `i`; returns it with the offset of the token after it.
fn parse_object<'a>(tokens: &[Token<'a>], i: usize) -> (r: Result<(Value, usize), SyntaxError>)
    requires
        i < tokens.len(),
        tokens@[i as int]._type == TokenType::LeftBracket,
    ensures
        match r {
            Ok((v, e)) => i < e <= tokens.len() && v.well_formed() && object_at(
                tokens_view(tokens@),
                i as nat,
            ) == Ok::<(ValueModel, nat), SyntaxError>((v.model(), (e - i) as nat)),
            Err(err) => object_at(tokens_view(tokens@), i as nat) == Err::<
                (ValueModel, nat),
                SyntaxError,
            >(err),
        },
    decreases tokens@.len() - i, 0int,
{
    let ghost ts = tokens_view(tokens@);
    if tokens.len() - i > 1 && tokens[i + 1]._type == TokenType::RightBracket {
        let r = Value::Object(Vec::new());
        assert(members_map(Seq::<(String, Value)>::empty()) =~= Map::empty());
        return Ok((r, i + 2));
    }
    let mut es: Vec<(String, Value)> = Vec::new();
    let mut j = i + 1;
    assert(members_map(es@) =~= Map::empty());
    loop
        invariant
            i < j <= tokens.len(),
            ts == tokens_view(tokens@),
            keys_unique(es@),
            forall|k: int| 0 <= k < es@.len() ==> (#[trigger] es@[k]).1.well_formed(),
            object_at(ts, i as nat) == shift(members_at(ts, j as nat, members_map(es@)), (j - i) as nat),
        decreases tokens@.len() - j,
    {
        let key = match parse_string(tokens, j) {
            Ok(k) => k,
            Err(e) => return Err(e),
        };
        if tokens.len() - j <= 3 || tokens[j + 3]._type != TokenType::Colon {
            return Err(SyntaxError::ColonExpected);
        }
        let (v, k) = match parse_value(tokens, j + 4) {
            Ok(p) => p,
            Err(e) => return Err(e),
        };
        let ghost before = members_map(es@);
        let ghost n = (k - (j + 4)) as nat;
        insert_member(&mut es, key, v);
        proof {
            lemma_shift_shift(members_at(ts, k as nat + 1, members_map(es@)), 5 + n, (j - i) as nat);
        }
        if k < tokens.len() && tokens[k]._type == TokenType::Comma {
            j = k + 1;
        } else if k < tokens.len() && tokens[k]._type == TokenType::RightBracket {
            return Ok((Value::Object(es), k + 1));
        } else {
            return Err(SyntaxError::UnterminatedObject);
        }
    }
}

/// Parses the array that opens at token `i`; returns it with the offset of the token after it.
fn parse_array<'a>(tokens: &[Token<'a>], i: usize) -> (r: Result<(Value, usize), SyntaxError>)
    requires
        i < tokens.len(),
        tokens@[i as int]._type == TokenType::LeftSquareBracket,
    ensures
        match r {
            Ok((v, e)) => i < e <= tokens.len() && v.well_formed() && array_at(
                tokens_view(tokens@),
                i as nat,
            ) == Ok::<(ValueModel, nat), SyntaxError>((v.model(), (e - i) as nat)),
            Err(err) => array_at(tokens_view(tokens@), i as nat) == Err::<
                (ValueModel, nat),
                SyntaxError,
            >(err),
        },
    decreases tokens@.len() - i, 0int,
{
    let ghost ts = tokens_view(tokens@);
    if tokens.len() - i > 1 && tokens[i + 1]._type == TokenType::RightSquareBracket {
        let empty: Vec<Value> = Vec::new();
        proof {
            lemma_array_model(empty);
            assert(models(empty@) =~= seq![]);
        }
        return Ok((Value::Array(empty), i + 2));
    }
    let mut vals: Vec<Value> = Vec::new();
    let mut j = i + 1;
    assert(models(vals@) =~= seq![]);
    loop
        invariant
            i < j <= tokens.len(),
            ts == tokens_view(tokens@),
            forall|k: int| 0 <= k < vals@.len() ==> (#[trigger] vals@[k]).well_formed(),
            array_at(ts, i as nat) == shift(elements_at(ts, j as nat, models(vals@)), (j - i) as nat),
        decreases tokens@.len() - j,
    {
        let (v, k) = match parse_value(tokens, j) {
            Ok(p) => p,
            Err(e) => return Err(e),
        };
        let ghost n = (k - j) as nat;
        let ghost vm = v.model();
        let ghost prev = vals@;
        vals.push(v);
        assert(models(vals@) =~= models(prev).push(vm));
        proof {
            lemma_shift_shift(elements_at(ts, k as nat + 1, models(vals@)), n + 1, (j - i) as nat);
        }
        if k < tokens.len() && tokens[k]._type == TokenType::Comma {
            j = k + 1;
        } else if k < tokens.len() && tokens[k]._type == TokenType::RightSquareBracket {
            proof {
                lemma_array_model(vals);
            }
            return Ok((Value::Array(vals), k + 1));
        } else {
            return Err(SyntaxError::UnterminatedArray);
        }
    }
}

/// Decodes a whole token sequence: exactly one value, with no token after it.
pub fn parse_tokens<'a>(tokens: &[Token<'a>]) -> (r: Result<Value, SyntaxError>)
    ensures
        match r {
            Ok(v) => v.well_formed() && tokens_value(tokens_view(tokens@)) == Ok::<
                ValueModel,
                SyntaxError,
            >(v.model()),
            Err(e) => tokens_value(tokens_view(tokens@)) == Err::<ValueModel, SyntaxError>(e),
        },
{
    if tokens.len() == 0 {
        return Err(SyntaxError::EmptyInput);
    }
    let (v, e) = match parse_value(tokens, 0) {
        Ok(p) => p,
        Err(err) => return Err(err),
    };
    if e < tokens.len() {
        return Err(SyntaxError::TrailingData);
    }
    Ok(v)
}

/// Decodes the document `s`: splits it into tokens, then parses exactly one value from them.
pub fn parse(s: &str) -> (r: Result<Value, ParseError>)
    ensures
        match r {
            Ok(v) => v.well_formed() && document_value(s.spec_bytes()) == Ok::<
                ValueModel,
                ParseFault,
            >(v.model()),
            Err(e) => document_value(s.spec_bytes()) == Err::<ValueModel, ParseFault>(e@),
        },
{
    let tokens = match generate_tokens(s) {
        Ok(t) => t,
        Err(e) => return Err(ParseError::Lex(e)),
    };
    match parse_tokens(tokens.as_slice()) {
        Ok(v) => Ok(v),
        Err(e) => Err(ParseError::Syntax(e)),
    }
}

} // verus!
