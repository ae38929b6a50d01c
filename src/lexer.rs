use crate::text::{lossy_text, text_of};
use vstd::prelude::*;
use vstd::slice::slice_subrange;
use vstd::string::StringSliceAdditionalSpecFns;

verus! {

/// The kind of a token.
#[derive(PartialEq, Eq, Structural, Debug, Clone, Copy)]
pub enum TokenType {
    Null,
    Number,
    String,
    Quote,
    Boolean,
    LeftBracket,
    RightBracket,
    LeftSquareBracket,
    RightSquareBracket,
    Colon,
    Comma,
}

/// A token: the bytes it covers, borrowed from the input, and the offset where it begins.
#[derive(PartialEq, Debug)]
pub struct Token<'a> {
    pub s: &'a [u8],
    pub start: usize,
    pub _type: TokenType,
}

/// What a token stands for: its kind, its offset and the bytes it covers.
pub struct TokenSpec {
    pub kind: TokenType,
    pub start: int,
    pub text: Seq<u8>,
}

impl<'a> View for Token<'a> {
    type V = TokenSpec;

    open spec fn view(&self) -> TokenSpec {
        TokenSpec { kind: self._type, start: self.start as int, text: self.s@ }
    }
}

/// Why the input could not be split into tokens.
#[derive(PartialEq, Debug)]
pub enum LexError {
    /// A bare word that is neither a number nor a keyword: its offset and its text.
    UnsupportedToken(usize, String),
    /// A quote that is never closed: the offset of the opening quote.
    UnterminatedString(usize),
}

/// The model of a `LexError`.
pub enum LexFault {
    UnsupportedToken(int, Seq<char>),
    UnterminatedString(int),
}

impl View for LexError {
    type V = LexFault;

    open spec fn view(&self) -> LexFault {
        match self {
            LexError::UnsupportedToken(i, t) => LexFault::UnsupportedToken(*i as int, t@),
            LexError::UnterminatedString(i) => LexFault::UnterminatedString(*i as int),
        }
    }
}

pub const QUOTE: u8 = 0x22;
pub const LEFT_BRACE: u8 = 0x7b;
pub const RIGHT_BRACE: u8 = 0x7d;
pub const LEFT_SQUARE: u8 = 0x5b;
pub const RIGHT_SQUARE: u8 = 0x5d;
pub const COLON: u8 = 0x3a;
pub const COMMA: u8 = 0x2c;
pub const SPACE: u8 = 0x20;
pub const TAB: u8 = 0x09;
pub const LINE_FEED: u8 = 0x0a;
pub const CARRIAGE_RETURN: u8 = 0x0d;
pub const DIGIT_ZERO: u8 = 0x30;
pub const DIGIT_NINE: u8 = 0x39;

/// The word `null`.
pub open spec fn null_word() -> Seq<u8> {
    seq![0x6eu8, 0x75u8, 0x6cu8, 0x6cu8]
}

/// The word `true`.
pub open spec fn true_word() -> Seq<u8> {
    seq![0x74u8, 0x72u8, 0x75u8, 0x65u8]
}

/// The word `false`.
pub open spec fn false_word() -> Seq<u8> {
    seq![0x66u8, 0x61u8, 0x6cu8, 0x73u8, 0x65u8]
}

pub open spec fn is_delimiter(c: u8) -> bool {
    c == LEFT_BRACE || c == RIGHT_BRACE || c == LEFT_SQUARE || c == RIGHT_SQUARE || c == COLON || c == COMMA
}

pub open spec fn is_whitespace(c: u8) -> bool {
    c == SPACE || c == TAB || c == LINE_FEED || c == CARRIAGE_RETURN
}

/// A byte at which a bare word stops.
pub open spec fn ends_word(c: u8) -> bool {
    is_whitespace(c) || is_delimiter(c) || c == QUOTE
}

pub open spec fn delimiter_kind(c: u8) -> TokenType {
    if c == LEFT_BRACE {
        TokenType::LeftBracket
    } else if c == RIGHT_BRACE {
        TokenType::RightBracket
    } else if c == LEFT_SQUARE {
        TokenType::LeftSquareBracket
    } else if c == RIGHT_SQUARE {
        TokenType::RightSquareBracket
    } else if c == COLON {
        TokenType::Colon
    } else {
        TokenType::Comma
    }
}

/// The first offset at or after `j` that holds a quote, or the length of `b` if none does.
pub open spec fn quote_end(b: Seq<u8>, j: nat) -> nat
    decreases b.len() - j,
{
    if j >= b.len() {
        b.len()
    } else if b[j as int] == QUOTE {
        j
    } else {
        quote_end(b, j + 1)
    }
}

/// The first offset at or after `j` at which a bare word stops, or the length of `b`.
pub open spec fn word_end(b: Seq<u8>, j: nat) -> nat
    decreases b.len() - j,
{
    if j >= b.len() {
        b.len()
    } else if ends_word(b[j as int]) {
        j
    } else {
        word_end(b, j + 1)
    }
}

pub open spec fn is_digit(c: u8) -> bool {
    DIGIT_ZERO <= c <= DIGIT_NINE
}

/// The kind of a bare word: a number if it begins with a digit, else one of the keywords.
pub open spec fn word_kind(w: Seq<u8>) -> Option<TokenType> {
    if w.len() > 0 && is_digit(w[0]) {
        Some(TokenType::Number)
    } else if w == null_word() {
        Some(TokenType::Null)
    } else if w == true_word() || w == false_word() {
        Some(TokenType::Boolean)
    } else {
        None
    }
}

pub open spec fn span(kind: TokenType, b: Seq<u8>, lo: nat, hi: nat) -> TokenSpec {
    TokenSpec { kind, start: lo as int, text: b.subrange(lo as int, hi as int) }
}

pub open spec fn prepend(done: Seq<TokenSpec>, r: Result<Seq<TokenSpec>, LexFault>) -> Result<
    Seq<TokenSpec>,
    LexFault,
> {
    match r {
        Ok(rest) => Ok(done + rest),
        Err(e) => Err(e),
    }
}

pub proof fn lemma_quote_end(b: Seq<u8>, j: nat)
    ensures
        j <= b.len() ==> j <= quote_end(b, j) <= b.len(),
        quote_end(b, j) < b.len() ==> b[quote_end(b, j) as int] == QUOTE,
        forall|k: int| j <= k < quote_end(b, j) ==> b[k] != QUOTE,
    decreases b.len() - j,
{
    if j < b.len() && b[j as int] != QUOTE {
        lemma_quote_end(b, j + 1);
    }
}

pub proof fn lemma_word_end(b: Seq<u8>, j: nat)
    ensures
        j <= b.len() ==> j <= word_end(b, j) <= b.len(),
        word_end(b, j) < b.len() ==> ends_word(b[word_end(b, j) as int]),
        forall|k: int| j <= k < word_end(b, j) ==> !ends_word(b[k]),
    decreases b.len() - j,
{
    if j < b.len() && !ends_word(b[j as int]) {
        lemma_word_end(b, j + 1);
    }
}

/// The tokens of `b` from offset `i` on, in order, or the first lexical fault.
pub open spec fn lex_from(b: Seq<u8>, i: nat) -> Result<Seq<TokenSpec>, LexFault>
    decreases b.len() - i,
{
    if i >= b.len() {
        Ok(seq![])
    } else {
        let c = b[i as int];
        if c == QUOTE {
            let j = quote_end(b, i + 1);
            if j >= b.len() {
                Err(LexFault::UnterminatedString(i as int))
            } else {
                proof {
                    lemma_quote_end(b, i + 1);
                }
                prepend(
                    seq![
                        span(TokenType::Quote, b, i, i + 1),
                        span(TokenType::String, b, i + 1, j),
                        span(TokenType::Quote, b, j, j + 1),
                    ],
                    lex_from(b, j + 1),
                )
            }
        } else if is_delimiter(c) {
            prepend(seq![span(delimiter_kind(c), b, i, i + 1)], lex_from(b, i + 1))
        } else if is_whitespace(c) {
            lex_from(b, i + 1)
        } else {
            let j = word_end(b, i);
            proof {
                lemma_word_end(b, i);
            }
            match word_kind(b.subrange(i as int, j as int)) {
                Some(k) => prepend(seq![span(k, b, i, j)], lex_from(b, j)),
                None => Err(
                    LexFault::UnsupportedToken(i as int, lossy_text(b.subrange(i as int, j as int))),
                ),
            }
        }
    }
}

/// The tokens of the whole input `b`, or the first lexical fault.
pub open spec fn lex(b: Seq<u8>) -> Result<Seq<TokenSpec>, LexFault> {
    lex_from(b, 0)
}

pub open spec fn tokens_view<'a>(v: Seq<Token<'a>>) -> Seq<TokenSpec> {
    v.map_values(|t: Token<'a>| t@)
}

pub open spec fn all_whitespace(b: Seq<u8>, lo: int, hi: int) -> bool {
    forall|k: int| lo <= k < hi ==> is_whitespace(#[trigger] b[k])
}

/// Walking `b` from offset `pos`, the tokens `ts` account for every byte: each token's text
/// is exactly the bytes of its span, spans follow one another in order without overlap,
/// and the bytes skipped before, between and after them are whitespace.
pub open spec fn rebuilds(ts: Seq<TokenSpec>, b: Seq<u8>, pos: int) -> bool
    decreases ts.len(),
{
    if ts.len() == 0 {
        0 <= pos <= b.len() && all_whitespace(b, pos, b.len() as int)
    } else {
        let t = ts[0];
        let end = t.start + t.text.len();
        &&& 0 <= pos <= t.start
        &&& end <= b.len()
        &&& all_whitespace(b, pos, t.start)
        &&& t.text == b.subrange(t.start, end)
        &&& rebuilds(ts.drop_first(), b, end)
    }
}

proof fn lemma_rebuilds_after_whitespace(ts: Seq<TokenSpec>, b: Seq<u8>, pos: int)
    requires
        0 <= pos < b.len(),
        is_whitespace(b[pos]),
        rebuilds(ts, b, pos + 1),
    ensures
        rebuilds(ts, b, pos),
{
}

proof fn lemma_rebuilds_token(t: TokenSpec, rest: Seq<TokenSpec>, b: Seq<u8>, pos: int)
    requires
        0 <= pos <= t.start,
        t.start + t.text.len() <= b.len(),
        all_whitespace(b, pos, t.start),
        t.text == b.subrange(t.start, t.start + t.text.len()),
        rebuilds(rest, b, t.start + t.text.len()),
    ensures
        rebuilds(seq![t] + rest, b, pos),
{
    assert((seq![t] + rest).drop_first() =~= rest);
}

proof fn lemma_lex_from_rebuilds(b: Seq<u8>, i: nat)
    requires
        i <= b.len(),
        lex_from(b, i) is Ok,
    ensures
        rebuilds(lex_from(b, i)->Ok_0, b, i as int),
    decreases b.len() - i,
{
    if i < b.len() {
        let c = b[i as int];
        if c == QUOTE {
            let j = quote_end(b, i + 1);
            lemma_quote_end(b, i + 1);
            let rest = lex_from(b, j + 1)->Ok_0;
            lemma_lex_from_rebuilds(b, j + 1);
            let q0 = span(TokenType::Quote, b, i, i + 1);
            let st = span(TokenType::String, b, i + 1, j);
            let q1 = span(TokenType::Quote, b, j, j + 1);
            lemma_rebuilds_token(q1, rest, b, j as int);
            lemma_rebuilds_token(st, seq![q1] + rest, b, i + 1int);
            lemma_rebuilds_token(q0, seq![st] + (seq![q1] + rest), b, i as int);
            assert(seq![q0, st, q1] + rest =~= seq![q0] + (seq![st] + (seq![q1] + rest)));
        } else if is_delimiter(c) {
            lemma_lex_from_rebuilds(b, i + 1);
            lemma_rebuilds_token(span(delimiter_kind(c), b, i, i + 1), lex_from(b, i + 1)->Ok_0, b, i as int);
        } else if is_whitespace(c) {
            lemma_lex_from_rebuilds(b, i + 1);
            lemma_rebuilds_after_whitespace(lex_from(b, i)->Ok_0, b, i as int);
        } else {
            let j = word_end(b, i);
            lemma_word_end(b, i);
            lemma_lex_from_rebuilds(b, j);
            let k = word_kind(b.subrange(i as int, j as int))->0;
            lemma_rebuilds_token(span(k, b, i, j), lex_from(b, j)->Ok_0, b, i as int);
        }
    }
}

/// Joining the spans of all the tokens of `b`, with the whitespace skipped between them,
/// gives back `b` exactly.
pub proof fn lemma_tokens_rebuild_input(b: Seq<u8>)
    requires
        lex(b) is Ok,
    ensures
        rebuilds(lex(b)->Ok_0, b, 0),
{
    lemma_lex_from_rebuilds(b, 0);
}

proof fn lemma_prepend(done: Seq<TokenSpec>, chunk: Seq<TokenSpec>, r: Result<Seq<TokenSpec>, LexFault>)
    ensures
        prepend(done, prepend(chunk, r)) == prepend(done + chunk, r),
{
    if let Ok(rest) = r {
        assert(done + (chunk + rest) =~= (done + chunk) + rest);
    }
}

/// Whether `w` is the word `null`.
pub(crate) fn is_null_word(w: &[u8]) -> (r: bool)
    ensures
        r == (w@ == null_word()),
{
    let r = w.len() == 4 && w[0] == 0x6e && w[1] == 0x75 && w[2] == 0x6c && w[3] == 0x6c;
    if r {
        assert(w@ =~= null_word());
    }
    r
}

/// Whether `w` is the word `true`.
pub(crate) fn is_true_word(w: &[u8]) -> (r: bool)
    ensures
        r == (w@ == true_word()),
{
    let r = w.len() == 4 && w[0] == 0x74 && w[1] == 0x72 && w[2] == 0x75 && w[3] == 0x65;
    if r {
        assert(w@ =~= true_word());
    }
    r
}

/// Whether `w` is the word `false`.
pub(crate) fn is_false_word(w: &[u8]) -> (r: bool)
    ensures
        r == (w@ == false_word()),
{
    let r = w.len() == 5 && w[0] == 0x66 && w[1] == 0x61 && w[2] == 0x6c && w[3] == 0x73 && w[4]
        == 0x65;
    if r {
        assert(w@ =~= false_word());
    }
    r
}

fn is_delimiters(c: u8) -> (r: bool)
    ensures
        r == is_delimiter(c),
{
    c == LEFT_BRACE || c == RIGHT_BRACE || c == LEFT_SQUARE || c == RIGHT_SQUARE || c == COLON
        || c == COMMA
}

fn is_space(c: u8) -> (r: bool)
    ensures
        r == is_whitespace(c),
{
    c == SPACE || c == TAB || c == LINE_FEED || c == CARRIAGE_RETURN
}

fn is_word_end(c: u8) -> (r: bool)
    ensures
        r == ends_word(c),
{
    c == QUOTE || is_delimiters(c) || is_space(c)
}

fn get_token_type(b: u8) -> (r: TokenType)
    requires
        is_delimiter(b),
    ensures
        r == delimiter_kind(b),
{
    if b == LEFT_BRACE {
        TokenType::LeftBracket
    } else if b == RIGHT_BRACE {
        TokenType::RightBracket
    } else if b == LEFT_SQUARE {
        TokenType::LeftSquareBracket
    } else if b == RIGHT_SQUARE {
        TokenType::RightSquareBracket
    } else if b == COLON {
        TokenType::Colon
    } else {
        TokenType::Comma
    }
}

/// Appends the token of kind `kind` that covers `bytes[lo..hi]`.
fn push_token<'a>(bytes: &'a [u8], lo: usize, hi: usize, kind: TokenType, tokens: &mut Vec<Token<'a>>)
    requires
        lo <= hi <= bytes@.len(),
    ensures
        tokens_view(final(tokens)@) == tokens_view(old(tokens)@) + seq![
            span(kind, bytes@, lo as nat, hi as nat),
        ],
{
    tokens.push(Token { s: slice_subrange(bytes, lo, hi), start: lo, _type: kind });
    assert(tokens_view(tokens@) =~= tokens_view(old(tokens)@) + seq![
        span(kind, bytes@, lo as nat, hi as nat),
    ]);
}

/// Appends the one-byte token of the delimiter at `start` and returns the next offset.
fn add_delimiter_token<'a>(bytes: &'a [u8], start: usize, tokens: &mut Vec<Token<'a>>) -> (r: usize)
    requires
        start < bytes.len(),
        is_delimiter(bytes@[start as int]),
    ensures
        r == start + 1,
        tokens_view(final(tokens)@) == tokens_view(old(tokens)@) + seq![
            span(delimiter_kind(bytes@[start as int]), bytes@, start as nat, r as nat),
        ],
{
    let kind = get_token_type(bytes[start]);
    push_token(bytes, start, start + 1, kind, tokens);
    start + 1
}

/// Appends the token of the quote at `start` and returns the next offset.
fn add_quote_token<'a>(bytes: &'a [u8], start: usize, tokens: &mut Vec<Token<'a>>) -> (r: usize)
    requires
        start < bytes.len(),
        bytes@[start as int] == QUOTE,
    ensures
        r == start + 1,
        tokens_view(final(tokens)@) == tokens_view(old(tokens)@) + seq![
            span(TokenType::Quote, bytes@, start as nat, r as nat),
        ],
{
    push_token(bytes, start, start + 1, TokenType::Quote, tokens);
    start + 1
}

/// The offset of the first quote at or after `start`, or the length of `bytes`.
fn get_string_in_quote(bytes: &[u8], start: usize) -> (r: usize)
    requires
        start <= bytes.len(),
    ensures
        r == quote_end(bytes@, start as nat),
{
    let mut j = start;
    while j < bytes.len() && bytes[j] != QUOTE
        invariant
            start <= j <= bytes@.len(),
            quote_end(bytes@, start as nat) == quote_end(bytes@, j as nat),
        decreases bytes@.len() - j,
    {
        j = j + 1;
    }
    j
}

/// The offset at which the bare word that begins at `start` stops.
fn scan_word(bytes: &[u8], start: usize) -> (r: usize)
    requires
        start <= bytes@.len(),
    ensures
        r == word_end(bytes@, start as nat),
{
    let mut j = start;
    while j < bytes.len() && !is_word_end(bytes[j])
        invariant
            start <= j <= bytes@.len(),
            word_end(bytes@, start as nat) == word_end(bytes@, j as nat),
        decreases bytes@.len() - j,
    {
        j = j + 1;
    }
    j
}

/// Appends the three tokens of the quoted string that opens at `start`, and returns the
/// offset after its closing quote; fails where no closing quote follows.
fn add_quoted_string<'a>(bytes: &'a [u8], start: usize, tokens: &mut Vec<Token<'a>>) -> (r: Result<
    usize,
    LexError,
>)
    requires
        start < bytes.len(),
        bytes@[start as int] == QUOTE,
    ensures
        ({
            let b = bytes@;
            let j = quote_end(b, start as nat + 1);
            match r {
                Ok(next) => j < b.len() && next == j + 1 && start < next <= b.len() && tokens_view(final(tokens)@)
                    == tokens_view(old(tokens)@) + seq![
                    span(TokenType::Quote, b, start as nat, start as nat + 1),
                    span(TokenType::String, b, start as nat + 1, j),
                    span(TokenType::Quote, b, j, j + 1),
                ],
                Err(e) => j >= b.len() && e == LexError::UnterminatedString(start),
            }
        }),
{
    let end = get_string_in_quote(bytes, start + 1);
    proof {
        lemma_quote_end(bytes@, start as nat + 1);
    }
    if end >= bytes.len() {
        return Err(LexError::UnterminatedString(start));
    }
    let next = add_quote_token(bytes, start, tokens);
    push_token(bytes, next, end, TokenType::String, tokens);
    let r = add_quote_token(bytes, end, tokens);
    assert(tokens_view(tokens@) =~= tokens_view(old(tokens)@) + seq![
        span(TokenType::Quote, bytes@, start as nat, start as nat + 1),
        span(TokenType::String, bytes@, start as nat + 1, end as nat),
        span(TokenType::Quote, bytes@, end as nat, end as nat + 1),
    ]);
    Ok(r)
}

/// Appends the token of the bare word that begins at `start` and returns the offset where
/// it stops; fails where the word is neither a number nor a keyword.
fn add_keyword_or_number<'a>(bytes: &'a [u8], start: usize, tokens: &mut Vec<Token<'a>>) -> (r:
    Result<usize, LexError>)
    requires
        start < bytes.len(),
        !ends_word(bytes@[start as int]),
    ensures
        ({
            let b = bytes@;
            let j = word_end(b, start as nat);
            let w = b.subrange(start as int, j as int);
            match r {
                Ok(next) => next == j && start < next <= b.len() && word_kind(w) is Some && tokens_view(final(tokens)@)
                    == tokens_view(old(tokens)@) + seq![span(word_kind(w)->0, b, start as nat, j)],
                Err(e) => word_kind(w) is None && e@ == LexFault::UnsupportedToken(
                    start as int,
                    lossy_text(w),
                ),
            }
        }),
{
    let end = scan_word(bytes, start);
    proof {
        lemma_word_end(bytes@, start as nat);
    }
    let w = slice_subrange(bytes, start, end);
    let c = bytes[start];
    let kind = if DIGIT_ZERO <= c && c <= DIGIT_NINE {
        TokenType::Number
    } else if is_null_word(w) {
        TokenType::Null
    } else if is_true_word(w) || is_false_word(w) {
        TokenType::Boolean
    } else {
        return Err(LexError::UnsupportedToken(start, text_of(w)));
    };
    push_token(bytes, start, end, kind, tokens);
    Ok(end)
}

/// Splits `s` into tokens, in order, each with the offset of its first byte.
/// Whitespace between tokens is skipped. Fails on a bare word that is neither a number
/// nor a keyword, and on a quote that is never closed.
pub fn generate_tokens(s: &str) -> (r: Result<Vec<Token<'_>>, LexError>)
    ensures
        match r {
            Ok(v) => lex(s.spec_bytes()) == Ok::<Seq<TokenSpec>, LexFault>(tokens_view(v@)),
            Err(e) => lex(s.spec_bytes()) == Err::<Seq<TokenSpec>, LexFault>(e@),
        },
{
    let bytes = s.as_bytes();
    let mut tokens: Vec<Token<'_>> = Vec::new();
    let mut i: usize = 0;
    assert(tokens_view(tokens@) =~= Seq::<TokenSpec>::empty());
    assert(prepend(Seq::empty(), lex_from(bytes@, 0)) == lex_from(bytes@, 0)) by {
        if let Ok(rest) = lex_from(bytes@, 0) {
            assert(Seq::<TokenSpec>::empty() + rest =~= rest);
        }
    }
    while i < bytes.len()
        invariant
            i <= bytes@.len(),
            bytes@ == s.spec_bytes(),
            lex(bytes@) == prepend(tokens_view(tokens@), lex_from(bytes@, i as nat)),
        decreases bytes@.len() - i,
    {
        let ghost done = tokens_view(tokens@);
        let c = bytes[i];
        if c == QUOTE {
            match add_quoted_string(bytes, i, &mut tokens) {
                Ok(j) => {
                    proof {
                        let q = quote_end(bytes@, i as nat + 1);
                        lemma_prepend(
                            done,
                            seq![
                                span(TokenType::Quote, bytes@, i as nat, i as nat + 1),
                                span(TokenType::String, bytes@, i as nat + 1, q),
                                span(TokenType::Quote, bytes@, q, q + 1),
                            ],
                            lex_from(bytes@, j as nat),
                        );
                    }
                    i = j;
                },
                Err(e) => {
                    return Err(e);
                },
            }
        } else if is_delimiters(c) {
            let j = add_delimiter_token(bytes, i, &mut tokens);
            proof {
                lemma_prepend(done, seq![span(delimiter_kind(c), bytes@, i as nat, j as nat)], lex_from(bytes@, j as nat));
            }
            i = j;
        } else if is_space(c) {
            i = i + 1;
        } else {
            match add_keyword_or_number(bytes, i, &mut tokens) {
                Ok(j) => {
                    proof {
                        let w = bytes@.subrange(i as int, j as int);
                        lemma_prepend(done, seq![span(word_kind(w)->0, bytes@, i as nat, j as nat)], lex_from(bytes@, j as nat));
                    }
                    i = j;
                },
                Err(e) => {
                    return Err(e);
                },
            }
        }
    }
    assert(tokens_view(tokens@) + Seq::<TokenSpec>::empty() =~= tokens_view(tokens@));
    Ok(tokens)
}

} // verus!
