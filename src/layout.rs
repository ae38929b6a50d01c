//! How a document is written out as text, and the law that such text decodes to it.
use crate::grammar::{
    denote, element_parts, join_from, lemma_documents_decode, matches_at, member_parts,
    member_tokens, quoted, render, single, valid_doc, Doc, Tok,
};
use crate::lexer::{
    delimiter_kind, ends_word, false_word, is_delimiter, is_digit, is_whitespace, lex, lex_from,
    null_word,
    quote_end, span, true_word, word_end, word_kind, LexFault, TokenSpec, TokenType, COLON,
    COMMA, LEFT_BRACE, LEFT_SQUARE, QUOTE, RIGHT_BRACE, RIGHT_SQUARE,
};
use crate::parser::{digits_end, document_value, is_number_literal, is_sign, ParseFault, DOT};
use crate::value::ValueModel;
use vstd::prelude::*;

verus! {

/// A quoted string: quote, text, quote.
pub open spec fn quoted_text(t: Seq<u8>) -> Seq<u8> {
    seq![QUOTE] + (t + seq![QUOTE])
}

pub open spec fn quote_free(t: Seq<u8>) -> bool {
    forall|k: int| 0 <= k < t.len() ==> t[k] != QUOTE
}

/// A document that text can write out: its numbers are decimal literals, and no string or
/// key holds a quote.
pub open spec fn writable_doc(d: Doc) -> bool
    decreases d,
{
    match d {
        Doc::Number(w) => is_number_literal(w),
        Doc::Str(t) => quote_free(t),
        Doc::Array(ds) => forall|x: int| 0 <= x < ds.len() ==> writable_doc(#[trigger] ds[x]),
        Doc::Object(ms) => forall|x: int|
            0 <= x < ms.len() ==> quote_free((#[trigger] ms[x]).0) && writable_doc(ms[x].1),
        _ => true,
    }
}

/// `b` holds `t` at offset `i`.
pub open spec fn text_at(b: Seq<u8>, i: nat, t: Seq<u8>) -> bool {
    i + t.len() <= b.len() && b.subrange(i as int, (i + t.len()) as int) == t
}

/// A bare word that ends at offset `j` of `b` ends there.
pub open spec fn boundary(b: Seq<u8>, j: nat) -> bool {
    j == b.len() || (j < b.len() && ends_word(b[j as int]))
}

/// Where the tokens of `b` from `j` on exist, those from `i` on are the tokens `r`
/// followed by them.
pub open spec fn lexes_as(b: Seq<u8>, i: nat, j: nat, r: Seq<Tok>) -> bool {
    lex_from(b, j) is Ok ==> {
        let rest = lex_from(b, j)->Ok_0;
        let all = lex_from(b, i)->Ok_0;
        &&& lex_from(b, i) is Ok
        &&& all.len() == r.len() + rest.len()
        &&& matches_at(r, all, 0)
        &&& all.subrange(r.len() as int, all.len() as int) == rest
    }
}

pub open spec fn is_word_kind(k: TokenType) -> bool {
    k == TokenType::Null || k == TokenType::Boolean || k == TokenType::Number
}

pub open spec fn is_delimiter_kind(k: TokenType) -> bool {
    k == TokenType::LeftBracket || k == TokenType::RightBracket || k
        == TokenType::LeftSquareBracket || k == TokenType::RightSquareBracket || k
        == TokenType::Colon || k == TokenType::Comma
}

pub open spec fn no_word_end(w: Seq<u8>) -> bool {
    forall|x: int| 0 <= x < w.len() ==> !ends_word(#[trigger] w[x])
}

/// The tokens of `r` from index `k` on are tokens that the lexer produces, in an order it can
/// produce them: a delimiter written as its byte; a quoted string as a quote, text without a
/// quote, and a quote; a bare word that is a number or a keyword, never followed by another.
pub open spec fn lexical_from(r: Seq<Tok>, k: nat) -> bool
    decreases r.len() - k,
{
    if k >= r.len() {
        true
    } else {
        let t = r[k as int];
        if t.0 == TokenType::Quote {
            &&& k + 2 < r.len()
            &&& t.1 == seq![QUOTE]
            &&& r[k + 1int].0 == TokenType::String
            &&& quote_free(r[k + 1int].1)
            &&& r[k + 2int] == (TokenType::Quote, seq![QUOTE])
            &&& lexical_from(r, k + 3)
        } else if is_delimiter_kind(t.0) {
            &&& t.1.len() == 1
            &&& is_delimiter(t.1[0])
            &&& delimiter_kind(t.1[0]) == t.0
            &&& lexical_from(r, k + 1)
        } else if is_word_kind(t.0) {
            &&& t.1.len() > 0
            &&& no_word_end(t.1)
            &&& word_kind(t.1) == Some(t.0)
            &&& (k + 1 == r.len() || !is_word_kind(r[k + 1int].0))
            &&& lexical_from(r, k + 1)
        } else {
            false
        }
    }
}

pub open spec fn whitespace_only(g: Seq<u8>) -> bool {
    forall|x: int| 0 <= x < g.len() ==> is_whitespace(#[trigger] g[x])
}

/// The text that writes the tokens of `r` from index `k` on, with the whitespace `gaps[x]`
/// before token `x` and `gaps[r.len()]` after the last; a quoted string is written whole,
/// with no gap inside it.
pub open spec fn layout_from(r: Seq<Tok>, gaps: Seq<Seq<u8>>, k: nat) -> Seq<u8>
    decreases r.len() - k,
{
    if k >= r.len() {
        gaps[r.len() as int]
    } else if r[k as int].0 == TokenType::Quote && k + 2 < r.len() {
        gaps[k as int] + (quoted_text(r[k + 1int].1) + layout_from(r, gaps, k + 3))
    } else {
        gaps[k as int] + (r[k as int].1 + layout_from(r, gaps, k + 1))
    }
}

proof fn lemma_lex_whitespace(b: Seq<u8>, i: nat, g: Seq<u8>)
    requires
        text_at(b, i, g),
        whitespace_only(g),
    ensures
        lexes_as(b, i, i + g.len(), seq![]),
    decreases g.len(),
{
    if g.len() > 0 {
        assert(b[i as int] == g[0]);
        let g1 = g.subrange(1, g.len() as int);
        assert(g.subrange(0, 1) + g1 =~= g);
        lemma_text_split(b, i, g.subrange(0, 1), g1);
        assert forall|x: int| 0 <= x < g1.len() implies is_whitespace(#[trigger] g1[x]) by {
            assert(g1[x] == g[x + 1]);
        }
        lemma_lex_whitespace(b, i + 1, g1);
    }
    if lex_from(b, i + g.len()) is Ok {
        let all = lex_from(b, i)->Ok_0;
        assert(all.subrange(0, all.len() as int) =~= all);
    }
}

/// A layout whose next token is no bare word begins, if at all, with a byte at which a word
/// stops.
proof fn lemma_layout_start(r: Seq<Tok>, gaps: Seq<Seq<u8>>, k: nat)
    requires
        lexical_from(r, k),
        gaps.len() == r.len() + 1,
        forall|x: int| 0 <= x < gaps.len() ==> whitespace_only(#[trigger] gaps[x]),
        k < r.len() ==> !is_word_kind(r[k as int].0),
    ensures
        layout_from(r, gaps, k).len() > 0 ==> ends_word(layout_from(r, gaps, k)[0]),
{
    let l = layout_from(r, gaps, k);
    let g = if k >= r.len() {
        gaps[r.len() as int]
    } else {
        gaps[k as int]
    };
    assert(whitespace_only(g));
    if g.len() > 0 {
        assert(is_whitespace(g[0]));
        if k < r.len() {
            if r[k as int].0 == TokenType::Quote && k + 2 < r.len() {
                assert(l[0] == g[0]);
            } else {
                assert(l[0] == g[0]);
            }
        }
    } else if k < r.len() {
        if r[k as int].0 == TokenType::Quote {
            assert(l[0] == quoted_text(r[k + 1int].1)[0]);
        } else {
            assert(l[0] == r[k as int].1[0]);
        }
    }
}

/// A layout of lexical tokens that runs to the end of `b` splits into exactly those tokens.
proof fn lemma_lex_layout(r: Seq<Tok>, gaps: Seq<Seq<u8>>, k: nat, b: Seq<u8>, i: nat)
    requires
        lexical_from(r, k),
        k <= r.len(),
        gaps.len() == r.len() + 1,
        forall|x: int| 0 <= x < gaps.len() ==> whitespace_only(#[trigger] gaps[x]),
        text_at(b, i, layout_from(r, gaps, k)),
        i + layout_from(r, gaps, k).len() == b.len(),
    ensures
        lexes_as(b, i, b.len(), r.subrange(k as int, r.len() as int)),
    decreases r.len() - k,
{
    let l = layout_from(r, gaps, k);
    if k >= r.len() {
        lemma_lex_whitespace(b, i, gaps[r.len() as int]);
        assert(r.subrange(k as int, r.len() as int) =~= seq![]);
    } else {
        let g = gaps[k as int];
        assert(whitespace_only(g));
        let t = r[k as int];
        let e = i + g.len();
        if t.0 == TokenType::Quote {
            let q = quoted_text(r[k + 1int].1);
            let rest = layout_from(r, gaps, k + 3);
            lemma_text_split(b, i, g, q + rest);
            lemma_text_split(b, e, q, rest);
            lemma_lex_whitespace(b, i, g);
            lemma_lex_quoted(b, e, r[k + 1int].1);
            lemma_lex_layout(r, gaps, k + 3, b, e + q.len());
            let tail = r.subrange(k + 3int, r.len() as int);
            lemma_lexes_compose(b, e, e + q.len(), b.len(), quoted(r[k + 1int].1), tail);
            lemma_lexes_compose(b, i, e, b.len(), seq![], quoted(r[k + 1int].1) + tail);
            assert(seq![] + (quoted(r[k + 1int].1) + tail) =~= r.subrange(k as int, r.len() as int));
        } else {
            let rest = layout_from(r, gaps, k + 1);
            lemma_text_split(b, i, g, t.1 + rest);
            lemma_text_split(b, e, t.1, rest);
            lemma_lex_whitespace(b, i, g);
            assert(b[e as int] == t.1[0]) by {
                assert(b.subrange(e as int, (e + t.1.len()) as int)[0] == b[e as int]);
            }
            let one = seq![t];
            if is_delimiter_kind(t.0) {
                assert(t.1 =~= seq![t.1[0]]);
                lemma_lex_delimiter(b, e);
                assert(single(delimiter_kind(t.1[0]), t.1[0]) =~= one);
            } else {
                let f = e + t.1.len();
                lemma_layout_start(r, gaps, k + 1);
                assert(boundary(b, f)) by {
                    if f < b.len() {
                        assert(b[f as int] == rest[0]) by {
                            assert(b.subrange(f as int, (f + rest.len()) as int)[0] == b[f as int]);
                        }
                    }
                }
                lemma_lex_word(b, e, t.1);
                assert(seq![(word_kind(t.1)->0, t.1)] =~= one);
            }
            lemma_lex_layout(r, gaps, k + 1, b, e + t.1.len());
            let tail = r.subrange(k + 1int, r.len() as int);
            lemma_lexes_compose(b, e, e + t.1.len(), b.len(), one, tail);
            lemma_lexes_compose(b, i, e, b.len(), seq![], one + tail);
            assert(seq![] + (one + tail) =~= r.subrange(k as int, r.len() as int));
        }
    }
}

proof fn lemma_text_split(b: Seq<u8>, i: nat, x: Seq<u8>, y: Seq<u8>)
    requires
        text_at(b, i, x + y),
    ensures
        text_at(b, i, x),
        text_at(b, i + x.len(), y),
{
    assert(b.subrange(i as int, (i + x.len()) as int) =~= (x + y).subrange(0, x.len() as int));
    assert(b.subrange((i + x.len()) as int, (i + x.len() + y.len()) as int) =~= (x + y).subrange(
        x.len() as int,
        (x.len() + y.len()) as int,
    ));
    assert((x + y).subrange(0, x.len() as int) =~= x);
    assert((x + y).subrange(x.len() as int, (x.len() + y.len()) as int) =~= y);
}

proof fn lemma_lexes_compose(b: Seq<u8>, i: nat, j: nat, k: nat, r1: Seq<Tok>, r2: Seq<Tok>)
    requires
        lexes_as(b, i, j, r1),
        lexes_as(b, j, k, r2),
    ensures
        lexes_as(b, i, k, r1 + r2),
{
    if lex_from(b, k) is Ok {
        let lk = lex_from(b, k)->Ok_0;
        let lj = lex_from(b, j)->Ok_0;
        let li = lex_from(b, i)->Ok_0;
        let r = r1 + r2;
        assert forall|x: int| 0 <= x < r.len() implies li[0 + x].kind == (#[trigger] r[x]).0
            && li[0 + x].text == r[x].1 by {
            if x < r1.len() {
                assert(r[x] == r1[x]);
                assert(r1[x] == r1[x]);
            } else {
                assert(r[x] == r2[x - r1.len()]);
                assert(li[x] == li.subrange(r1.len() as int, li.len() as int)[x - r1.len()]);
                assert(r2[x - r1.len()] == r2[x - r1.len()]);
                assert(lj[0 + (x - r1.len())] == lj[x - r1.len()]);
            }
        }
        assert(li.subrange(r.len() as int, li.len() as int) =~= lj.subrange(
            r2.len() as int,
            lj.len() as int,
        ));
    }
}

proof fn lemma_lex_delimiter(b: Seq<u8>, i: nat)
    requires
        i < b.len(),
        is_delimiter(b[i as int]),
    ensures
        lexes_as(b, i, i + 1, single(delimiter_kind(b[i as int]), b[i as int])),
{
    let r = single(delimiter_kind(b[i as int]), b[i as int]);
    if lex_from(b, i + 1) is Ok {
        let rest = lex_from(b, i + 1)->Ok_0;
        let t = span(delimiter_kind(b[i as int]), b, i, i + 1);
        assert(t.text =~= seq![b[i as int]]);
        let all = seq![t] + rest;
        assert(lex_from(b, i) == Ok::<Seq<TokenSpec>, LexFault>(all));
        assert(all[0int + 0] == t);
        assert(r[0] == (delimiter_kind(b[i as int]), seq![b[i as int]]));
        assert(all.subrange(1, all.len() as int) =~= rest);
    }
}

proof fn lemma_quote_end_over(b: Seq<u8>, j: nat, t: Seq<u8>)
    requires
        text_at(b, j, t),
        quote_free(t),
    ensures
        quote_end(b, j) == quote_end(b, j + t.len()),
    decreases t.len(),
{
    if t.len() > 0 {
        assert(b[j as int] == t[0]);
        assert(t.subrange(0, 1) + t.subrange(1, t.len() as int) =~= t);
        lemma_text_split(b, j, t.subrange(0, 1), t.subrange(1, t.len() as int));
        lemma_quote_end_over(b, j + 1, t.subrange(1, t.len() as int));
    }
}

proof fn lemma_word_end_over(b: Seq<u8>, j: nat, w: Seq<u8>)
    requires
        text_at(b, j, w),
        forall|k: int| 0 <= k < w.len() ==> !ends_word(#[trigger] w[k]),
    ensures
        word_end(b, j) == word_end(b, j + w.len()),
    decreases w.len(),
{
    if w.len() > 0 {
        assert(b[j as int] == w[0]);
        assert(w.subrange(0, 1) + w.subrange(1, w.len() as int) =~= w);
        lemma_text_split(b, j, w.subrange(0, 1), w.subrange(1, w.len() as int));
        let w1 = w.subrange(1, w.len() as int);
        assert forall|k: int| 0 <= k < w1.len() implies !ends_word(#[trigger] w1[k]) by {
            assert(w1[k] == w[k + 1]);
        }
        lemma_word_end_over(b, j + 1, w1);
    }
}

proof fn lemma_lex_quoted(b: Seq<u8>, i: nat, t: Seq<u8>)
    requires
        text_at(b, i, quoted_text(t)),
        quote_free(t),
    ensures
        lexes_as(b, i, i + quoted_text(t).len(), quoted(t)),
{
    lemma_text_split(b, i, seq![QUOTE], t + seq![QUOTE]);
    lemma_text_split(b, i + 1, t, seq![QUOTE]);
    assert(b[i as int] == seq![QUOTE][0]);
    let j = i + 1 + t.len();
    assert(b[j as int] == seq![QUOTE][0]) by {
        assert(b.subrange(j as int, j + 1int)[0] == b[j as int]);
    }
    lemma_quote_end_over(b, i + 1, t);
    assert(quote_end(b, i + 1) == j);
    let r = quoted(t);
    if lex_from(b, j + 1) is Ok {
        let rest = lex_from(b, j + 1)->Ok_0;
        let chunk = seq![
            span(TokenType::Quote, b, i, i + 1),
            span(TokenType::String, b, i + 1, j),
            span(TokenType::Quote, b, j, j + 1),
        ];
        let all = chunk + rest;
        assert(lex_from(b, i) == Ok::<Seq<TokenSpec>, LexFault>(all));
        assert(chunk[0].text =~= seq![QUOTE]);
        assert(chunk[2].text =~= seq![QUOTE]);
        assert(chunk[1].text =~= t);
        assert(all[0int + 0] == chunk[0] && all[0int + 1] == chunk[1] && all[0int + 2] == chunk[2]);
        assert(all.subrange(3, all.len() as int) =~= rest);
        assert(quoted_text(t).len() == t.len() + 2);
    }
}

proof fn lemma_lex_word(b: Seq<u8>, i: nat, w: Seq<u8>)
    requires
        w.len() > 0,
        text_at(b, i, w),
        forall|k: int| 0 <= k < w.len() ==> !ends_word(#[trigger] w[k]),
        boundary(b, i + w.len()),
        word_kind(w) is Some,
    ensures
        lexes_as(b, i, i + w.len(), seq![(word_kind(w)->0, w)]),
{
    let j = i + w.len();
    lemma_word_end_over(b, i, w);
    assert(word_end(b, j) == j);
    assert(b[i as int] == w[0]);
    assert(b.subrange(i as int, j as int) == w);
    if lex_from(b, j) is Ok {
        let rest = lex_from(b, j)->Ok_0;
        let t = span(word_kind(w)->0, b, i, j);
        let all = seq![t] + rest;
        assert(lex_from(b, i) == Ok::<Seq<TokenSpec>, LexFault>(all));
        assert(all[0int + 0] == t);
        assert(all.subrange(1, all.len() as int) =~= rest);
    }
}

proof fn lemma_digits_end(w: Seq<u8>, j: nat)
    ensures
        j <= w.len() ==> j <= digits_end(w, j) <= w.len(),
        forall|k: int| j <= k < digits_end(w, j) ==> is_digit(#[trigger] w[k]),
    decreases w.len() - j,
{
    if j < w.len() && is_digit(w[j as int]) {
        lemma_digits_end(w, j + 1);
    }
}

/// A decimal literal begins with a digit and holds no byte at which a word stops.
proof fn lemma_number_word(w: Seq<u8>)
    requires
        is_number_literal(w),
    ensures
        w.len() > 0,
        is_digit(w[0]),
        forall|k: int| 0 <= k < w.len() ==> !ends_word(#[trigger] w[k]),
{
    let a = digits_end(w, 0);
    lemma_digits_end(w, 0);
    let b = if a < w.len() && w[a as int] == DOT {
        digits_end(w, a + 1)
    } else {
        a
    };
    lemma_digits_end(w, a + 1);
    let c = if b + 1 < w.len() && is_sign(w[b + 1int]) {
        b + 2
    } else {
        b + 1
    };
    lemma_digits_end(w, c);
    assert forall|k: int| 0 <= k < w.len() implies !ends_word(#[trigger] w[k]) by {
        if k < a {
            assert(is_digit(w[k]));
        } else if k < b {
            if k > a {
                assert(is_digit(w[k]));
            }
        } else if k > b && k < c {
        } else if k > b {
            assert(is_digit(w[k]));
        }
    }
}

proof fn lemma_keyword_words()
    ensures
        forall|k: int| 0 <= k < null_word().len() ==> !ends_word(#[trigger] null_word()[k]),
        forall|k: int| 0 <= k < true_word().len() ==> !ends_word(#[trigger] true_word()[k]),
        forall|k: int| 0 <= k < false_word().len() ==> !ends_word(#[trigger] false_word()[k]),
        word_kind(null_word()) == Some(TokenType::Null),
        word_kind(true_word()) == Some(TokenType::Boolean),
        word_kind(false_word()) == Some(TokenType::Boolean),
{
    assert(true_word() != null_word()) by {
        assert(true_word()[0] != null_word()[0]);
    }
    assert(false_word() != null_word()) by {
        assert(false_word().len() != null_word().len());
    }
}

proof fn lemma_writable_doc_valid(d: Doc)
    requires
        writable_doc(d),
    ensures
        valid_doc(d),
    decreases d,
{
    match d {
        Doc::Array(ds) => {
            assert forall|x: int| 0 <= x < ds.len() implies valid_doc(#[trigger] ds[x]) by {
                lemma_writable_doc_valid(ds[x]);
            }
        },
        Doc::Object(ms) => {
            assert forall|x: int| 0 <= x < ms.len() implies valid_doc((#[trigger] ms[x]).1) by {
                lemma_writable_doc_valid(ms[x].1);
            }
        },
        _ => {},
    }
}

/// No bare word of `r1` runs into one of `r2`.
pub open spec fn seam_ok(r1: Seq<Tok>, r2: Seq<Tok>) -> bool {
    r1.len() == 0 || r2.len() == 0 || !is_word_kind(r1.last().0) || !is_word_kind(r2[0].0)
}

proof fn lemma_lexical_shift(r1: Seq<Tok>, r2: Seq<Tok>, k: nat)
    requires
        lexical_from(r2, k),
    ensures
        lexical_from(r1 + r2, r1.len() + k),
    decreases r2.len() - k,
{
    let r = r1 + r2;
    if k < r2.len() {
        let j = r1.len() + k;
        assert(r[j as int] == r2[k as int]);
        if r2[k as int].0 == TokenType::Quote {
            assert(r[j + 1int] == r2[k + 1int]);
            assert(r[j + 2int] == r2[k + 2int]);
            lemma_lexical_shift(r1, r2, k + 3);
        } else {
            if k + 1 < r2.len() {
                assert(r[j + 1int] == r2[k + 1int]);
            }
            lemma_lexical_shift(r1, r2, k + 1);
        }
    }
}

proof fn lemma_lexical_concat_from(r1: Seq<Tok>, r2: Seq<Tok>, k: nat)
    requires
        k <= r1.len(),
        lexical_from(r1, k),
        lexical_from(r2, 0),
        seam_ok(r1, r2),
    ensures
        lexical_from(r1 + r2, k),
    decreases r1.len() - k,
{
    let r = r1 + r2;
    if k == r1.len() {
        lemma_lexical_shift(r1, r2, 0);
    } else {
        assert(r[k as int] == r1[k as int]);
        if r1[k as int].0 == TokenType::Quote {
            assert(r[k + 1int] == r1[k + 1int]);
            assert(r[k + 2int] == r1[k + 2int]);
            lemma_lexical_concat_from(r1, r2, k + 3);
        } else {
            if k + 1 < r1.len() {
                assert(r[k + 1int] == r1[k + 1int]);
            } else if r2.len() > 0 {
                assert(r[k + 1int] == r2[0]);
            }
            lemma_lexical_concat_from(r1, r2, k + 1);
        }
    }
}

proof fn lemma_lexical_concat(r1: Seq<Tok>, r2: Seq<Tok>)
    requires
        lexical_from(r1, 0),
        lexical_from(r2, 0),
        seam_ok(r1, r2),
    ensures
        lexical_from(r1 + r2, 0),
{
    lemma_lexical_concat_from(r1, r2, 0);
}

proof fn lemma_lexical_single(kind: TokenType, c: u8)
    requires
        is_delimiter(c),
        delimiter_kind(c) == kind,
    ensures
        lexical_from(single(kind, c), 0),
        !is_word_kind(kind),
{
    let r = single(kind, c);
    assert(r[0] == (kind, seq![c]));
    assert(seq![c][0] == c);
    assert(is_delimiter_kind(kind));
    assert(lexical_from(r, 1));
}

proof fn lemma_lexical_quoted(t: Seq<u8>)
    requires
        quote_free(t),
    ensures
        lexical_from(quoted(t), 0),
{
    let r = quoted(t);
    assert(lexical_from(r, 3));
    assert(r[2] == (TokenType::Quote, seq![QUOTE]));
}

proof fn lemma_lexical_join(parts: Seq<Seq<Tok>>, k: nat)
    requires
        k < parts.len(),
        forall|x: int|
            0 <= x < parts.len() ==> lexical_from(#[trigger] parts[x], 0) && parts[x].len() > 0,
    ensures
        lexical_from(join_from(parts, k), 0),
        join_from(parts, k).len() > 0,
    decreases parts.len() - k,
{
    assert(lexical_from(parts[k as int], 0) && parts[k as int].len() > 0);
    if k + 1 < parts.len() {
        let comma = single(TokenType::Comma, COMMA);
        lemma_lexical_single(TokenType::Comma, COMMA);
        lemma_lexical_join(parts, k + 1);
        lemma_lexical_concat(comma, join_from(parts, k + 1));
        assert((comma + join_from(parts, k + 1))[0] == comma[0]);
        lemma_lexical_concat(parts[k as int], comma + join_from(parts, k + 1));
    }
}

/// Brackets `open` and `close` round a joined list.
proof fn lemma_lexical_enclosed(open: Seq<Tok>, body: Seq<Tok>, close: Seq<Tok>)
    requires
        lexical_from(open, 0),
        lexical_from(body, 0),
        lexical_from(close, 0),
        open.len() == 1 && !is_word_kind(open[0].0),
        close.len() == 1 && !is_word_kind(close[0].0),
    ensures
        lexical_from(open + (body + close), 0),
{
    lemma_lexical_concat(body, close);
    if body.len() > 0 {
        assert((body + close)[0] == body[0]);
    } else {
        assert((body + close)[0] == close[0]);
    }
    lemma_lexical_concat(open, body + close);
}

/// The tokens of a writable document are tokens that the lexer produces.
proof fn lemma_lexical_render(d: Doc)
    requires
        writable_doc(d),
    ensures
        lexical_from(render(d), 0),
        render(d).len() > 0,
    decreases d,
{
    lemma_keyword_words();
    let r = render(d);
    match d {
        Doc::Null => {
            assert(lexical_from(r, 1));
        },
        Doc::Bool(v) => {
            assert(lexical_from(r, 1));
        },
        Doc::Number(w) => {
            lemma_number_word(w);
            assert(lexical_from(r, 1));
        },
        Doc::Str(t) => {
            lemma_lexical_quoted(t);
        },
        Doc::Array(ds) => {
            let parts = element_parts(ds);
            let open = single(TokenType::LeftSquareBracket, LEFT_SQUARE);
            let close = single(TokenType::RightSquareBracket, RIGHT_SQUARE);
            lemma_lexical_single(TokenType::LeftSquareBracket, LEFT_SQUARE);
            lemma_lexical_single(TokenType::RightSquareBracket, RIGHT_SQUARE);
            if ds.len() > 0 {
                assert forall|x: int| 0 <= x < parts.len() implies lexical_from(
                    #[trigger] parts[x],
                    0,
                ) && parts[x].len() > 0 by {
                    lemma_lexical_render(ds[x]);
                }
                lemma_lexical_join(parts, 0);
            }
            lemma_lexical_enclosed(open, join_from(parts, 0), close);
        },
        Doc::Object(ms) => {
            let parts = member_parts(ms);
            let open = single(TokenType::LeftBracket, LEFT_BRACE);
            let close = single(TokenType::RightBracket, RIGHT_BRACE);
            lemma_lexical_single(TokenType::LeftBracket, LEFT_BRACE);
            lemma_lexical_single(TokenType::RightBracket, RIGHT_BRACE);
            if ms.len() > 0 {
                assert forall|x: int| 0 <= x < parts.len() implies lexical_from(
                    #[trigger] parts[x],
                    0,
                ) && parts[x].len() > 0 by {
                    let vr = render(ms[x].1);
                    let colon = single(TokenType::Colon, COLON);
                    lemma_lexical_render(ms[x].1);
                    lemma_lexical_single(TokenType::Colon, COLON);
                    lemma_lexical_quoted(ms[x].0);
                    lemma_lexical_concat(colon, vr);
                    assert((colon + vr)[0] == colon[0]);
                    lemma_lexical_concat(quoted(ms[x].0), colon + vr);
                }
                lemma_lexical_join(parts, 0);
            }
            lemma_lexical_enclosed(open, join_from(parts, 0), close);
        },
    }
}

/// Every document of the grammar decodes to the value it denotes, however its tokens are
/// spaced: written with any whitespace before, between and after its tokens (none inside a
/// quoted string), its text decodes to exactly its keys and values, its elements in order
/// and its literals.
pub proof fn lemma_parse_document(d: Doc, gaps: Seq<Seq<u8>>)
    requires
        writable_doc(d),
        gaps.len() == render(d).len() + 1,
        forall|x: int| 0 <= x < gaps.len() ==> whitespace_only(#[trigger] gaps[x]),
    ensures
        document_value(layout_from(render(d), gaps, 0)) == Ok::<ValueModel, ParseFault>(
            denote(d),
        ),
{
    let r = render(d);
    let b = layout_from(r, gaps, 0);
    lemma_lexical_render(d);
    assert(b.subrange(0, b.len() as int) =~= b);
    lemma_lex_layout(r, gaps, 0, b, 0);
    assert(lex_from(b, b.len()) == Ok::<Seq<TokenSpec>, LexFault>(seq![]));
    assert(r.subrange(0, r.len() as int) =~= r);
    let ts = lex(b)->Ok_0;
    lemma_writable_doc_valid(d);
    lemma_documents_decode(d, ts);
}

/// Whitespace between the tokens of a document never changes what it decodes to: any two
/// layouts of the same document decode to the same value.
pub proof fn lemma_whitespace_insensitive(d: Doc, gaps1: Seq<Seq<u8>>, gaps2: Seq<Seq<u8>>)
    requires
        writable_doc(d),
        gaps1.len() == render(d).len() + 1,
        gaps2.len() == render(d).len() + 1,
        forall|x: int| 0 <= x < gaps1.len() ==> whitespace_only(#[trigger] gaps1[x]),
        forall|x: int| 0 <= x < gaps2.len() ==> whitespace_only(#[trigger] gaps2[x]),
    ensures
        document_value(layout_from(render(d), gaps1, 0)) == document_value(
            layout_from(render(d), gaps2, 0),
        ),
{
    lemma_parse_document(d, gaps1);
    lemma_parse_document(d, gaps2);
}

} // verus!
