//! The grammar's documents, the tokens that spell each one out, and the value each denotes.
use crate::lexer::{
    false_word, null_word, true_word, TokenSpec, TokenType, COLON, COMMA, LEFT_BRACE,
    LEFT_SQUARE, QUOTE, RIGHT_BRACE, RIGHT_SQUARE,
};
use crate::parser::{
    elements_at, is_number_literal, members_at, string_at, tokens_value, value_at, SyntaxError,
};
use crate::text::lossy_text;
use crate::value::ValueModel;
use vstd::prelude::*;

verus! {

/// A token as the parser reads it: its kind and its text.
pub type Tok = (TokenType, Seq<u8>);

/// A document as the grammar derives it. Object members are kept in source order, repeated
/// keys included; strings and keys are the bytes between their quotes.
pub enum Doc {
    Null,
    Bool(bool),
    Number(Seq<u8>),
    Str(Seq<u8>),
    Array(Seq<Doc>),
    Object(Seq<(Seq<u8>, Doc)>),
}

/// Every number in the document is a decimal literal.
pub open spec fn valid_doc(d: Doc) -> bool
    decreases d,
{
    match d {
        Doc::Number(w) => is_number_literal(w),
        Doc::Array(ds) => forall|x: int| 0 <= x < ds.len() ==> valid_doc(#[trigger] ds[x]),
        Doc::Object(ms) => forall|x: int| 0 <= x < ms.len() ==> valid_doc((#[trigger] ms[x]).1),
        _ => true,
    }
}

pub open spec fn single(kind: TokenType, c: u8) -> Seq<Tok> {
    seq![(kind, seq![c])]
}

/// The tokens of a quoted string: quote, text, quote.
pub open spec fn quoted(t: Seq<u8>) -> Seq<Tok> {
    seq![(TokenType::Quote, seq![QUOTE]), (TokenType::String, t), (TokenType::Quote, seq![QUOTE])]
}

/// `parts` from index `k` on, separated by commas.
pub open spec fn join_from(parts: Seq<Seq<Tok>>, k: nat) -> Seq<Tok>
    decreases parts.len() - k,
{
    if k >= parts.len() {
        seq![]
    } else if k + 1 == parts.len() {
        parts[k as int]
    } else {
        parts[k as int] + (single(TokenType::Comma, COMMA) + join_from(parts, k + 1))
    }
}

/// The tokens of one object member: its quoted key, a colon, and its value's tokens.
pub open spec fn member_tokens(key: Seq<u8>, value: Seq<Tok>) -> Seq<Tok> {
    quoted(key) + (single(TokenType::Colon, COLON) + value)
}

/// The tokens that spell out `d`.
pub open spec fn render(d: Doc) -> Seq<Tok>
    decreases d,
{
    match d {
        Doc::Null => seq![(TokenType::Null, null_word())],
        Doc::Bool(b) => seq![(TokenType::Boolean, if b { true_word() } else { false_word() })],
        Doc::Number(w) => seq![(TokenType::Number, w)],
        Doc::Str(t) => quoted(t),
        Doc::Array(ds) => single(TokenType::LeftSquareBracket, LEFT_SQUARE) + (join_from(
            element_parts(ds),
            0,
        ) + single(TokenType::RightSquareBracket, RIGHT_SQUARE)),
        Doc::Object(ms) => single(TokenType::LeftBracket, LEFT_BRACE) + (join_from(
            member_parts(ms),
            0,
        ) + single(TokenType::RightBracket, RIGHT_BRACE)),
    }
}

/// The tokens of each element of an array.
pub open spec fn element_parts(ds: Seq<Doc>) -> Seq<Seq<Tok>>
    decreases ds,
{
    Seq::new(
        ds.len(),
        |x: int|
            if 0 <= x < ds.len() {
                render(ds[x])
            } else {
                seq![]
            },
    )
}

/// The tokens of each member of an object.
pub open spec fn member_parts(ms: Seq<(Seq<u8>, Doc)>) -> Seq<Seq<Tok>>
    decreases ms,
{
    Seq::new(
        ms.len(),
        |x: int|
            if 0 <= x < ms.len() {
                member_tokens(ms[x].0, render(ms[x].1))
            } else {
                seq![]
            },
    )
}

/// Inserts the members from index `k` on, in order, into `m`: a later key overwrites.
pub open spec fn insert_all(
    m: Map<Seq<char>, ValueModel>,
    keys: Seq<Seq<u8>>,
    vals: Seq<ValueModel>,
    k: nat,
) -> Map<Seq<char>, ValueModel>
    decreases keys.len() - k,
{
    if k >= keys.len() {
        m
    } else {
        insert_all(m.insert(lossy_text(keys[k as int]), vals[k as int]), keys, vals, k + 1)
    }
}

/// The value that `d` denotes.
pub open spec fn denote(d: Doc) -> ValueModel
    decreases d,
{
    match d {
        Doc::Null => ValueModel::Null,
        Doc::Bool(b) => ValueModel::Bool(b),
        Doc::Number(w) => ValueModel::Number(lossy_text(w)),
        Doc::Str(t) => ValueModel::Str(lossy_text(t)),
        Doc::Array(ds) => ValueModel::Array(element_values(ds)),
        Doc::Object(ms) => ValueModel::Object(
            insert_all(Map::empty(), member_keys(ms), member_values(ms), 0),
        ),
    }
}

/// The values of the elements of an array.
pub open spec fn element_values(ds: Seq<Doc>) -> Seq<ValueModel>
    decreases ds,
{
    Seq::new(
        ds.len(),
        |x: int|
            if 0 <= x < ds.len() {
                denote(ds[x])
            } else {
                ValueModel::Null
            },
    )
}

/// The keys of the members of an object, in order.
pub open spec fn member_keys(ms: Seq<(Seq<u8>, Doc)>) -> Seq<Seq<u8>> {
    Seq::new(ms.len(), |x: int| ms[x].0)
}

/// The values of the members of an object, in order.
pub open spec fn member_values(ms: Seq<(Seq<u8>, Doc)>) -> Seq<ValueModel>
    decreases ms,
{
    Seq::new(
        ms.len(),
        |x: int|
            if 0 <= x < ms.len() {
                denote(ms[x].1)
            } else {
                ValueModel::Null
            },
    )
}

/// The tokens of `ts` from offset `i` on begin with the kinds and texts of `r`.
pub open spec fn matches_at(r: Seq<Tok>, ts: Seq<TokenSpec>, i: nat) -> bool {
    &&& i + r.len() <= ts.len()
    &&& forall|k: int|
        0 <= k < r.len() ==> ts[i + k].kind == (#[trigger] r[k]).0 && ts[i + k].text == r[k].1
}

/// Wherever the tokens `r` stand, the parser reads them as the value `v`.
pub open spec fn parses(r: Seq<Tok>, v: ValueModel) -> bool {
    forall|ts: Seq<TokenSpec>, i: nat|
        #[trigger] matches_at(r, ts, i) ==> value_at(ts, i) == Ok::<(ValueModel, nat), SyntaxError>(
            (v, r.len()),
        )
}

proof fn lemma_matches_split(a: Seq<Tok>, b: Seq<Tok>, ts: Seq<TokenSpec>, i: nat)
    requires
        matches_at(a + b, ts, i),
    ensures
        matches_at(a, ts, i),
        matches_at(b, ts, i + a.len()),
{
    assert forall|k: int| 0 <= k < a.len() implies ts[i + k].kind == (#[trigger] a[k]).0
        && ts[i + k].text == a[k].1 by {
        assert((a + b)[k] == a[k]);
    }
    assert forall|k: int| 0 <= k < b.len() implies ts[(i + a.len()) + k].kind == (
    #[trigger] b[k]).0 && ts[(i + a.len()) + k].text == b[k].1 by {
        assert((a + b)[a.len() + k] == b[k]);
    }
}

/// The elements from index `k` on, followed by the closing bracket, are read as the rest
/// of an array.
proof fn lemma_elements(
    parts: Seq<Seq<Tok>>,
    vals: Seq<ValueModel>,
    k: nat,
    ts: Seq<TokenSpec>,
    j: nat,
    acc: Seq<ValueModel>,
)
    requires
        parts.len() == vals.len(),
        k < parts.len(),
        forall|x: int| 0 <= x < parts.len() ==> parses(#[trigger] parts[x], vals[x]),
        matches_at(
            join_from(parts, k) + single(TokenType::RightSquareBracket, RIGHT_SQUARE),
            ts,
            j,
        ),
    ensures
        elements_at(ts, j, acc) == Ok::<(ValueModel, nat), SyntaxError>(
            (
                ValueModel::Array(acc + vals.subrange(k as int, vals.len() as int)),
                join_from(parts, k).len() + 1,
            ),
        ),
    decreases parts.len() - k,
{
    let close = single(TokenType::RightSquareBracket, RIGHT_SQUARE);
    let part = parts[k as int];
    let n = part.len();
    let acc2 = acc.push(vals[k as int]);
    if k + 1 == parts.len() {
        lemma_matches_split(part, close, ts, j);
        assert(parses(parts[k as int], vals[k as int]));
        assert(close[0].0 == TokenType::RightSquareBracket);
        assert(acc2 =~= acc + vals.subrange(k as int, vals.len() as int));
    } else {
        let comma = single(TokenType::Comma, COMMA);
        let rest = join_from(parts, k + 1);
        assert(join_from(parts, k) + close =~= part + (comma + (rest + close)));
        lemma_matches_split(part, comma + (rest + close), ts, j);
        lemma_matches_split(comma, rest + close, ts, j + n);
        assert(parses(parts[k as int], vals[k as int]));
        assert(comma[0].0 == TokenType::Comma);
        lemma_elements(parts, vals, k + 1, ts, j + n + 1, acc2);
        assert(acc2 + vals.subrange(k + 1int, vals.len() as int) =~= acc + vals.subrange(
            k as int,
            vals.len() as int,
        ));
    }
}

/// The members from index `k` on, followed by the closing brace, are read as the rest of an
/// object.
proof fn lemma_members(
    keys: Seq<Seq<u8>>,
    vparts: Seq<Seq<Tok>>,
    vals: Seq<ValueModel>,
    parts: Seq<Seq<Tok>>,
    k: nat,
    ts: Seq<TokenSpec>,
    j: nat,
    m: Map<Seq<char>, ValueModel>,
)
    requires
        keys.len() == vparts.len() == vals.len() == parts.len(),
        k < parts.len(),
        forall|x: int| 0 <= x < parts.len() ==> parses(#[trigger] vparts[x], vals[x]),
        forall|x: int|
            0 <= x < parts.len() ==> #[trigger] parts[x] == member_tokens(keys[x], vparts[x]),
        matches_at(join_from(parts, k) + single(TokenType::RightBracket, RIGHT_BRACE), ts, j),
    ensures
        members_at(ts, j, m) == Ok::<(ValueModel, nat), SyntaxError>(
            (ValueModel::Object(insert_all(m, keys, vals, k)), join_from(parts, k).len() + 1),
        ),
    decreases parts.len() - k,
{
    let close = single(TokenType::RightBracket, RIGHT_BRACE);
    let colon = single(TokenType::Colon, COLON);
    let part = parts[k as int];
    let key = keys[k as int];
    let vpart = vparts[k as int];
    let n = vpart.len();
    let m2 = m.insert(lossy_text(key), vals[k as int]);
    assert(part == quoted(key) + (colon + vpart));
    let after = if k + 1 == parts.len() {
        close
    } else {
        single(TokenType::Comma, COMMA) + (join_from(parts, k + 1) + close)
    };
    assert(join_from(parts, k) + close =~= quoted(key) + (colon + (vpart + after)));
    lemma_matches_split(quoted(key), colon + (vpart + after), ts, j);
    lemma_matches_split(colon, vpart + after, ts, j + 3);
    lemma_matches_split(vpart, after, ts, j + 4);
    assert(parses(vparts[k as int], vals[k as int]));
    assert(string_at(ts, j) == Ok::<Seq<char>, SyntaxError>(lossy_text(key))) by {
        assert(quoted(key)[1].1 == key);
    }
    assert(colon[0].0 == TokenType::Colon);
    if k + 1 == parts.len() {
        assert(close[0].0 == TokenType::RightBracket);
        assert(insert_all(m2, keys, vals, k + 1) == m2);
    } else {
        let comma = single(TokenType::Comma, COMMA);
        lemma_matches_split(comma, join_from(parts, k + 1) + close, ts, j + 4 + n);
        assert(comma[0].0 == TokenType::Comma);
        lemma_members(keys, vparts, vals, parts, k + 1, ts, j + 4 + n + 1, m2);
    }
}

/// Wherever the tokens of a valid document stand, the parser reads exactly them, as the
/// value the document denotes.
proof fn lemma_value_at(d: Doc, ts: Seq<TokenSpec>, i: nat)
    requires
        valid_doc(d),
        matches_at(render(d), ts, i),
    ensures
        value_at(ts, i) == Ok::<(ValueModel, nat), SyntaxError>((denote(d), render(d).len())),
    decreases d, 0int,
{
    let r = render(d);
    assert(r[0] == render(d)[0]);
    match d {
        Doc::Null => {
            assert(ts[i + 0int].text == r[0].1);
        },
        Doc::Bool(b) => {
            assert(false_word() != true_word()) by {
                assert(false_word().len() != true_word().len());
            }
        },
        Doc::Number(w) => {},
        Doc::Str(t) => {},
        Doc::Array(ds) => {
            let parts = element_parts(ds);
            let vals = element_values(ds);
            let open = single(TokenType::LeftSquareBracket, LEFT_SQUARE);
            let close = single(TokenType::RightSquareBracket, RIGHT_SQUARE);
            assert(r == open + (join_from(parts, 0) + close));
            lemma_matches_split(open, join_from(parts, 0) + close, ts, i);
            assert(open[0].0 == TokenType::LeftSquareBracket);
            if ds.len() == 0 {
                assert(close[0].0 == TokenType::RightSquareBracket);
                assert(vals =~= seq![]);
            } else {
                assert forall|x: int| 0 <= x < parts.len() implies parses(
                    #[trigger] parts[x],
                    vals[x],
                ) by {
                    lemma_parses(ds[x]);
                }
                lemma_parses(ds[0]);
                lemma_first_token(ds[0]);
                if ds.len() == 1 {
                    lemma_matches_split(parts[0], close, ts, i + 1);
                } else {
                    let tail = single(TokenType::Comma, COMMA) + join_from(parts, 1) + close;
                    assert(join_from(parts, 0) + close =~= parts[0] + tail);
                    lemma_matches_split(parts[0], tail, ts, i + 1);
                }
                lemma_elements(parts, vals, 0, ts, i + 1, seq![]);
                assert(seq![] + vals.subrange(0, vals.len() as int) =~= vals);
            }
        },
        Doc::Object(ms) => {
            let keys = member_keys(ms);
            let vparts = Seq::new(
                ms.len(),
                |x: int|
                    if 0 <= x < ms.len() {
                        render(ms[x].1)
                    } else {
                        seq![]
                    },
            );
            let parts = member_parts(ms);
            let vals = member_values(ms);
            let open = single(TokenType::LeftBracket, LEFT_BRACE);
            let close = single(TokenType::RightBracket, RIGHT_BRACE);
            assert(r == open + (join_from(parts, 0) + close));
            lemma_matches_split(open, join_from(parts, 0) + close, ts, i);
            assert(open[0].0 == TokenType::LeftBracket);
            if ms.len() == 0 {
                assert(close[0].0 == TokenType::RightBracket);
            } else {
                assert forall|x: int| 0 <= x < parts.len() implies parses(
                    #[trigger] vparts[x],
                    vals[x],
                ) by {
                    lemma_parses(ms[x].1);
                }
                assert(parts[0] == member_tokens(ms[0].0, render(ms[0].1)));
                assert((join_from(parts, 0) + close)[0] == parts[0][0]);
                lemma_members(keys, vparts, vals, parts, 0, ts, i + 1, Map::empty());
            }
        },
    }
}

proof fn lemma_first_token(d: Doc)
    ensures
        render(d).len() > 0,
        render(d)[0].0 != TokenType::RightSquareBracket,
{
}

proof fn lemma_parses(d: Doc)
    requires
        valid_doc(d),
    ensures
        parses(render(d), denote(d)),
    decreases d, 1int,
{
    assert forall|ts: Seq<TokenSpec>, i: nat| #[trigger] matches_at(render(d), ts, i) implies value_at(
        ts,
        i,
    ) == Ok::<(ValueModel, nat), SyntaxError>((denote(d), render(d).len())) by {
        lemma_value_at(d, ts, i);
    }
}

/// Every document that the grammar derives decodes, as a whole, to the value it denotes:
/// a token sequence that spells out a valid `d` and nothing more parses to `denote(d)`.
pub proof fn lemma_documents_decode(d: Doc, ts: Seq<TokenSpec>)
    requires
        valid_doc(d),
        ts.len() == render(d).len(),
        matches_at(render(d), ts, 0),
    ensures
        tokens_value(ts) == Ok::<ValueModel, SyntaxError>(denote(d)),
{
    lemma_first_token(d);
    lemma_value_at(d, ts, 0);
}

} // verus!
