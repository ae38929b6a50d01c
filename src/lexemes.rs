use crate::lexer::{generate_tokens, lex, LexError, LexFault, TokenType};
use vstd::prelude::*;
use vstd::string::StringSliceAdditionalSpecFns;

verus! {

/// A token whose kind is written as one byte:
/// `n` null, `u` number, `s` the text of a quoted string, `t` true or false,
/// and a quote or delimiter as its own byte.
#[derive(PartialEq, Debug)]
pub struct Lexeme<'a> {
    pub s: &'a [u8],
    pub start: usize,
    pub _type: u8,
}

/// The byte that stands for a token kind.
pub open spec fn lexeme_tag(k: TokenType) -> u8 {
    match k {
        TokenType::Null => 0x6e,
        TokenType::Number => 0x75,
        TokenType::String => 0x73,
        TokenType::Quote => 0x22,
        TokenType::Boolean => 0x74,
        TokenType::LeftBracket => 0x7b,
        TokenType::RightBracket => 0x7d,
        TokenType::LeftSquareBracket => 0x5b,
        TokenType::RightSquareBracket => 0x5d,
        TokenType::Colon => 0x3a,
        TokenType::Comma => 0x2c,
    }
}

fn tag_of(k: TokenType) -> (r: u8)
    ensures
        r == lexeme_tag(k),
{
    match k {
        TokenType::Null => 0x6e,
        TokenType::Number => 0x75,
        TokenType::String => 0x73,
        TokenType::Quote => 0x22,
        TokenType::Boolean => 0x74,
        TokenType::LeftBracket => 0x7b,
        TokenType::RightBracket => 0x7d,
        TokenType::LeftSquareBracket => 0x5b,
        TokenType::RightSquareBracket => 0x5d,
        TokenType::Colon => 0x3a,
        TokenType::Comma => 0x2c,
    }
}

/// Splits `s` into lexemes: the tokens of `s`, in order, each tagged with the byte of its
/// kind. Fails exactly where tokenizing fails.
pub fn gen_lexemes(s: &str) -> (r: Result<Vec<Lexeme<'_>>, LexError>)
    ensures
        match r {
            Ok(v) => lex(s.spec_bytes()) is Ok && {
                let ts = lex(s.spec_bytes())->Ok_0;
                &&& v@.len() == ts.len()
                &&& forall|k: int|
                    0 <= k < ts.len() ==> {
                        &&& (#[trigger] v@[k]).s@ == ts[k].text
                        &&& v@[k].start == ts[k].start
                        &&& v@[k]._type == lexeme_tag(ts[k].kind)
                    }
            },
            Err(e) => lex(s.spec_bytes()) == Err::<Seq<crate::lexer::TokenSpec>, LexFault>(e@),
        },
{
    let tokens = match generate_tokens(s) {
        Ok(t) => t,
        Err(e) => return Err(e),
    };
    let mut lexemes: Vec<Lexeme<'_>> = Vec::new();
    let mut i: usize = 0;
    while i < tokens.len()
        invariant
            i <= tokens@.len(),
            lexemes@.len() == i,
            forall|k: int|
                0 <= k < i ==> {
                    &&& (#[trigger] lexemes@[k]).s@ == tokens@[k].s@
                    &&& lexemes@[k].start == tokens@[k].start
                    &&& lexemes@[k]._type == lexeme_tag(tokens@[k]._type)
                },
        decreases tokens@.len() - i,
    {
        let t = &tokens[i];
        lexemes.push(Lexeme { s: t.s, start: t.start, _type: tag_of(t._type) });
        i = i + 1;
    }
    Ok(lexemes)
}

} // verus!
