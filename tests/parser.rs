use json_parser::lexer::{generate_tokens, LexError, Token, TokenType};
use json_parser::parser::{parse, parse_tokens, ParseError, SyntaxError};
use json_parser::value::Value;
use std::collections::HashMap;

/// The decoded tree with numbers read as `f64` and objects as maps.
#[derive(Debug, PartialEq)]
enum Plain {
    Null,
    Bool(bool),
    Number(f64),
    String(String),
    Array(Vec<Plain>),
    Object(HashMap<String, Plain>),
}

fn plain(v: &Value) -> Plain {
    match v {
        Value::Null => Plain::Null,
        Value::Bool(b) => Plain::Bool(*b),
        Value::Number(lit) => Plain::Number(lit.parse::<f64>().unwrap()),
        Value::String(s) => Plain::String(s.clone()),
        Value::Array(items) => Plain::Array(items.iter().map(plain).collect()),
        Value::Object(members) => {
            let mut m = HashMap::new();
            for (k, x) in members {
                m.insert(k.clone(), plain(x));
            }
            Plain::Object(m)
        }
    }
}

fn parse_plain(s: &str) -> Result<Plain, ParseError> {
    parse(s).map(|v| plain(&v))
}

fn run_parsing_cases() {
    {
        let v = parse_plain("{}");
        let exp = Plain::Object(HashMap::new());
        assert_eq!(exp, v.unwrap());
    }
    {
        let v = parse_plain(r#"{"key":"value"}"#);
        let mut m = HashMap::new();
        m.insert("key".to_owned(), Plain::String("value".to_owned()));
        let exp = Plain::Object(m);
        assert_eq!(exp, v.unwrap());
    }
    {
        let v = parse_plain(r#"{"key": null}"#);
        let mut m = HashMap::new();
        m.insert("key".to_owned(), Plain::Null);
        let exp = Plain::Object(m);
        assert_eq!(exp, v.unwrap());
    }
    {
        let v = parse_plain(r#"{"key": true   }"#);
        let mut m = HashMap::new();
        m.insert("key".to_owned(), Plain::Bool(true));
        let exp = Plain::Object(m);
        assert_eq!(exp, v.unwrap());
    }
    {
        let v = parse_plain(r#"{"key": false   }"#);
        let mut m = HashMap::new();
        m.insert("key".to_owned(), Plain::Bool(false));
        let exp = Plain::Object(m);
        assert_eq!(exp, v.unwrap());
    }
    {
        let v = parse_plain(r#"{"key": false , "k2": "v2"  }"#);
        let mut m = HashMap::new();
        m.insert("key".to_owned(), Plain::Bool(false));
        m.insert("k2".to_owned(), Plain::String("v2".to_owned()));
        let exp = Plain::Object(m);
        assert_eq!(exp, v.unwrap());
    }
    {
        let v = parse_plain(r#"{"key": false , "k2": {"k3": null}  }"#);
        let mut m = HashMap::new();
        m.insert("key".to_owned(), Plain::Bool(false));
        let mut nm = HashMap::new();
        nm.insert("k3".to_owned(), Plain::Null);
        m.insert("k2".to_owned(), Plain::Object(nm));
        let exp = Plain::Object(m);
        assert_eq!(exp, v.unwrap());
    }
    {
        let v = parse_plain(r#"[]"#);
        let exp = Plain::Array(vec![]);
        assert_eq!(exp, v.unwrap());
    }
    {
        let v = parse_plain(r#"[ null ]"#);
        let exp = Plain::Array(vec![Plain::Null]);
        assert_eq!(exp, v.unwrap());
    }
    {
        let v = parse_plain(r#"[ null , false]"#);
        let exp = Plain::Array(vec![Plain::Null, Plain::Bool(false)]);
        assert_eq!(exp, v.unwrap());
    }
    {
        let v = parse_plain(r#"[ null , false, {"k1": "v2"}]"#);
        let mut m = HashMap::new();
        m.insert("k1".to_owned(), Plain::String("v2".to_owned()));
        let exp = Plain::Array(vec![Plain::Null, Plain::Bool(false), Plain::Object(m)]);
        assert_eq!(exp, v.unwrap());
    }
    {
        let v = parse_plain(r#"[ null , false, {"k1": "v2"}, "ss"]"#);
        let mut m = HashMap::new();
        m.insert("k1".to_owned(), Plain::String("v2".to_owned()));
        let exp = Plain::Array(vec![
            Plain::Null,
            Plain::Bool(false),
            Plain::Object(m),
            Plain::String("ss".to_owned()),
        ]);
        assert_eq!(exp, v.unwrap());
    }
    {
        let v = parse_plain(r#"{ "kk": [ null , false, {"k1": "v2"}, "ss"]}"#);
        let mut m = HashMap::new();
        m.insert("k1".to_owned(), Plain::String("v2".to_owned()));
        let vec = vec![
            Plain::Null,
            Plain::Bool(false),
            Plain::Object(m),
            Plain::String("ss".to_owned()),
        ];
        let mut mo = HashMap::new();
        mo.insert("kk".to_owned(), Plain::Array(vec));
        let exp = Plain::Object(mo);
        assert_eq!(exp, v.unwrap());
    }
    {
        let v = parse_plain(r#"{"key":345}"#);
        let mut m = HashMap::new();
        m.insert("key".to_owned(), Plain::Number(345.0));
        let exp = Plain::Object(m);
        assert_eq!(exp, v.unwrap());
    }
    {
        let v = parse_plain(r#"{"key":345, "k2": [123, true]}"#);
        let mut m = HashMap::new();
        m.insert("key".to_owned(), Plain::Number(345.0));
        m.insert("k2".to_owned(), Plain::Array(vec![Plain::Number(123.0), Plain::Bool(true)]));
        let exp = Plain::Object(m);
        assert_eq!(exp, v.unwrap());
    }
    {
        let v = parse_plain(r#"{"key":345, "k2": [123e2, true]}"#);
        let mut m = HashMap::new();
        m.insert("key".to_owned(), Plain::Number(345.0));
        m.insert("k2".to_owned(), Plain::Array(vec![Plain::Number(123e2), Plain::Bool(true)]));
        let exp = Plain::Object(m);
        assert_eq!(exp, v.unwrap());
    }
}

#[test]
fn parser_test_parsing() {
    run_parsing_cases();
}

#[test]
fn parser_lt_test_parsing() {
    run_parsing_cases();
}

fn s(x: &str) -> String {
    x.to_string()
}

#[test]
fn empty_object() {
    assert_eq!(parse("{}"), Ok(Value::Object(vec![])));
}

#[test]
fn empty_array() {
    assert_eq!(parse("[]"), Ok(Value::Array(vec![])));
}

#[test]
fn object_with_string_member() {
    assert_eq!(
        parse("{\"key\": \"value\"}"),
        Ok(Value::Object(vec![(s("key"), Value::String(s("value")))]))
    );
}

#[test]
fn object_with_array_of_literals() {
    let v = parse("{\"key\": [123, true, null, false]}").unwrap();
    assert_eq!(
        v,
        Value::Object(vec![(
            s("key"),
            Value::Array(vec![
                Value::Number(s("123")),
                Value::Bool(true),
                Value::Null,
                Value::Bool(false),
            ])
        )])
    );
    let mut m = HashMap::new();
    m.insert(
        s("key"),
        Plain::Array(vec![Plain::Number(123.0), Plain::Bool(true), Plain::Null, Plain::Bool(false)]),
    );
    assert_eq!(plain(&v), Plain::Object(m));
}

#[test]
fn two_documents_are_trailing_data() {
    assert_eq!(
        parse("{\"a\":1}{\"b\":2}"),
        Err(ParseError::Syntax(SyntaxError::TrailingData))
    );
}

#[test]
fn repeated_key_last_write_wins() {
    let v = parse("{\"k\":1,\"k\":2}").unwrap();
    assert_eq!(v, Value::Object(vec![(s("k"), Value::Number(s("2")))]));
    let mut m = HashMap::new();
    m.insert(s("k"), Plain::Number(2.0));
    assert_eq!(plain(&v), Plain::Object(m));
}

#[test]
fn repeated_key_keeps_other_members() {
    let v = parse("{\"a\":1,\"b\":true,\"a\":null}").unwrap();
    assert_eq!(
        v,
        Value::Object(vec![(s("a"), Value::Null), (s("b"), Value::Bool(true))])
    );
}

#[test]
fn whitespace_does_not_change_result() {
    assert_eq!(parse("{ }"), parse("{}"));
    assert_eq!(parse(" [ 1 ,\t2 ]\n"), parse("[1,2]"));
}

#[test]
fn unterminated_string_is_lexical_error() {
    assert_eq!(
        parse("{\"k\": \"unterminated"),
        Err(ParseError::Lex(LexError::UnterminatedString(6)))
    );
}

#[test]
fn unsupported_word_is_lexical_error() {
    assert_eq!(
        parse("[1, nope]"),
        Err(ParseError::Lex(LexError::UnsupportedToken(4, s("nope"))))
    );
}

#[test]
fn empty_input() {
    assert_eq!(parse(""), Err(ParseError::Syntax(SyntaxError::EmptyInput)));
    assert_eq!(parse("  \n\t"), Err(ParseError::Syntax(SyntaxError::EmptyInput)));
}

#[test]
fn unexpected_token() {
    assert_eq!(parse("]"), Err(ParseError::Syntax(SyntaxError::UnexpectedToken)));
    assert_eq!(parse(":"), Err(ParseError::Syntax(SyntaxError::UnexpectedToken)));
    assert_eq!(parse("[1,]"), Err(ParseError::Syntax(SyntaxError::UnexpectedToken)));
    assert_eq!(parse("["), Err(ParseError::Syntax(SyntaxError::UnexpectedToken)));
}

#[test]
fn colon_expected() {
    assert_eq!(parse("{\"a\" 1}"), Err(ParseError::Syntax(SyntaxError::ColonExpected)));
    assert_eq!(parse("{\"a\""), Err(ParseError::Syntax(SyntaxError::ColonExpected)));
}

#[test]
fn unterminated_object() {
    assert_eq!(parse("{\"a\":1"), Err(ParseError::Syntax(SyntaxError::UnterminatedObject)));
    assert_eq!(parse("{\"a\":1 \"b\":2}"), Err(ParseError::Syntax(SyntaxError::UnterminatedObject)));
}

#[test]
fn unterminated_array() {
    assert_eq!(parse("[1"), Err(ParseError::Syntax(SyntaxError::UnterminatedArray)));
    assert_eq!(parse("[1 2]"), Err(ParseError::Syntax(SyntaxError::UnterminatedArray)));
}

#[test]
fn invalid_string_key() {
    assert_eq!(parse("{1:2}"), Err(ParseError::Syntax(SyntaxError::InvalidString)));
    assert_eq!(parse("{,}"), Err(ParseError::Syntax(SyntaxError::InvalidString)));
}

#[test]
fn invalid_number() {
    assert_eq!(parse("1.2.3"), Err(ParseError::Syntax(SyntaxError::InvalidNumber)));
    assert_eq!(parse("[1e]"), Err(ParseError::Syntax(SyntaxError::InvalidNumber)));
    assert_eq!(parse("12abc"), Err(ParseError::Syntax(SyntaxError::InvalidNumber)));
}

#[test]
fn number_literal_forms() {
    assert_eq!(parse("0"), Ok(Value::Number(s("0"))));
    assert_eq!(parse("1."), Ok(Value::Number(s("1."))));
    assert_eq!(parse("2.50"), Ok(Value::Number(s("2.50"))));
    assert_eq!(parse("6E+2"), Ok(Value::Number(s("6E+2"))));
    assert_eq!(parse("7e-1"), Ok(Value::Number(s("7e-1"))));
    assert_eq!(plain(&parse("123e2").unwrap()), Plain::Number(12300.0));
}

#[test]
fn top_level_scalars() {
    assert_eq!(parse("null"), Ok(Value::Null));
    assert_eq!(parse(" true "), Ok(Value::Bool(true)));
    assert_eq!(parse("false"), Ok(Value::Bool(false)));
    assert_eq!(parse("\"\""), Ok(Value::String(s(""))));
}

#[test]
fn string_text_is_decoded_from_its_bytes() {
    assert_eq!(parse("\"h\u{e9}llo w\""), Ok(Value::String(s("h\u{e9}llo w"))));
    assert_eq!(
        parse("{\"cl\u{e9}\": \"x, y\"}"),
        Ok(Value::Object(vec![(s("cl\u{e9}"), Value::String(s("x, y")))]))
    );
}

#[test]
fn nested_structures_keep_order() {
    let v = parse("[[1,[2]],{\"a\":[]},3]").unwrap();
    assert_eq!(
        v,
        Value::Array(vec![
            Value::Array(vec![
                Value::Number(s("1")),
                Value::Array(vec![Value::Number(s("2"))]),
            ]),
            Value::Object(vec![(s("a"), Value::Array(vec![]))]),
            Value::Number(s("3")),
        ])
    );
}

#[test]
fn parse_tokens_on_hand_made_tokens() {
    let quote: &[u8] = b"\"";
    let broken = vec![
        Token { s: quote, start: 0, _type: TokenType::Quote },
        Token { s: b"x", start: 1, _type: TokenType::Number },
    ];
    assert_eq!(parse_tokens(&broken), Err(SyntaxError::InvalidString));
    let bad_number = vec![Token { s: b"1x", start: 0, _type: TokenType::Number }];
    assert_eq!(parse_tokens(&bad_number), Err(SyntaxError::InvalidNumber));
    let bad_keyword = vec![Token { s: b"nil", start: 0, _type: TokenType::Null }];
    assert_eq!(parse_tokens(&bad_keyword), Err(SyntaxError::UnexpectedToken));
    assert_eq!(parse_tokens(&[]), Err(SyntaxError::EmptyInput));
    let tokens = generate_tokens("[true]").unwrap();
    assert_eq!(parse_tokens(&tokens), Ok(Value::Array(vec![Value::Bool(true)])));
}
