use json_parser::lexer::{generate_tokens, LexError, Token, TokenType};

fn compare_tokens(left: &Vec<Token<'_>>, right: &Vec<Token<'_>>) {
    assert_eq!(left.len(), right.len());
    for i in 0..left.len() {
        assert_eq!(left[i], right[i]);
    }
}

fn delimiter_type(b: u8) -> TokenType {
    match b {
        b'{' => TokenType::LeftBracket,
        b'}' => TokenType::RightBracket,
        b'[' => TokenType::LeftSquareBracket,
        b']' => TokenType::RightSquareBracket,
        b':' => TokenType::Colon,
        b',' => TokenType::Comma,
        _ => unreachable!(),
    }
}

fn tok(s: &[u8], start: usize, _type: TokenType) -> Token<'_> {
    Token { s, start, _type }
}

#[test]
fn test_tokenize() {
    println!("Testing.");
    for &t in &[b'{', b'}', b'[', b']', b':', b','] {
        let bytes = &[t];
        let s = std::str::from_utf8(bytes).unwrap();
        let res = generate_tokens(s).unwrap();
        let exp = vec![tok(bytes, 0, delimiter_type(t))];
        compare_tokens(&res, &exp);
    }
    {
        let res = generate_tokens("{}").unwrap();
        let exp = vec![tok(&[b'{'], 0, TokenType::LeftBracket), tok(&[b'}'], 1, TokenType::RightBracket)];
        compare_tokens(&res, &exp);
    }
    {
        let res = generate_tokens("{     }").unwrap();
        let exp = vec![tok(&[b'{'], 0, TokenType::LeftBracket), tok(&[b'}'], 6, TokenType::RightBracket)];
        compare_tokens(&res, &exp);
    }
    {
        let res = generate_tokens("       {     }").unwrap();
        let exp = vec![tok(&[b'{'], 7, TokenType::LeftBracket), tok(&[b'}'], 13, TokenType::RightBracket)];
        compare_tokens(&res, &exp);
    }
    {
        let res = generate_tokens("{[]}").unwrap();
        let exp = vec![
            tok(&[b'{'], 0, TokenType::LeftBracket),
            tok(&[b'['], 1, TokenType::LeftSquareBracket),
            tok(&[b']'], 2, TokenType::RightSquareBracket),
            tok(&[b'}'], 3, TokenType::RightBracket),
        ];
        compare_tokens(&res, &exp);
    }
    {
        let res = generate_tokens("{  []}").unwrap();
        let exp = vec![
            tok(&[b'{'], 0, TokenType::LeftBracket),
            tok(&[b'['], 3, TokenType::LeftSquareBracket),
            tok(&[b']'], 4, TokenType::RightSquareBracket),
            tok(&[b'}'], 5, TokenType::RightBracket),
        ];
        compare_tokens(&res, &exp);
    }
    {
        let res = generate_tokens("{  [    ]}").unwrap();
        let exp = vec![
            tok(&[b'{'], 0, TokenType::LeftBracket),
            tok(&[b'['], 3, TokenType::LeftSquareBracket),
            tok(&[b']'], 8, TokenType::RightSquareBracket),
            tok(&[b'}'], 9, TokenType::RightBracket),
        ];
        compare_tokens(&res, &exp);
    }
    {
        let res = generate_tokens("{[true]}").unwrap();
        let exp = vec![
            tok(&[b'{'], 0, TokenType::LeftBracket),
            tok(&[b'['], 1, TokenType::LeftSquareBracket),
            tok(&[b't', b'r', b'u', b'e'], 2, TokenType::Boolean),
            tok(&[b']'], 6, TokenType::RightSquareBracket),
            tok(&[b'}'], 7, TokenType::RightBracket),
        ];
        compare_tokens(&res, &exp);
    }
    {
        let res = generate_tokens("{[true, false]}").unwrap();
        let exp = vec![
            tok(&[b'{'], 0, TokenType::LeftBracket),
            tok(&[b'['], 1, TokenType::LeftSquareBracket),
            tok(&[b't', b'r', b'u', b'e'], 2, TokenType::Boolean),
            tok(&[b','], 6, TokenType::Comma),
            tok(&[b'f', b'a', b'l', b's', b'e'], 8, TokenType::Boolean),
            tok(&[b']'], 13, TokenType::RightSquareBracket),
            tok(&[b'}'], 14, TokenType::RightBracket),
        ];
        compare_tokens(&res, &exp);
    }
    {
        let res = generate_tokens("{[\"k1\":true]}").unwrap();
        let exp = vec![
            tok(&[b'{'], 0, TokenType::LeftBracket),
            tok(&[b'['], 1, TokenType::LeftSquareBracket),
            tok(&[b'"'], 2, TokenType::Quote),
            tok(&[b'k', b'1'], 3, TokenType::String),
            tok(&[b'"'], 5, TokenType::Quote),
            tok(&[b':'], 6, TokenType::Colon),
            tok(&[b't', b'r', b'u', b'e'], 7, TokenType::Boolean),
            tok(&[b']'], 11, TokenType::RightSquareBracket),
            tok(&[b'}'], 12, TokenType::RightBracket),
        ];
        compare_tokens(&res, &exp);
    }
}

#[test]
fn test_tokenize_split_inclusive() {
    {
        // A lone quote is never closed: a lexical error, not a silent truncation.
        let res = generate_tokens(r#"""#);
        assert_eq!(res, Err(LexError::UnterminatedString(0)));
    }
    {
        let res = generate_tokens("{     }").unwrap();
        let exp = vec![tok(&[b'{'], 0, TokenType::LeftBracket), tok(&[b'}'], 6, TokenType::RightBracket)];
        compare_tokens(&res, &exp);
    }
}

#[test]
fn tokenize_empty_and_whitespace() {
    assert_eq!(generate_tokens("").unwrap().len(), 0);
    assert_eq!(generate_tokens(" \t\r\n ").unwrap().len(), 0);
}

#[test]
fn tokenize_word_at_end_of_input() {
    let res = generate_tokens("123").unwrap();
    compare_tokens(&res, &vec![tok(b"123", 0, TokenType::Number)]);
    let res = generate_tokens(" null").unwrap();
    compare_tokens(&res, &vec![tok(b"null", 1, TokenType::Null)]);
}

#[test]
fn tokenize_number_keeps_literal_text() {
    let res = generate_tokens("[12.5e-3,7]").unwrap();
    let exp = vec![
        tok(b"[", 0, TokenType::LeftSquareBracket),
        tok(b"12.5e-3", 1, TokenType::Number),
        tok(b",", 8, TokenType::Comma),
        tok(b"7", 9, TokenType::Number),
        tok(b"]", 10, TokenType::RightSquareBracket),
    ];
    compare_tokens(&res, &exp);
}

#[test]
fn tokenize_empty_string_has_empty_span() {
    let res = generate_tokens("\"\"").unwrap();
    let exp = vec![
        tok(b"\"", 0, TokenType::Quote),
        tok(b"", 1, TokenType::String),
        tok(b"\"", 1, TokenType::Quote),
    ];
    compare_tokens(&res, &exp);
}

#[test]
fn tokenize_string_keeps_spaces_and_delimiters() {
    let res = generate_tokens("\"a, b\"").unwrap();
    let exp = vec![
        tok(b"\"", 0, TokenType::Quote),
        tok(b"a, b", 1, TokenType::String),
        tok(b"\"", 5, TokenType::Quote),
    ];
    compare_tokens(&res, &exp);
}

#[test]
fn tokenize_unsupported_word() {
    assert_eq!(
        generate_tokens("[nul]"),
        Err(LexError::UnsupportedToken(1, "nul".to_string()))
    );
    assert_eq!(
        generate_tokens("  True"),
        Err(LexError::UnsupportedToken(2, "True".to_string()))
    );
}

#[test]
fn tokenize_unterminated_string_offset() {
    assert_eq!(
        generate_tokens("{\"k\": \"unterminated"),
        Err(LexError::UnterminatedString(6))
    );
}

#[test]
fn token_spans_rebuild_input() {
    let input = " { \"k 1\" :\t[1.5, true , null]\n}  ";
    let tokens = generate_tokens(input).unwrap();
    let bytes = input.as_bytes();
    let mut rebuilt: Vec<u8> = Vec::new();
    let mut pos = 0;
    for t in &tokens {
        assert!(pos <= t.start);
        for &b in &bytes[pos..t.start] {
            assert!(b == b' ' || b == b'\t' || b == b'\n' || b == b'\r');
            rebuilt.push(b);
        }
        assert_eq!(t.s, &bytes[t.start..t.start + t.s.len()]);
        rebuilt.extend_from_slice(t.s);
        pos = t.start + t.s.len();
    }
    for &b in &bytes[pos..] {
        assert!(b == b' ' || b == b'\t' || b == b'\n' || b == b'\r');
        rebuilt.push(b);
    }
    assert_eq!(rebuilt, bytes.to_vec());
}
