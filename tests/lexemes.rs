use json_parser::lexemes::{gen_lexemes, Lexeme};
use json_parser::lexer::LexError;

fn compare_lexemes(lft: &Vec<Lexeme<'_>>, rght: &Vec<Lexeme<'_>>) {
    assert_eq!(lft.len(), rght.len());
    for i in 0..lft.len() {
        assert_eq!(lft[i], rght[i]);
    }
}

fn lx(s: &[u8], start: usize, _type: u8) -> Lexeme<'_> {
    Lexeme { s, start, _type }
}

#[test]
fn test_lexemes() {
    println!("Testing.");
    for &t in &[b'{', b'}', b'[', b']', b':', b','] {
        let bytes = &[t];
        let s = std::str::from_utf8(bytes).unwrap();
        let res = gen_lexemes(s).unwrap();
        let exp = vec![lx(bytes, 0, t)];
        compare_lexemes(&res, &exp);
    }
    {
        let res = gen_lexemes("{}").unwrap();
        let exp = vec![lx(&[b'{'], 0, b'{'), lx(&[b'}'], 1, b'}')];
        compare_lexemes(&res, &exp);
    }
    {
        let res = gen_lexemes("{     }").unwrap();
        let exp = vec![lx(&[b'{'], 0, b'{'), lx(&[b'}'], 6, b'}')];
        compare_lexemes(&res, &exp);
    }
    {
        let res = gen_lexemes("       {     }").unwrap();
        let exp = vec![lx(&[b'{'], 7, b'{'), lx(&[b'}'], 13, b'}')];
        compare_lexemes(&res, &exp);
    }
    {
        let res = gen_lexemes("{[]}").unwrap();
        let exp = vec![
            lx(&[b'{'], 0, b'{'),
            lx(&[b'['], 1, b'['),
            lx(&[b']'], 2, b']'),
            lx(&[b'}'], 3, b'}'),
        ];
        compare_lexemes(&res, &exp);
    }
    {
        let res = gen_lexemes("{  []}").unwrap();
        let exp = vec![
            lx(&[b'{'], 0, b'{'),
            lx(&[b'['], 3, b'['),
            lx(&[b']'], 4, b']'),
            lx(&[b'}'], 5, b'}'),
        ];
        compare_lexemes(&res, &exp);
    }
    {
        let res = gen_lexemes("{  [    ]}").unwrap();
        let exp = vec![
            lx(&[b'{'], 0, b'{'),
            lx(&[b'['], 3, b'['),
            lx(&[b']'], 8, b']'),
            lx(&[b'}'], 9, b'}'),
        ];
        compare_lexemes(&res, &exp);
    }
    {
        let res = gen_lexemes("{[true]}").unwrap();
        let exp = vec![
            lx(&[b'{'], 0, b'{'),
            lx(&[b'['], 1, b'['),
            lx(&[b't', b'r', b'u', b'e'], 2, b't'),
            lx(&[b']'], 6, b']'),
            lx(&[b'}'], 7, b'}'),
        ];
        compare_lexemes(&res, &exp);
    }
    {
        let res = gen_lexemes("{[true, false]}").unwrap();
        let exp = vec![
            lx(&[b'{'], 0, b'{'),
            lx(&[b'['], 1, b'['),
            lx(&[b't', b'r', b'u', b'e'], 2, b't'),
            lx(&[b','], 6, b','),
            lx(&[b'f', b'a', b'l', b's', b'e'], 8, b't'),
            lx(&[b']'], 13, b']'),
            lx(&[b'}'], 14, b'}'),
        ];
        compare_lexemes(&res, &exp);
    }
    {
        let res = gen_lexemes("{[\"k1\":true]}").unwrap();
        let exp = vec![
            lx(&[b'{'], 0, b'{'),
            lx(&[b'['], 1, b'['),
            lx(&[b'"'], 2, b'"'),
            lx(&[b'k', b'1'], 3, b's'),
            lx(&[b'"'], 5, b'"'),
            lx(&[b':'], 6, b':'),
            lx(&[b't', b'r', b'u', b'e'], 7, b't'),
            lx(&[b']'], 11, b']'),
            lx(&[b'}'], 12, b'}'),
        ];
        compare_lexemes(&res, &exp);
    }
}

#[test]
fn lexemes_tag_numbers_and_null() {
    let res = gen_lexemes("[null, 42]").unwrap();
    let exp = vec![
        lx(b"[", 0, b'['),
        lx(b"null", 1, b'n'),
        lx(b",", 5, b','),
        lx(b"42", 7, b'u'),
        lx(b"]", 9, b']'),
    ];
    compare_lexemes(&res, &exp);
}

#[test]
fn lexemes_fail_where_tokens_fail() {
    assert_eq!(gen_lexemes("[\"open"), Err(LexError::UnterminatedString(1)));
    assert_eq!(gen_lexemes("yes"), Err(LexError::UnsupportedToken(0, "yes".to_string())));
}
