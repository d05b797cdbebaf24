use gunnyscript::{located_err, Error, Lexed, Lexer, Located, Number, SimpleValue, Token};

fn lex_all(s: &str) -> Result<Vec<Token>, Located<Error>> {
    let mut lexer = Lexer::from(s);
    let mut out = Vec::new();
    while let Some(r) = lexer.next() {
        out.push(r?);
    }
    Ok(out)
}

fn first(s: &str) -> Result<Token, Located<Error>> {
    Lexer::from(s).next().unwrap()
}

fn doc(s: &str) -> Token {
    Token::DocstringLine(s.to_string())
}

fn prop(s: &str) -> Token {
    Token::PropertyId(s.to_string())
}

fn string(s: &str) -> Token {
    Token::Value(SimpleValue::String(s.to_string()))
}

#[test]
fn comment_and_whitespace_lexing() {
    let cases: Vec<(&str, Vec<Token>)> = vec![
        (" ", vec![]),
        ("\r", vec![]),
        (" \t\r", vec![]),
        ("// A comment", vec![]),
        ("/*\nA multi-line comment\n*/", vec![]),
        ("/// Docstring", vec![doc(" Docstring")]),
        (
            r#"
/*
 * A multi-line comment
 */
/// A multi-line
/// docstring

// A single-line comment
                "#,
            vec![doc(" A multi-line\n"), doc(" docstring\n")],
        ),
    ];
    for (i, (tc, expected)) in cases.into_iter().enumerate() {
        let actual = lex_all(tc).expect(tc);
        assert_eq!(expected, actual, "test case {}", i);
    }
}

#[test]
fn unexpected_char() {
    for tc in ["😂", "$", "   $"] {
        let r = first(tc);
        assert_eq!(r, located_err(1, Error::UnexpectedChar));
    }
}

#[test]
fn null_lexing() {
    for tc in ["null", "   null", "null   ", "\n\nnull\n\n"] {
        let t = first(tc).unwrap();
        assert_eq!(t, Token::Value(SimpleValue::Null));
    }
}

#[test]
fn bool_lexing() {
    let cases = [("true", true), ("false", false), ("   true", true), ("\n\ntrue", true)];
    for (tc, expected) in cases {
        let t = first(tc).unwrap();
        assert_eq!(t, Token::Value(SimpleValue::Bool(expected)));
    }
}

#[test]
fn property_lexing() {
    let cases: Vec<(&str, Vec<Token>)> = vec![
        ("empty null", vec![prop("empty"), Token::Value(SimpleValue::Null)]),
        (
            "some-bool true\nanother-bool false",
            vec![
                prop("some-bool"),
                Token::Value(SimpleValue::Bool(true)),
                prop("another-bool"),
                Token::Value(SimpleValue::Bool(false)),
            ],
        ),
    ];
    for (i, (tc, expected)) in cases.into_iter().enumerate() {
        let actual = lex_all(tc).expect(tc);
        assert_eq!(expected, actual, "test case {}", i);
    }
}

#[test]
fn string_lexing() {
    let lit = |s: &str| Token::Value(SimpleValue::LiteralString(s.to_string()));
    let cases: Vec<(&str, Vec<Token>)> = vec![
        ("\"string\"", vec![string("string")]),
        ("a-string \"string\"", vec![prop("a-string"), string("string")]),
        (
            "literal #\"a literal string\"#",
            vec![prop("literal"), lit("a literal string")],
        ),
        (
            "literal ##\"a #\"literal\"# string\"##",
            vec![prop("literal"), lit("a #\"literal\"# string")],
        ),
        (
            "lit #\"literal\"#\nstr \"string\"",
            vec![prop("lit"), lit("literal"), prop("str"), string("string")],
        ),
        (
            "d\"dedent\"",
            vec![Token::Value(SimpleValue::DedentString("dedent".to_string()))],
        ),
        (
            "dedent d\"dedent\"",
            vec![
                prop("dedent"),
                Token::Value(SimpleValue::DedentString("dedent".to_string())),
            ],
        ),
        (
            "d#\"dedent literal\"#",
            vec![Token::Value(SimpleValue::DedentLiteralString(
                "dedent literal".to_string(),
            ))],
        ),
        (
            "dedent d##\"dedent #\"literal\"#\"##",
            vec![
                prop("dedent"),
                Token::Value(SimpleValue::DedentLiteralString(
                    "dedent #\"literal\"#".to_string(),
                )),
            ],
        ),
    ];
    for (i, (tc, expected)) in cases.into_iter().enumerate() {
        let actual = lex_all(tc).expect(tc);
        assert_eq!(expected, actual, "test case {}", i);
    }
}

#[test]
fn whitespace_around_keywords_changes_nothing() {
    let cases = [
        ("null", SimpleValue::Null),
        ("true", SimpleValue::Bool(true)),
        ("false", SimpleValue::Bool(false)),
    ];
    for (kw, expected) in cases {
        for (pre, post) in [("", ""), ("  ", ""), ("\t", " \t"), ("\n", "\n"), ("", "  ")] {
            let s = format!("{}{}{}", pre, kw, post);
            assert_eq!(lex_all(&s).unwrap(), vec![Token::Value(expected.clone())], "{:?}", s);
        }
    }
}

#[test]
fn minimal_object_events() {
    let actual = lex_all("{ a 1, b true }").unwrap();
    assert_eq!(
        actual,
        vec![
            Token::ObjectStart,
            prop("a"),
            Token::Value(SimpleValue::Number(Number::Unsigned(1))),
            prop("b"),
            Token::Value(SimpleValue::Bool(true)),
            Token::ObjectEnd,
        ]
    );
}

#[test]
fn arrays_and_nesting() {
    let actual = lex_all("[1, [null], { x \"y\" }]").unwrap();
    assert_eq!(
        actual,
        vec![
            Token::ArrayStart,
            Token::Value(SimpleValue::Number(Number::Unsigned(1))),
            Token::ArrayStart,
            Token::Value(SimpleValue::Null),
            Token::ArrayEnd,
            Token::ObjectStart,
            prop("x"),
            string("y"),
            Token::ObjectEnd,
            Token::ArrayEnd,
        ]
    );
}

#[test]
fn literal_string_fences() {
    assert_eq!(
        first("#\"abc\"#").unwrap(),
        Token::Value(SimpleValue::LiteralString("abc".to_string()))
    );
    assert_eq!(
        first("##\"a#\"b\"#c\"##").unwrap(),
        Token::Value(SimpleValue::LiteralString("a#\"b\"#c".to_string()))
    );
    // A shorter closing fence is content, so the string never ends.
    assert_eq!(first("##\"abc\"#"), located_err(1, Error::MissingTerminator));
    let long = format!("{}\"x\"{}", "#".repeat(21), "#".repeat(21));
    assert_eq!(
        first(&long),
        located_err(1, Error::StringLiteralDelimTooLong { len: 21, max_len: 20 })
    );
    let longest = format!("{}\"x\"{}", "#".repeat(20), "#".repeat(20));
    assert_eq!(
        first(&longest).unwrap(),
        Token::Value(SimpleValue::LiteralString("x".to_string()))
    );
}

#[test]
fn escapes_and_multibyte_text() {
    assert_eq!(first("\"a\\\"b\\n\\t\\\\\\0\"").unwrap(), string("a\"b\n\t\\\0"));
    assert_eq!(first("\"héllo ✓\"").unwrap(), string("héllo ✓"));
    assert_eq!(first("\"bad \\q\""), located_err(1, Error::InvalidEscapeSequence));
    assert_eq!(first("\"abc"), located_err(1, Error::MissingTerminator));
}

#[test]
fn split_string_is_incomplete_then_whole() {
    let mut lexer = Lexer::new();
    lexer.feed(b"\"hel");
    assert_eq!(lexer.next_step(), Ok(Lexed::Incomplete));
    assert_eq!(lexer.position(), 0);
    lexer.feed(b"lo\"");
    assert_eq!(lexer.next_step(), Ok(Lexed::Token(string("hello"))));
}

#[test]
fn split_multibyte_char_is_incomplete() {
    let mut lexer = Lexer::new();
    lexer.feed(&[b'"', 0xC3]);
    assert_eq!(lexer.next_step(), Ok(Lexed::Incomplete));
    lexer.feed(&[0xA9, b'"']);
    assert_eq!(lexer.next_step(), Ok(Lexed::Token(string("é"))));
    lexer.finish();
    assert_eq!(lexer.next_step(), Ok(Lexed::Done));
}

#[test]
fn invalid_lead_byte_is_an_encoding_error() {
    let mut lexer = Lexer::new();
    lexer.feed(&[0xFF]);
    lexer.finish();
    assert_eq!(lexer.next_step(), Err(Located::new(1, Error::InvalidUtf8)));

    let mut lexer = Lexer::new();
    lexer.feed(b"a 1\nb \"x");
    lexer.feed(&[0xFF]);
    lexer.feed(b"\"");
    lexer.finish();
    assert!(matches!(lexer.next_step(), Ok(Lexed::Token(_))));
    assert!(matches!(lexer.next_step(), Ok(Lexed::Token(_))));
    assert!(matches!(lexer.next_step(), Ok(Lexed::Token(_))));
    assert_eq!(lexer.next_step(), Err(Located::new(2, Error::InvalidUtf8)));
}

#[test]
fn unbalanced_brackets_truncation_versus_incomplete() {
    let mut lexer = Lexer::new();
    lexer.feed(b"{ a 1");
    assert_eq!(lexer.next_step(), Ok(Lexed::Token(Token::ObjectStart)));
    assert_eq!(lexer.next_step(), Ok(Lexed::Token(prop("a"))));
    // The number could still go on.
    assert_eq!(lexer.next_step(), Ok(Lexed::Incomplete));
    lexer.finish();
    assert_eq!(
        lexer.next_step(),
        Ok(Lexed::Token(Token::Value(SimpleValue::Number(Number::Unsigned(1)))))
    );
    assert_eq!(lexer.next_step(), Err(Located::new(1, Error::UnexpectedEof)));
}

#[test]
fn blank_lines_yield_linespace() {
    let actual = lex_all("a 1\n\nb 2").unwrap();
    assert_eq!(
        actual,
        vec![
            prop("a"),
            Token::Value(SimpleValue::Number(Number::Unsigned(1))),
            Token::Linespace,
            prop("b"),
            Token::Value(SimpleValue::Number(Number::Unsigned(2))),
        ]
    );
}

#[test]
fn identifier_errors() {
    assert_eq!(first("[foo]").ok(), Some(Token::ArrayStart));
    assert_eq!(lex_all("[foo]"), Err(Located::new(1, Error::InvalidIdentifier)));
    assert_eq!(lex_all("{ 1 2 }"), Err(Located::new(1, Error::InvalidPropertyId)));
    assert_eq!(lex_all("a\"b\" 1"), Err(Located::new(1, Error::InvalidPropertyId)));
    assert_eq!(lex_all("null$"), Err(Located::new(1, Error::UnexpectedChar)));
    assert_eq!(lex_all("/x"), Err(Located::new(1, Error::UnexpectedChar)));
    assert_eq!(lex_all("/* open"), Err(Located::new(1, Error::MissingTerminator)));
    assert_eq!(lex_all("a 1,"), Err(Located::new(1, Error::UnexpectedChar)));
}

#[test]
fn long_fence_at_end_of_buffer_waits_for_more() {
    let mut lexer = Lexer::new();
    lexer.feed("#".repeat(21).as_bytes());
    assert_eq!(lexer.next_step(), Ok(Lexed::Incomplete));
    lexer.feed(b"#\"x\"");
    assert_eq!(
        lexer.next_step(),
        Err(Located::new(1, Error::StringLiteralDelimTooLong { len: 22, max_len: 20 }))
    );
}

#[test]
fn retried_step_matches_single_pass() {
    let whole = "{ /// doc\n  key #\"a\"# // c\n  n -12 }";
    let expected = lex_all(whole).unwrap();
    let mut lexer = Lexer::new();
    let mut got = Vec::new();
    for b in whole.as_bytes() {
        lexer.feed(&[*b]);
        loop {
            match lexer.next_step().unwrap() {
                Lexed::Token(t) => got.push(t),
                Lexed::Incomplete => break,
                Lexed::Done => unreachable!(),
            }
        }
    }
    lexer.finish();
    loop {
        match lexer.next_step().unwrap() {
            Lexed::Token(t) => got.push(t),
            Lexed::Done => break,
            Lexed::Incomplete => unreachable!(),
        }
    }
    assert_eq!(got, expected);
}

#[test]
fn lexer_reports_position_and_line() {
    let mut lexer = Lexer::from("a 1\n\n  b 2");
    assert!(lexer.is_complete());
    assert_eq!(lexer.line(), 1);
    lexer.next();
    lexer.next();
    assert_eq!(lexer.position(), 3);
    assert_eq!(lexer.next(), Some(Ok(Token::Linespace)));
    assert_eq!(lexer.line(), 3);
    assert_eq!(lexer.next(), Some(Ok(prop("b"))));
    assert_eq!(lexer.next(), Some(Ok(Token::Value(SimpleValue::Number(Number::Unsigned(2))))));
    assert_eq!(lexer.next(), None);
}
