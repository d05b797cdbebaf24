use gunnyscript::{Error, Lexer, Located};

#[test]
fn peek_to_len() {
    let mut lexer = Lexer::from("a test string");
    let peek = lexer.peek_to_len(6).unwrap();
    assert_eq!(peek.slice, b"a test");
    assert_eq!(peek.from, 0);
    assert_eq!(peek.lines, 0);

    lexer.advance(peek);
    let peek = lexer.peek_to_len(4).unwrap();
    assert_eq!(peek.slice, b" str");
    assert_eq!(peek.from, 6);
    assert_eq!(peek.lines, 0);
}

#[test]
fn peek_until_match() {
    let cases: &[(&str, &str, &str)] = &[
        ("a test string", "test", "a test"),
        ("a test string", "str", "a test str"),
    ];
    for (tc, opt, expected) in cases {
        let lexer = Lexer::from(tc);
        let peek = lexer
            .peek_until_match(&[opt.as_bytes()], &[], true, true)
            .unwrap();
        assert_eq!(peek.slice, expected.as_bytes());
    }
}

#[test]
fn peek_until_match_options() {
    let lexer = Lexer::from("ab\\\"cd\"ef\nx");
    let p = lexer.peek_until_match(&[b"\""], &[b"\\\""], false, true).unwrap();
    assert_eq!(p.slice, b"ab\\\"cd");
    let p = lexer.peek_until_match(&[b"zz"], &[], true, false).unwrap();
    assert_eq!(p.slice, b"ab\\\"cd\"ef\nx");
    assert_eq!(p.lines, 1);
    assert_eq!(
        lexer.peek_until_match(&[b"zz"], &[], true, true),
        Err(Located::new(1, Error::MissingTerminator))
    );
    let lexer = Lexer::from("x\u{e9}yz");
    let p = lexer.peek_to_len(3).unwrap();
    assert_eq!(p.slice, "x\u{e9}y".as_bytes());
    assert_eq!(lexer.peek_to_len(10).unwrap().slice, "x\u{e9}yz".as_bytes());
}

#[test]
fn peek_until_not_match_runs() {
    let lexer = Lexer::from("###\"x\"###");
    let p = lexer.peek_until_not_match(&[b"#"]).unwrap();
    assert_eq!(p.slice, b"###");
    assert_eq!(p.from, 0);
    let lexer = Lexer::from("##");
    assert_eq!(
        lexer.peek_until_not_match(&[b"#"]),
        Err(Located::new(1, Error::MissingTerminator))
    );
    let lexer = Lexer::from("x");
    assert_eq!(lexer.peek_until_not_match(&[b"#"]).unwrap().slice, b"");
}
