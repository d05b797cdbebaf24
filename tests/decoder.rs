use gunnyscript::encoding::Decoded;
use gunnyscript::{Error, Located, Utf8Decoder};

#[test]
fn decodes_characters_and_counts_lines() {
    let mut d = Utf8Decoder::from("a\né✓😂");
    assert_eq!(d.next(), Some(Ok(vec![b'a'])));
    assert_eq!(d.line(), 1);
    assert_eq!(d.next(), Some(Ok(vec![b'\n'])));
    assert_eq!(d.line(), 2);
    assert_eq!(d.next(), Some(Ok("é".as_bytes().to_vec())));
    assert_eq!(d.next(), Some(Ok("✓".as_bytes().to_vec())));
    assert_eq!(d.next(), Some(Ok("😂".as_bytes().to_vec())));
    assert!(d.eof());
    assert_eq!(d.next(), None);
}

#[test]
fn incomplete_and_invalid_sequences() {
    let mut d = Utf8Decoder::from("");
    d.feed(&[0xE2, 0x82]);
    assert_eq!(d.next(), Some(Err(Located::new(1, Error::IncompleteUtf8Char))));
    assert_eq!(d.pos(), 0);
    d.feed(&[0xAC]);
    assert_eq!(d.next(), Some(Ok(vec![0xE2, 0x82, 0xAC])));

    for bad in [vec![0xFF], vec![0x80], vec![0xC0, 0x80], vec![0xED, 0xA0, 0x80], vec![0xE2, 0x41, 0x41]] {
        let mut d = Utf8Decoder::from("");
        d.feed(&bad);
        assert_eq!(d.next(), Some(Err(Located::new(1, Error::InvalidUtf8))), "{:?}", bad);
    }
}

#[test]
fn peeking_does_not_consume() {
    let mut d = Utf8Decoder::from("é!");
    assert_eq!(d.peek(), Some(Decoded::Char(2)));
    assert_eq!(d.pos(), 0);
    d.next();
    assert_eq!(d.peek(), Some(Decoded::Char(1)));
    d.next();
    assert_eq!(d.peek(), None);
}

#[test]
fn errors_carry_lines() {
    assert_eq!(Error::UnexpectedEof.located(7), Located::new(7, Error::UnexpectedEof));
    assert_eq!(
        gunnyscript::located_err::<(), Error>(3, Error::InvalidDate),
        Err(Located { line: 3, err: Error::InvalidDate })
    );
}
