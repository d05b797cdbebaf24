use gunnyscript::{
    parse_document, Date, DateTime, Document, DocumentedProperty, Error, Fixed, Lexer, Located,
    MaybeLiteralString, Number, SimpleValue, Token, Value, ValueString,
};

fn value_of(s: &str) -> Result<SimpleValue, Located<Error>> {
    match Lexer::from(s).next().unwrap()? {
        Token::Value(v) => Ok(v),
        other => panic!("not a value: {:?}", other),
    }
}

fn err_of(s: &str) -> Error {
    value_of(s).unwrap_err().err
}

#[test]
fn numbers_by_form() {
    assert_eq!(value_of("0xDEADBEEF").unwrap(), SimpleValue::Number(Number::Unsigned(3735928559)));
    assert_eq!(value_of("0755").unwrap(), SimpleValue::Number(Number::Unsigned(493)));
    assert_eq!(value_of("-1").unwrap(), SimpleValue::Number(Number::Signed(-1)));
    assert_eq!(value_of("42").unwrap(), SimpleValue::Number(Number::Unsigned(42)));
    assert_eq!(value_of("0").unwrap(), SimpleValue::Number(Number::Unsigned(0)));
    assert_eq!(
        value_of("18446744073709551615").unwrap(),
        SimpleValue::Number(Number::Unsigned(u64::MAX))
    );
    assert_eq!(
        value_of("-9223372036854775808").unwrap(),
        SimpleValue::Number(Number::Signed(i64::MIN))
    );
}

#[test]
fn fixed_point_round_trip() {
    let expected = fixed::types::I64F64::from_str("3.14159").unwrap();
    match value_of("3.14159").unwrap() {
        SimpleValue::Number(Number::Fixed(f)) => {
            assert_eq!(f.bits, expected.to_bits());
            assert_eq!(fixed::types::I64F64::from_bits(f.bits).to_string(), "3.14159");
        }
        other => panic!("unexpected {:?}", other),
    }
    assert_eq!(
        value_of("1.5").unwrap(),
        SimpleValue::Number(Number::Fixed(Fixed { bits: 3 << 63 }))
    );
}

#[test]
fn number_errors() {
    assert_eq!(err_of("0xZZ"), Error::InvalidHexNumber);
    assert_eq!(err_of("-1a"), Error::InvalidSignedNumber);
    assert_eq!(err_of("12a"), Error::InvalidUnsignedNumber);
    assert_eq!(err_of("1.2.3"), Error::InvalidFixedPointNumber);
    assert_eq!(err_of("09"), Error::InvalidOctalNumber);
    assert_eq!(err_of("18446744073709551616"), Error::InvalidUnsignedNumber);
}

#[test]
fn number_conversions() {
    assert_eq!(Number::Unsigned(5).as_u64(), Some(5));
    assert_eq!(Number::Signed(-5).as_u64(), None);
    assert_eq!(Number::Signed(-5).as_i64(), Some(-5));
    assert_eq!(Number::Unsigned(u64::MAX).as_i64(), None);
    assert_eq!(Number::Fixed(Fixed { bits: 3 << 64 }).as_u64(), Some(3));
    assert_eq!(Number::Fixed(Fixed { bits: -(3 << 64) }).as_i64(), Some(-3));
    assert_eq!(Number::Fixed(Fixed { bits: 3 << 63 }).as_i64(), None);
    assert_eq!(Number::Fixed(Fixed { bits: i128::MIN }).as_i64(), Some(i64::MIN));
    assert_eq!(Number::Signed(-2).as_fixed(), Some(Fixed { bits: -(2 << 64) }));
    assert_eq!(Number::Unsigned(u64::MAX).as_fixed(), None);
    assert_ne!(Number::Unsigned(1), Number::Signed(1));
}

#[test]
fn dates() {
    assert_eq!(
        value_of("2020-01-02").unwrap(),
        SimpleValue::Date(Date { year: 2020, month: 1, day: 2 })
    );
    assert_eq!(
        value_of("2024-02-29").unwrap(),
        SimpleValue::Date(Date { year: 2024, month: 2, day: 29 })
    );
    assert_eq!(err_of("2023-02-29"), Error::InvalidDate);
    assert_eq!(err_of("2020-13-01"), Error::InvalidDate);
    assert_eq!(err_of("2020-02-30"), Error::InvalidDate);
    assert_eq!(err_of("2020-01-02-03"), Error::InvalidDate);
    assert_eq!(err_of("--01-02"), Error::MissingYearInDate);
    assert_eq!(err_of("2020--02"), Error::MissingMonthInDate);
    assert_eq!(err_of("2020-01-"), Error::MissingDayInDate);
}

#[test]
fn date_times() {
    let utc = DateTime {
        year: 2020,
        month: 1,
        day: 2,
        hour: 12,
        min: 54,
        sec: 0,
        nanos: 0,
        offset_positive: true,
        offset_hours: 0,
        offset_mins: 0,
    };
    assert_eq!(value_of("2020-01-02T12:54:00Z").unwrap(), SimpleValue::DateTime(utc));
    let east = DateTime { offset_positive: false, offset_hours: 5, ..utc };
    assert_eq!(value_of("2020-01-02T12:54:00-05:00").unwrap(), SimpleValue::DateTime(east));
    assert_eq!(err_of("2020-01-02T25:00:00Z"), Error::InvalidDateTime);
}

#[test]
fn doc_comments_attach_to_the_next_property() {
    let d = parse_document("/// line one\n/// line two\nfoo 1").unwrap();
    assert_eq!(
        d,
        Document {
            docstring: None,
            value: Value::Object(vec![DocumentedProperty {
                docstring: Some(" line one\n line two\n".to_string()),
                id: "foo".to_string(),
                value: Value::Number(Number::Unsigned(1)),
            }]),
        }
    );
}

#[test]
fn minimal_object_document() {
    let d = parse_document("{ a 1, b true }").unwrap();
    let prop = |id: &str, value: Value| DocumentedProperty { docstring: None, id: id.to_string(), value };
    assert_eq!(
        d.value,
        Value::Object(vec![
            prop("a", Value::Number(Number::Unsigned(1))),
            prop("b", Value::Bool(true)),
        ])
    );
}

#[test]
fn nested_document() {
    let d = parse_document("/// root\n[1, \"s\", #\"l\"#, d\"x\", [], {}]").unwrap();
    assert_eq!(d.docstring, Some(" root\n".to_string()));
    assert_eq!(
        d.value,
        Value::Array(vec![
            Value::Number(Number::Unsigned(1)),
            Value::String(ValueString::Regular(MaybeLiteralString::NonLiteral("s".to_string()))),
            Value::String(ValueString::Regular(MaybeLiteralString::Literal("l".to_string()))),
            Value::String(ValueString::Dedent(MaybeLiteralString::NonLiteral("x".to_string()))),
            Value::Array(vec![]),
            Value::Object(vec![]),
        ])
    );
}

#[test]
fn duplicate_property_fails() {
    assert_eq!(
        parse_document("{ a 1, a 2 }"),
        Err(Located::new(1, Error::DuplicatePropertyName))
    );
    assert_eq!(
        parse_document("a 1\na 2"),
        Err(Located::new(2, Error::DuplicatePropertyName))
    );
}

#[test]
fn truncated_document_fails() {
    assert_eq!(parse_document("{ a 1"), Err(Located::new(1, Error::UnexpectedEof)));
    assert_eq!(parse_document(""), Err(Located::new(1, Error::UnexpectedEof)));
    assert_eq!(parse_document("a"), Err(Located::new(1, Error::UnexpectedEof)));
}

#[test]
fn dangling_doc_comment_fails() {
    assert_eq!(
        parse_document("{ a 1\n/// x\n}"),
        Err(Located::new(3, Error::DanglingDocstring))
    );
    assert_eq!(parse_document("1 /// x"), Err(Located::new(1, Error::DanglingDocstring)));
}

#[test]
fn second_root_value_fails() {
    assert_eq!(parse_document("1 2"), Err(Located::new(1, Error::UnexpectedChar)));
}

#[test]
fn document_tokens_rebuild_the_document() {
    let text = "/// top\n{ /// about a\n a [1, { b null }], c d\"x\" }";
    let d = parse_document(text).unwrap();
    let tokens = d.tokens();
    assert_eq!(tokens[0], Token::DocstringLine(" top\n".to_string()));
    assert_eq!(tokens[1], Token::ObjectStart);
    let mut builder = gunnyscript::Builder::new();
    for t in tokens {
        builder.apply(t).unwrap();
    }
    assert_eq!(builder.finish().unwrap(), d);
}
