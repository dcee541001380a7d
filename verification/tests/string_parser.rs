use dbgcore::string_parser::{parse_json_string_literal, parse_string_literal, ParseError};

#[test]
fn test_parse_string_literal() {
    assert_eq!(parse_string_literal(r#""foo""#), Ok("foo".to_string()));
    assert_eq!(parse_string_literal(r#""foo\nbar""#), Ok("foo\nbar".to_string()));
    assert_eq!(parse_string_literal(r#""foo\tbar""#), Ok("foo\tbar".to_string()));
    assert_eq!(parse_string_literal(r#""foo\"bar""#), Ok("foo\"bar".to_string()));
    assert_eq!(parse_string_literal(r#""foo\\bar""#), Ok("foo\\bar".to_string()));
    assert_eq!(parse_string_literal(r#""foo\u0034bar""#), Ok("foo4bar".to_string()));
    assert_eq!(parse_string_literal(r#""foo\u{0034}bar""#), Ok("foo4bar".to_string()));
    assert_eq!(parse_string_literal(r#""foo\u{1F600}bar""#), Ok("foo😀bar".to_string()));
    assert_eq!(parse_string_literal(r#""b\'a'r""#), Ok("b'a'r".to_string()));
    assert_eq!(parse_string_literal(r#""""#), Ok("".to_string()));

    assert_eq!(parse_string_literal("foo"), Err(ParseError::MissingQuotes));
    assert_eq!(parse_string_literal(r#""foo"bar"#), Err(ParseError::InvalidEscapeSequence('"')));
    assert_eq!(parse_string_literal(r#""foo\"#), Err(ParseError::UnexpectedEndOfInput));
    assert_eq!(parse_string_literal(r#""foo\""#), Err(ParseError::MissingQuotes));
    assert_eq!(parse_string_literal(r#""foo\u123""#), Err(ParseError::InvalidHexDigit));
    assert_eq!(parse_string_literal(r#""foo\u{123""#), Err(ParseError::InvalidHexDigit));
    assert_eq!(parse_string_literal(r#""foo\ug123""#), Err(ParseError::InvalidHexDigit));
    assert_eq!(parse_string_literal(r#""foo\u{}""#), Err(ParseError::InvalidUnicodeLength));
}

#[test]
fn quote_then_parse_returns_original() {
    let original = "he\"llo\\ with\nnewline\tand tab";
    let quoted = dbgcore::printer::quote_string(original);
    assert_eq!(parse_string_literal(quoted.as_str()), Ok(original.to_string()));
    let plain = dbgcore::printer::quote_string("hello");
    assert_eq!(plain, "\"hello\"");
    assert_eq!(parse_string_literal(plain.as_str()), Ok("hello".to_string()));
}

#[test]
fn json_string_literal_escapes() {
    assert_eq!(parse_json_string_literal(r#""foo""#), Ok("foo".to_string()));
    assert_eq!(parse_json_string_literal(r#""a\/b""#), Ok("a/b".to_string()));
    assert_eq!(parse_json_string_literal(r#""a\bb""#), Ok("a\u{0008}b".to_string()));
    assert_eq!(parse_json_string_literal(r#""a\fb""#), Ok("a\u{000C}b".to_string()));
    assert_eq!(parse_json_string_literal(r#""a\nb\t\"\\""#), Ok("a\nb\t\"\\".to_string()));
    assert_eq!(parse_json_string_literal(r#""A""#), Ok("A".to_string()));
    // a supplementary-plane character arrives as a surrogate pair
    assert_eq!(parse_json_string_literal(r#""\uD83D\uDE00""#), Ok("\u{1F600}".to_string()));
    assert_eq!(parse_json_string_literal(r#""\u0041""#), Ok("A".to_string()));
    // a lone or reversed surrogate is refused, as is the non-JSON escape
    assert!(parse_json_string_literal(r#""\uD83D""#).is_err());
    assert!(parse_json_string_literal(r#""\uDE00""#).is_err());
    assert!(parse_json_string_literal(r#""\'""#).is_err());
}
