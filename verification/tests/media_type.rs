//! Scenarios of the media type parser and of media type equality.

use mime::{MediaType, ParseError};

fn parse(s: &str) -> MediaType {
    MediaType::parse(s).unwrap()
}

#[test]
fn parses_type_and_subtype() {
    let m = parse("text/plain");
    assert_eq!(m.type_(), "text");
    assert_eq!(m.subtype(), "plain");
    assert_eq!(m.suffix(), None);
    assert!(!m.has_params());
}

#[test]
fn lowercases_type_subtype_and_names_but_not_values() {
    let m = parse("Text/HTML; Charset=UTF-8");
    assert_eq!(m.type_(), "text");
    assert_eq!(m.subtype(), "html");
    assert_eq!(m.param("charset"), Some("UTF-8"));
    assert_eq!(m.param("CHARSET"), Some("UTF-8"));
    assert_eq!(m.param("boundary"), None);
}

#[test]
fn subtype_keeps_suffix() {
    let m = parse("application/xhtml+xml");
    assert_eq!(m.subtype(), "xhtml+xml");
    assert_eq!(m.suffix(), Some("xml"));
    let m = parse("application/vnd.a+b+json");
    assert_eq!(m.subtype(), "vnd.a+b+json");
    assert_eq!(m.suffix(), Some("json"));
    let m = parse("image/svg+");
    assert_eq!(m.suffix(), Some(""));
}

#[test]
fn empty_parameter_list_is_dropped() {
    let plain = parse("text/event-stream");
    for s in ["text/event-stream;", "text/event-stream; ", "text/event-stream ;\t ", "text/event-stream  "] {
        let m = parse(s);
        assert!(!m.has_params(), "{}", s);
        assert_eq!(m.subtype(), "event-stream");
        assert!(m == plain, "{}", s);
    }
}

#[test]
fn whitespace_around_semicolon() {
    let a = parse("text/plain;charset=utf-8");
    let b = parse("text/plain ;charset=utf-8");
    let c = parse("text/plain\t;  charset=utf-8");
    assert!(a == b && b == c);
    assert_eq!(b.param("charset"), Some("utf-8"));
}

#[test]
fn quoted_values_are_unquoted() {
    let a = parse("text/plain; name=foo");
    let b = parse("text/plain; name=\"foo\"");
    assert!(a == b);
    let c = parse(r#"multipart/form-data; boundary="a b\"c\\d""#);
    assert_eq!(c.param("boundary"), Some("a b\"c\\d"));
    let d = parse("text/plain; x=\"\"");
    assert_eq!(d.param("x"), Some(""));
}

#[test]
fn several_params_first_wins() {
    let m = parse("text/plain; a=1; b=2; a=3");
    assert_eq!(m.param("a"), Some("1"));
    assert_eq!(m.param("b"), Some("2"));
    assert!(m.has_params());
}

#[test]
fn equality_ignores_parameter_order_but_not_values() {
    let a = parse("text/plain; a=1; b=2");
    let b = parse("text/plain; b=2; a=1");
    let c = parse("text/plain; a=1; b=3");
    let d = parse("text/plain; a=1");
    let e = parse("text/html; a=1; b=2");
    assert!(a == b);
    assert!(b == a);
    assert!(a != c);
    assert!(a != d);
    assert!(d != a);
    assert!(a != e);
    assert!(a == a);
}

#[test]
fn value_case_matters_for_equality() {
    assert!(parse("text/plain; charset=UTF-8") != parse("text/plain; charset=utf-8"));
    assert!(parse("TEXT/Plain") == parse("text/plain"));
}

#[test]
fn error_missing_slash() {
    assert_eq!(MediaType::parse("text").unwrap_err(), ParseError::MissingSlash);
}

#[test]
fn error_unexpected_end() {
    assert_eq!(MediaType::parse("").unwrap_err(), ParseError::UnexpectedEnd);
    assert_eq!(MediaType::parse("text/").unwrap_err(), ParseError::UnexpectedEnd);
    assert_eq!(MediaType::parse("text/plain; a=").unwrap_err(), ParseError::UnexpectedEnd);
}

#[test]
fn error_missing_equal() {
    assert_eq!(MediaType::parse("text/plain; charset").unwrap_err(), ParseError::MissingEqual);
}

#[test]
fn error_missing_quote() {
    assert_eq!(MediaType::parse("text/plain; a=\"abc").unwrap_err(), ParseError::MissingQuote);
    assert_eq!(MediaType::parse("text/plain; a=\"abc\\").unwrap_err(), ParseError::MissingQuote);
}

#[test]
fn error_invalid_token() {
    assert_eq!(
        MediaType::parse("/plain").unwrap_err(),
        ParseError::InvalidToken { pos: 0, ch: '/' }
    );
    assert_eq!(
        MediaType::parse("te xt/plain").unwrap_err(),
        ParseError::InvalidToken { pos: 2, ch: ' ' }
    );
    assert_eq!(
        MediaType::parse("text/plain/x").unwrap_err(),
        ParseError::InvalidToken { pos: 10, ch: '/' }
    );
    assert_eq!(
        MediaType::parse("text/plain; =x").unwrap_err(),
        ParseError::InvalidToken { pos: 12, ch: '=' }
    );
    assert_eq!(
        MediaType::parse("text/plain; a;").unwrap_err(),
        ParseError::InvalidToken { pos: 13, ch: ';' }
    );
    assert_eq!(
        MediaType::parse("text/plain; a=1 b").unwrap_err(),
        ParseError::InvalidToken { pos: 16, ch: 'b' }
    );
    assert_eq!(
        MediaType::parse("text/plain; a=,").unwrap_err(),
        ParseError::InvalidToken { pos: 14, ch: ',' }
    );
    assert_eq!(
        MediaType::parse("text/plain; a=\"\u{1}\"").unwrap_err(),
        ParseError::InvalidToken { pos: 15, ch: '\u{1}' }
    );
    assert_eq!(
        MediaType::parse("text/plain;; a=1").unwrap_err(),
        ParseError::InvalidToken { pos: 11, ch: ';' }
    );
}

#[test]
fn positions_count_characters() {
    assert_eq!(
        MediaType::parse("text/plain; a=\"é\"x").unwrap_err(),
        ParseError::InvalidToken { pos: 17, ch: 'x' }
    );
    let m = parse("text/plain; a=\"é\"");
    assert_eq!(m.param("a"), Some("é"));
}

#[test]
fn error_descriptions() {
    assert_eq!(
        ParseError::InvalidToken { pos: 12, ch: '=' }.describe(),
        "invalid token, = at position 12"
    );
    assert!(ParseError::MissingSlash.describe().contains("slash"));
}

#[test]
fn any_parameter_list_spelling_is_the_same() {
    let plain = parse("text/plain;a=1;b=two;c=x-y");
    for s in [
        "text/plain ; a=\"1\" ;b=two\t;\tc=\"x-y\"",
        "text/plain;a=1; b=\"two\" ;c=x-y ; ",
        "text/plain\t;a=\"1\";b=two;c=x-y  ",
    ] {
        let m = parse(s);
        assert!(m == plain, "{}", s);
        assert_eq!(m.param("b"), Some("two"));
        assert_eq!(m.param("c"), Some("x-y"));
    }
}

#[test]
fn repeated_names_are_compared_on_every_occurrence() {
    let twice = parse("t/p; a=1; a=2");
    let once = parse("t/p; a=1");
    assert!(twice != once);
    assert!(once != twice);
    // Looking `a` up gives its first value, `1`, which is not the value of
    // its second occurrence: such a media type is not equal even to itself.
    assert!(twice != twice);
    let same_twice = parse("t/p; a=1; a=1");
    assert!(same_twice == once);
    assert!(same_twice == same_twice);
    assert!(parse("t/p; a=1; b=2; a=1") == parse("t/p; b=2; a=1"));
}
