use serde_envfile::{parse_line, Error};
use std::borrow::Cow;

#[test]
fn invalid_str() {
    assert_eq!(parse_line(b""), Err(Error::EmptyString));
    assert_eq!(
        parse_line(b"just some string"),
        Err(Error::MissingEqualSeparator)
    );
    assert_eq!(parse_line(b"=value"), Err(Error::EmptyIdentifier));
    assert_eq!(
        parse_line(b"1=value"),
        Err(Error::IdentifierStartsWithDigit)
    );
    assert_eq!(
        parse_line(b"\xE2\x9D\x8C=\xE2\x9D\x93"),
        Err(Error::InvalidIdentifier { index: 0 })
    );
    assert_eq!(
        parse_line(b"value='Hello World"),
        Err(Error::ValueUnterminatedSingleQuote)
    );
    assert_eq!(
        parse_line(b"Identifier=Hello\\ World\'"),
        Err(Error::ValueUnterminatedSingleQuote)
    );
    assert_eq!(
        parse_line(b"Identifier=\'Hello\'\\ \'World"),
        Err(Error::ValueUnterminatedSingleQuote)
    );

    assert_eq!(
        parse_line(b"Identifier=\"Hello World"),
        Err(Error::ValueUnterminatedDoubleQuote)
    );
    assert_eq!(
        parse_line(b"Identifier=Hello\\ World\""),
        Err(Error::ValueUnterminatedDoubleQuote)
    );
    assert_eq!(
        parse_line(b"Identifier=\"Hello\"\\ \"World"),
        Err(Error::ValueUnterminatedDoubleQuote)
    );

    assert_eq!(
        parse_line(b"Identifier=Hello\\"),
        Err(Error::ValueDanglingEscape)
    );
}

#[test]
fn plain_value_is_borrowed() {
    let r = parse_line(b"KEY_1=value").unwrap();
    assert_eq!(r.0, b"KEY_1");
    assert!(matches!(r.1, Cow::Borrowed(b) if b == b"value"));
}

#[test]
fn value_may_hold_equal_signs_and_hashes() {
    let r = parse_line(b"_a=x=y#z").unwrap();
    assert_eq!(r.0, b"_a");
    assert_eq!(r.1.as_ref(), b"x=y#z");
}

#[test]
fn empty_value() {
    let r = parse_line(b"A=").unwrap();
    assert_eq!(r.0, b"A");
    assert!(matches!(r.1, Cow::Borrowed(b) if b.is_empty()));
}

#[test]
fn quotes_are_removed() {
    let r = parse_line(b"A='hello world'").unwrap();
    assert!(matches!(&r.1, Cow::Owned(_)));
    assert_eq!(r.1.as_ref(), b"hello world");
    let r = parse_line(b"A=\"hello world\"").unwrap();
    assert_eq!(r.1.as_ref(), b"hello world");
    let r = parse_line(b"A=a'b c'd").unwrap();
    assert_eq!(r.1.as_ref(), b"ab cd");
}

#[test]
fn escapes() {
    let r = parse_line(b"A=a\\ b").unwrap();
    assert_eq!(r.1.as_ref(), b"a b");
    let r = parse_line(b"A=\"x\\\"y\"").unwrap();
    assert_eq!(r.1.as_ref(), b"x\"y");
    // no escapes inside single quotes
    let r = parse_line(b"A='x\\y'").unwrap();
    assert_eq!(r.1.as_ref(), b"x\\y");
    let r = parse_line(b"A=\\'").unwrap();
    assert_eq!(r.1.as_ref(), b"'");
}

#[test]
fn shell_chars_outside_quotes() {
    assert_eq!(
        parse_line(b"A=a b"),
        Err(Error::ValueUnescapedShellChar { index: 1 })
    );
    assert_eq!(
        parse_line(b"A=ab|c"),
        Err(Error::ValueUnescapedShellChar { index: 2 })
    );
    assert_eq!(
        parse_line(b"A=x\ty"),
        Err(Error::ValueUnescapedShellChar { index: 1 })
    );
    let r = parse_line(b"A='a|b;c'").unwrap();
    assert_eq!(r.1.as_ref(), b"a|b;c");
}

#[test]
fn identifier_errors() {
    assert_eq!(
        parse_line(b"ab-c=1"),
        Err(Error::InvalidIdentifier { index: 2 })
    );
    assert_eq!(
        parse_line(b"a b=1"),
        Err(Error::InvalidIdentifier { index: 1 })
    );
    assert_eq!(parse_line(b"_9=1").unwrap().0, b"_9");
}

#[test]
fn identifier_checked_before_value() {
    assert_eq!(parse_line(b"9='"), Err(Error::IdentifierStartsWithDigit));
}
