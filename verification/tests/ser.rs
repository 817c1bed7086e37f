use serde_envfile::{validate_value, Error, Serializer};
use std::borrow::Cow;

#[test]
fn validate_plain_is_borrowed() {
    assert!(matches!(validate_value("hello_world"), Ok(Cow::Borrowed("hello_world"))));
}

#[test]
fn validate_quoted_is_unchanged() {
    let r = validate_value("'a|b'\"c;d\"e\\&f\\ g'h i'").unwrap();
    assert!(matches!(&r, Cow::Owned(_)));
    assert_eq!(r.as_ref(), "'a|b'\"c;d\"e\\&f\\ g'h i'");
}

#[test]
fn validate_errors() {
    assert_eq!(
        validate_value("a|b"),
        Err(Error::ValueUnescapedShellChar { index: 1 })
    );
    assert_eq!(validate_value("abc\\"), Err(Error::ValueDanglingEscape));
    assert_eq!(
        validate_value("'abc"),
        Err(Error::ValueUnterminatedSingleQuote)
    );
    assert_eq!(
        validate_value("\"abc"),
        Err(Error::ValueUnterminatedDoubleQuote)
    );
    assert_eq!(
        validate_value("a b"),
        Err(Error::ValueUnescapedShellChar { index: 1 })
    );
    assert_eq!(
        validate_value("a\tb"),
        Err(Error::ValueUnescapedShellChar { index: 1 })
    );
    // indices are byte offsets
    assert_eq!(
        validate_value("\u{e9}(x"),
        Err(Error::ValueUnescapedShellChar { index: 2 })
    );
    // a backslash inside single quotes escapes nothing
    assert_eq!(
        validate_value("'\\'"),
        Ok(Cow::Owned(String::from("'\\'")))
    );
    assert!(validate_value("\\\u{e9}").is_ok());
}

#[test]
fn serializer_writes_scalars() {
    let mut s = Serializer::new(Vec::new());
    s.serialize_bool(true);
    s.serialize_bool(false);
    s.serialize_i8(-128);
    s.serialize_u8(0);
    s.serialize_i64(-45);
    s.serialize_u128(u128::MAX);
    s.serialize_i128(i128::MIN);
    s.serialize_u16(65535);
    s.serialize_i16(300);
    s.serialize_i32(-7);
    s.serialize_u32(4000000000);
    s.serialize_u64(18446744073709551615);
    let out = String::from_utf8(s.into_inner()).unwrap();
    assert_eq!(
        out,
        "truefalse-1280-45340282366920938463463374607431768211455\
         -170141183460469231731687303715884105728655353 00-74000000000\
         18446744073709551615"
            .replace(' ', "")
    );
}

#[test]
fn serializer_appends_to_given_buffer() {
    let mut s = Serializer::new(b"x".to_vec());
    s.serialize_u8(67);
    assert_eq!(s.into_inner(), b"x67");
}

#[test]
fn serialize_str_checks() {
    let mut s = Serializer::new(Vec::new());
    assert_eq!(s.serialize_str("a'b c'"), Ok(()));
    assert_eq!(s.serialize_str("x;y"), Err(Error::ValueUnescapedShellChar { index: 1 }));
    assert_eq!(s.serialize_char('\u{e9}'), Ok(()));
    assert_eq!(s.serialize_char('|'), Err(Error::ValueUnescapedShellChar { index: 0 }));
    assert_eq!(s.serialize_char('\''), Err(Error::ValueUnterminatedSingleQuote));
    assert_eq!(s.serialize_char('\\'), Err(Error::ValueDanglingEscape));
    assert_eq!(s.into_inner(), "a'b c'\u{e9}".as_bytes());
}

#[test]
fn test() {
    // the shape that `#[derive(Serialize)] struct Test { name: String, age: u32 }` writes
    let mut s = Serializer::new(Vec::new());
    let mut map = s.serialize_map();
    map.serialize_key(&mut s, "name").unwrap();
    map.begin_value(&mut s);
    s.serialize_str("TEST").unwrap();
    map.serialize_key(&mut s, "age").unwrap();
    map.begin_value(&mut s);
    s.serialize_u32(67);
    map.end();
    assert_eq!(s.into_inner(), b"name=TEST\nage=67");
}

#[test]
fn newtype_variant() {
    let mut s = Serializer::new(Vec::new());
    s.begin_newtype_variant("Port").unwrap();
    s.serialize_u16(8080);
    assert_eq!(s.into_inner(), b"Port=8080");
    let mut s = Serializer::new(Vec::new());
    assert_eq!(
        s.begin_newtype_variant("a(b"),
        Err(Error::ValueUnescapedShellChar { index: 1 })
    );
    assert!(s.into_inner().is_empty());
}

#[test]
fn formatted_text() {
    let mut s = Serializer::new(Vec::new());
    s.write_formatted("1.5");
    assert_eq!(s.into_inner(), b"1.5");
}

#[test]
fn key_error_leaves_separator() {
    let mut s = Serializer::new(Vec::new());
    let mut map = s.serialize_map();
    map.serialize_key(&mut s, "a").unwrap();
    map.begin_value(&mut s);
    s.serialize_bool(true);
    assert_eq!(
        map.serialize_key(&mut s, "b|"),
        Err(Error::ValueUnescapedShellChar { index: 1 })
    );
    assert_eq!(s.into_inner(), b"a=true\n");
}
