use serde_envfile::{ByteLines, Deserializer, Error, ValueDeserializer, VarMapAccess};
use std::borrow::Cow;

fn entries(input: &[u8]) -> Result<Vec<(Vec<u8>, Vec<u8>)>, Error> {
    let mut access = VarMapAccess::new(input);
    let mut out = Vec::new();
    while let Some(key) = access.next_key()? {
        let value = access.next_value()?;
        out.push((key.to_vec(), value.into_owned()));
    }
    Ok(out)
}

fn pairs(v: &[(&str, &str)]) -> Vec<(Vec<u8>, Vec<u8>)> {
    v.iter()
        .map(|(k, v)| (k.as_bytes().to_vec(), v.as_bytes().to_vec()))
        .collect()
}

#[test]
fn deserialize() {
    assert_eq!(
        entries(b"a=whata\nb=whatb\nc=12").unwrap(),
        pairs(&[("a", "whata"), ("b", "whatb"), ("c", "12")])
    );
    assert_eq!(
        entries(b"a=bytes\nb=0xFFFF\nc=12").unwrap(),
        pairs(&[("a", "bytes"), ("b", "0xFFFF"), ("c", "12")])
    );
}

#[test]
fn comments_blank_lines_and_crlf() {
    let doc = b"# a comment\r\n\r\n   KEY='x y'  \r\n\t# indented comment\nOTHER=2\n\n";
    assert_eq!(
        entries(doc).unwrap(),
        pairs(&[("KEY", "x y"), ("OTHER", "2")])
    );
}

#[test]
fn empty_input_has_no_entries() {
    assert_eq!(entries(b"").unwrap(), pairs(&[]));
    assert_eq!(entries(b"\n\n#x\n").unwrap(), pairs(&[]));
}

#[test]
fn errors_stop_reading() {
    let mut access = VarMapAccess::new(b"A=1\nnot a line\nB=2");
    assert_eq!(access.next_key(), Ok(Some(&b"A"[..])));
    assert_eq!(access.next_value().unwrap().as_ref(), b"1");
    assert_eq!(access.next_key(), Err(Error::MissingEqualSeparator));
    assert_eq!(access.next_key(), Ok(Some(&b"B"[..])));
}

#[test]
fn value_before_key() {
    let mut access = VarMapAccess::new(b"A=1");
    assert_eq!(
        access.next_value(),
        Err(Error::Custom("value called before key".to_string()))
    );
    access.next_key().unwrap();
    assert!(access.next_value().is_ok());
    assert_eq!(
        access.next_value(),
        Err(Error::Custom("value called before key".to_string()))
    );
}

#[test]
fn deserializer_map_access() {
    let de = Deserializer::new(b"X=1");
    let mut access = de.map_access();
    assert_eq!(access.next_key(), Ok(Some(&b"X"[..])));
    assert_eq!(access.next_key(), Ok(None));
}

#[test]
fn byte_lines() {
    let mut lines = ByteLines::new(b"a\r\nb\n\nc\r");
    assert_eq!(lines.next_line(), Some(&b"a"[..]));
    assert_eq!(lines.next_line(), Some(&b"b"[..]));
    assert_eq!(lines.next_line(), Some(&b""[..]));
    assert_eq!(lines.next_line(), Some(&b"c\r"[..]));
    assert_eq!(lines.next_line(), None);
    assert_eq!(ByteLines::strip_newlines(b"x\r\n"), b"x");
    assert_eq!(ByteLines::strip_newlines(b"x\n\n"), b"x\n");
    assert!(ByteLines::is_newline(&b'\n'));
    assert!(!ByteLines::is_newline(&b'\r'));
}

fn value(s: &[u8]) -> ValueDeserializer<'_> {
    ValueDeserializer::new(Cow::Borrowed(s))
}

#[test]
fn value_bool() {
    assert_eq!(value(b"true").parse_bool(), Ok(true));
    assert_eq!(value(b"false").parse_bool(), Ok(false));
    assert_eq!(value(b"True").parse_bool(), Err(Error::ValueNotBoolean));
    assert_eq!(value(b"").parse_bool(), Err(Error::ValueNotBoolean));
}

#[test]
fn value_integers() {
    assert_eq!(value(b"12").parse_u8(), Ok(12));
    assert_eq!(value(b"300").parse_u8(), Err(Error::ValueNotU8));
    assert_eq!(value(b"-1").parse_u8(), Err(Error::ValueNotU8));
    assert_eq!(value(b"-128").parse_i8(), Ok(-128));
    assert_eq!(value(b"128").parse_i8(), Err(Error::ValueNotI8));
    assert_eq!(value(b"-32768").parse_i16(), Ok(-32768));
    assert_eq!(value(b"x").parse_i16(), Err(Error::ValueNotI16));
    assert_eq!(value(b"2147483647").parse_i32(), Ok(2147483647));
    assert_eq!(value(b"1.5").parse_i32(), Err(Error::ValueNotI32));
    assert_eq!(value(b"-9000000000").parse_i64(), Ok(-9000000000));
    assert_eq!(value(b"").parse_i64(), Err(Error::ValueNotI64));
    assert_eq!(value(b"65535").parse_u16(), Ok(65535));
    assert_eq!(value(b"65536").parse_u16(), Err(Error::ValueNotU16));
    assert_eq!(value(b"4294967295").parse_u32(), Ok(4294967295));
    assert_eq!(value(b"0xFFFF").parse_u32(), Err(Error::ValueNotU32));
    assert_eq!(value(b"18446744073709551615").parse_u64(), Ok(u64::MAX));
    assert_eq!(value(b"18446744073709551616").parse_u64(), Err(Error::ValueNotU64));
}

#[test]
fn value_unit_and_none() {
    assert!(value(b"").is_none());
    assert!(!value(b"x").is_none());
    assert_eq!(value(b"").parse_unit(), Ok(()));
    assert_eq!(value(b"()").parse_unit(), Err(Error::ValueNotUnit));
}

#[test]
fn value_str() {
    assert_eq!(value(b"h\xC3\xA9").parse_str(), Ok("h\u{e9}"));
    assert_eq!(value(b"\xFF").parse_str(), Err(Error::InvaildUtf8));
    assert_eq!(ValueDeserializer::decode_str(b"ok"), Ok("ok"));
    let owned = ValueDeserializer::new(Cow::Owned(b"abc".to_vec()));
    assert_eq!(owned.bytes(), b"abc");
    assert!(matches!(owned.as_cow(), Cow::Owned(_)));
}

#[test]
fn byte_lines_from_the_back() {
    let mut lines = ByteLines::new(b"a\r\nb\n\nc\n");
    assert_eq!(lines.next_line_back(), Some(&b"c"[..]));
    assert_eq!(lines.next_line_back(), Some(&b""[..]));
    assert_eq!(lines.next_line(), Some(&b"a"[..]));
    assert_eq!(lines.next_line_back(), Some(&b"b"[..]));
    assert_eq!(lines.next_line_back(), None);
    assert_eq!(lines.next_line(), None);
    assert_eq!(ByteLines::new(b"x\ny").last(), Some(&b"y"[..]));
    assert_eq!(ByteLines::new(b"x\r\n").last(), Some(&b"x"[..]));
    assert_eq!(ByteLines::new(b"").last(), None);
}

#[test]
fn integer_grammar() {
    assert_eq!(value(b"+5").parse_u8(), Ok(5));
    assert_eq!(value(b"+5").parse_i8(), Ok(5));
    assert_eq!(value(b"007").parse_u16(), Ok(7));
    assert_eq!(value(b"-0").parse_u8(), Err(Error::ValueNotU8));
    assert_eq!(value(b"-0").parse_i8(), Ok(0));
    assert_eq!(value(b"+").parse_i32(), Err(Error::ValueNotI32));
    assert_eq!(value(b"-").parse_i32(), Err(Error::ValueNotI32));
    assert_eq!(value(b"+-1").parse_i32(), Err(Error::ValueNotI32));
    assert_eq!(value(b" 1").parse_u32(), Err(Error::ValueNotU32));
    assert_eq!(value(b"1 ").parse_u32(), Err(Error::ValueNotU32));
    assert_eq!(value(b"0xFF").parse_u8(), Err(Error::ValueNotU8));
    assert_eq!(value(b"256").parse_u8(), Err(Error::ValueNotU8));
}

#[test]
fn value_handed_over() {
    let v = ValueDeserializer::new(Cow::Owned(b"x".to_vec()));
    assert!(matches!(v.into_cow(), Cow::Owned(b) if b == b"x"));
}

#[test]
fn borrowed_values_stay_borrowed() {
    let mut access = VarMapAccess::new(b"A=plain\nB='quoted'");
    access.next_key().unwrap();
    assert!(matches!(access.next_value().unwrap(), Cow::Borrowed(b"plain")));
    access.next_key().unwrap();
    assert!(matches!(access.next_value().unwrap(), Cow::Owned(_)));
}
