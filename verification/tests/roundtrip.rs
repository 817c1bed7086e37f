use serde_envfile::{Serializer, ValueDeserializer, VarMapAccess};
use std::borrow::Cow;

#[test]
fn written_entries_read_back() {
    let entries = [("NAME", "TEST"), ("age", "67"), ("_path", "/usr/bin:/bin")];
    let mut s = Serializer::new(Vec::new());
    let mut map = s.serialize_map();
    for (k, v) in entries {
        map.serialize_key(&mut s, k).unwrap();
        map.begin_value(&mut s);
        s.serialize_str(v).unwrap();
    }
    map.end();
    let doc = s.into_inner();
    let mut access = VarMapAccess::new(&doc);
    for (k, v) in entries {
        assert_eq!(access.next_key().unwrap(), Some(k.as_bytes()));
        assert_eq!(access.next_value().unwrap().as_ref(), v.as_bytes());
    }
    assert_eq!(access.next_key().unwrap(), None);
}

#[test]
fn single_quoted_values_read_back_literally() {
    let mut access = VarMapAccess::new(b"A='a\\b \"c\" |d'");
    access.next_key().unwrap();
    assert_eq!(access.next_value().unwrap().as_ref(), b"a\\b \"c\" |d");
}

#[test]
fn writer_refuses_bare_spaces() {
    let mut s = Serializer::new(Vec::new());
    assert!(s.serialize_str("a b").is_err());
    assert!(s.serialize_str("a\tb").is_err());
    assert!(s.serialize_str("'a b'").is_ok());
}

#[test]
fn quoted_entries_read_back_unquoted() {
    let mut s = Serializer::new(Vec::new());
    let mut map = s.serialize_map();
    map.serialize_key(&mut s, "A").unwrap();
    map.begin_value(&mut s);
    s.serialize_str("'a b'\\;c").unwrap();
    map.serialize_key(&mut s, "B").unwrap();
    map.begin_value(&mut s);
    s.serialize_str("\"x|y\"").unwrap();
    let doc = s.into_inner();
    let mut access = VarMapAccess::new(&doc);
    assert_eq!(access.next_key().unwrap(), Some(&b"A"[..]));
    assert_eq!(access.next_value().unwrap().as_ref(), b"a b;c");
    assert_eq!(access.next_key().unwrap(), Some(&b"B"[..]));
    assert_eq!(access.next_value().unwrap().as_ref(), b"x|y");
    assert_eq!(access.next_key().unwrap(), None);
}

#[test]
fn integers_read_back() {
    for v in [i64::MIN, -1, 0, 7, i64::MAX] {
        let mut s = Serializer::new(Vec::new());
        s.serialize_i64(v);
        let text = s.into_inner();
        assert_eq!(ValueDeserializer::new(Cow::Borrowed(&text)).parse_i64(), Ok(v));
    }
    for v in [0u8, 9, 10, 255] {
        let mut s = Serializer::new(Vec::new());
        s.serialize_u8(v);
        let text = s.into_inner();
        assert_eq!(ValueDeserializer::new(Cow::Owned(text)).parse_u8(), Ok(v));
    }
}
