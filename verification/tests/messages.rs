use serde_envfile::Error;

#[test]
fn messages() {
    assert_eq!(
        Error::UnsupportedDeserialization.message(),
        "Unsupported deserialization method"
    );
    assert_eq!(
        Error::MissingEqualSeparator.message(),
        "missing separator equal sign "
    );
    assert_eq!(
        Error::InvalidIdentifier { index: 12 }.message(),
        "identifier contains invalid character, index: 12"
    );
    assert_eq!(
        Error::ValueUnescapedShellChar { index: 0 }.message(),
        "value contains unescaped shell character, index: 0"
    );
    assert_eq!(Error::ValueNotU64.message(), "value is not a 64-bit unsigned integer");
    assert_eq!(Error::IoError.message(), "io error");
    assert_eq!(Error::Custom("boom".to_string()).message(), "boom");
}
