use crate::numbers::decimal_digits;
use vstd::prelude::*;
use vstd::string::StringExecFns;

verus! {

/// Everything that can go wrong while reading or writing an env file.
#[derive(Debug, Clone, PartialEq, Eq, PartialOrd, Ord)]
pub enum Error {
    /// Deserialization method used is not supported
    UnsupportedDeserialization,
    /// Serialization method used is not supported
    UnsupportedSerialization,
    /// String is empty
    EmptyString,
    /// Missing `=` sign separator
    MissingEqualSeparator,
    /// Identfifier is empty
    EmptyIdentifier,
    /// Identifier starts with a digit
    IdentifierStartsWithDigit,
    /// Identifier contains a value that is not an ascii alphabetical character or `_`
    InvalidIdentifier { index: usize },
    /// Value contains an unterminated `'`
    ValueUnterminatedSingleQuote,
    /// Value contains an unterminated `"`
    ValueUnterminatedDoubleQuote,
    /// Value contains unescaped special shell character (`|`, `&`, `;`, `<`, `>`, `(`, `)`, `` ` ``, `\`, ` `, `\t`)
    ValueUnescapedShellChar { index: usize },
    /// Value has a dangling escape character `\`
    ValueDanglingEscape,
    /// Value is not a [`bool`]
    ValueNotBoolean,
    /// Value is not a [`i8`]
    ValueNotI8,
    /// Value is not a [`i16`]
    ValueNotI16,
    /// Value is not a [`i32`]
    ValueNotI32,
    /// Value is not a [`i64`]
    ValueNotI64,
    /// Value is not a [`u8`]
    ValueNotU8,
    /// Value is not a [`u16`]
    ValueNotU16,
    /// Value is not a [`u32`]
    ValueNotU32,
    /// Value is not a [`u64`]
    ValueNotU64,
    /// Value is not a `f32`
    ValueNotF32,
    /// Value is not a `f64`
    ValueNotF64,
    /// Float given is not finite.
    FloatNotFinite,
    /// Value contains invalid UTF-8.
    InvaildUtf8,
    /// Value is not a [`unit`]
    ValueNotUnit,
    /// An IO Error as occured
    IoError,
    Custom(String),
}


/// The decimal digits of `n` as characters.
pub open spec fn decimal_chars(n: nat) -> Seq<char> {
    decimal_digits(n).map_values(|b: u8| b as char)
}

/// Formats `n` with std's `Display` for `usize`, which writes its decimal digits.
#[verifier::external_body]
fn usize_text(n: usize) -> (r: String)
    ensures
        r@ == decimal_chars(n as nat),
{
    n.to_string()
}

/// The human-readable text of an error.
pub open spec fn message_text(e: Error) -> Seq<char> {
    match e {
        Error::UnsupportedDeserialization => "Unsupported deserialization method"@,
        Error::UnsupportedSerialization => "Unsupported serialization method"@,
        Error::EmptyString => "string is empty"@,
        Error::MissingEqualSeparator => "missing separator equal sign "@,
        Error::EmptyIdentifier => "identifier is empty"@,
        Error::IdentifierStartsWithDigit => "identifier starts with a digit"@,
        Error::InvalidIdentifier { index } => "identifier contains invalid character, index: "@ + decimal_chars(index as nat),
        Error::ValueUnterminatedSingleQuote => "value has unterminated single quote"@,
        Error::ValueUnterminatedDoubleQuote => "value has unterminated double quote"@,
        Error::ValueUnescapedShellChar { index } => "value contains unescaped shell character, index: "@ + decimal_chars(index as nat),
        Error::ValueDanglingEscape => "value has dangling escape character"@,
        Error::ValueNotBoolean => "value is not a boolean"@,
        Error::ValueNotI8 => "value is not a 8-bit signed integer"@,
        Error::ValueNotI16 => "value is not a 16-bit signed integer"@,
        Error::ValueNotI32 => "value is not a 32-bit signed integer"@,
        Error::ValueNotI64 => "value is not a 64-bit signed integer"@,
        Error::ValueNotU8 => "value is not a 8-bit unsigned integer"@,
        Error::ValueNotU16 => "value is not a 16-bit unsigned integer"@,
        Error::ValueNotU32 => "value is not a 32-bit unsigned integer"@,
        Error::ValueNotU64 => "value is not a 64-bit unsigned integer"@,
        Error::ValueNotF32 => "value is not a 32-bit float"@,
        Error::ValueNotF64 => "value is not a 64-bit float"@,
        Error::FloatNotFinite => "float is not a finite number"@,
        Error::InvaildUtf8 => "value contains invalid utf-8"@,
        Error::ValueNotUnit => "value is not a unit"@,
        Error::IoError => "io error"@,
        Error::Custom(msg) => msg@,
    }
}

impl Error {
    /// The human-readable text of the error, as its `Display` shows it.
    pub fn message(&self) -> (r: String)
        ensures
            r@ == message_text(*self),
    {
        match self {
            Error::UnsupportedDeserialization => String::from_str("Unsupported deserialization method"),
            Error::UnsupportedSerialization => String::from_str("Unsupported serialization method"),
            Error::EmptyString => String::from_str("string is empty"),
            Error::MissingEqualSeparator => String::from_str("missing separator equal sign "),
            Error::EmptyIdentifier => String::from_str("identifier is empty"),
            Error::IdentifierStartsWithDigit => String::from_str("identifier starts with a digit"),
            Error::InvalidIdentifier { index } => String::from_str("identifier contains invalid character, index: ").concat(usize_text(*index).as_str()),
            Error::ValueUnterminatedSingleQuote => String::from_str("value has unterminated single quote"),
            Error::ValueUnterminatedDoubleQuote => String::from_str("value has unterminated double quote"),
            Error::ValueUnescapedShellChar { index } => String::from_str("value contains unescaped shell character, index: ").concat(usize_text(*index).as_str()),
            Error::ValueDanglingEscape => String::from_str("value has dangling escape character"),
            Error::ValueNotBoolean => String::from_str("value is not a boolean"),
            Error::ValueNotI8 => String::from_str("value is not a 8-bit signed integer"),
            Error::ValueNotI16 => String::from_str("value is not a 16-bit signed integer"),
            Error::ValueNotI32 => String::from_str("value is not a 32-bit signed integer"),
            Error::ValueNotI64 => String::from_str("value is not a 64-bit signed integer"),
            Error::ValueNotU8 => String::from_str("value is not a 8-bit unsigned integer"),
            Error::ValueNotU16 => String::from_str("value is not a 16-bit unsigned integer"),
            Error::ValueNotU32 => String::from_str("value is not a 32-bit unsigned integer"),
            Error::ValueNotU64 => String::from_str("value is not a 64-bit unsigned integer"),
            Error::ValueNotF32 => String::from_str("value is not a 32-bit float"),
            Error::ValueNotF64 => String::from_str("value is not a 64-bit float"),
            Error::FloatNotFinite => String::from_str("float is not a finite number"),
            Error::InvaildUtf8 => String::from_str("value contains invalid utf-8"),
            Error::ValueNotUnit => String::from_str("value is not a unit"),
            Error::IoError => String::from_str("io error"),
            Error::Custom(msg) => msg.clone(),
        }
    }
}

} // verus!
