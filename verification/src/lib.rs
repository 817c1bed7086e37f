//! A serde data format for `.env` style files: one `KEY=value` pair per line,
//! with shell-like quoting and escaping of values.
//!
//! `de` reads files (lines, entries, keys, values), `ser` writes them, `numbers` holds
//! the decimal text of integers, `error` the errors and their messages, and `laws` the
//! properties that tie reading and writing together.

pub mod common;
pub mod de;
pub mod error;
pub mod laws;
pub mod numbers;
pub mod ser;

pub use crate::common::State;
pub use crate::de::{parse_line, ByteLines, Deserializer, ValueDeserializer, VarMapAccess};
pub use crate::error::Error;
pub use crate::ser::{validate_value, Compound, Serializer};
