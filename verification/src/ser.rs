use crate::common::State;
use crate::error::Error;
use crate::numbers::{decimal_text, lemma_decimal_text_ascii, write_signed, write_unsigned};
use std::borrow::Cow;
use vstd::prelude::*;
use vstd::string::StringSliceAdditionalSpecFns;
use vstd::utf8::*;

verus! {

// ---------------------------------------------------------------------------
// What a written value may hold
// ---------------------------------------------------------------------------

/// Bytes that the writer refuses outside quotes: `|`, `&`, `;`, `<`, `>`, `(`, `)`,
/// `` ` ``, `\`, space and tab.
pub open spec fn is_written_shell_char(c: u8) -> bool {
    c == 0x7c || c == 0x26 || c == 0x3b || c == 0x3c || c == 0x3e || c == 0x28 || c == 0x29
        || c == 0x60 || c == 0x5c || c == 0x20 || c == 0x09
}

/// Bytes that make a written value go through the quote and escape check.
pub open spec fn is_written_special(c: u8) -> bool {
    c == 0x22 || c == 0x27 || is_written_shell_char(c)
}

pub open spec fn has_written_special(val: Seq<u8>) -> bool {
    exists|i: int| 0 <= i < val.len() && is_written_special(#[trigger] val[i])
}

/// Whether the bytes of a value, from position `i` on in quoting state `state`, may be
/// written as they are: every quote is closed, every backslash outside single quotes
/// escapes a following byte, and no shell character stands outside quotes.
pub open spec fn check_value_from(val: Seq<u8>, i: int, state: State) -> Result<(), Error>
    decreases val.len() - i,
{
    if i < 0 || i >= val.len() {
        match state {
            State::Unquoted => Ok(()),
            State::SingleQuoted => Err(Error::ValueUnterminatedSingleQuote),
            State::DoubleQuoted => Err(Error::ValueUnterminatedDoubleQuote),
        }
    } else {
        let c = val[i];
        if c == 0x5c && state != State::SingleQuoted {
            if i + 1 < val.len() {
                check_value_from(val, i + 2, state)
            } else {
                Err(Error::ValueDanglingEscape)
            }
        } else {
            match state {
                State::Unquoted => {
                    if c == 0x27 {
                        check_value_from(val, i + 1, State::SingleQuoted)
                    } else if c == 0x22 {
                        check_value_from(val, i + 1, State::DoubleQuoted)
                    } else if is_written_shell_char(c) {
                        Err(Error::ValueUnescapedShellChar { index: i as usize })
                    } else {
                        check_value_from(val, i + 1, state)
                    }
                },
                State::SingleQuoted => {
                    if c == 0x27 {
                        check_value_from(val, i + 1, State::Unquoted)
                    } else {
                        check_value_from(val, i + 1, state)
                    }
                },
                State::DoubleQuoted => {
                    if c == 0x22 {
                        check_value_from(val, i + 1, State::Unquoted)
                    } else {
                        check_value_from(val, i + 1, state)
                    }
                },
            }
        }
    }
}

/// Whether the UTF-8 bytes of a value may be written as they are, and if not, the error.
pub open spec fn check_value(val: Seq<u8>) -> Result<(), Error> {
    check_value_from(val, 0, State::Unquoted)
}

/// A value without quotes, backslashes or shell characters may always be written.
pub proof fn lemma_plain_value_passes(val: Seq<u8>, i: int)
    requires
        0 <= i <= val.len(),
        forall|j: int| i <= j < val.len() ==> !is_written_special(#[trigger] val[j]),
    ensures
        check_value_from(val, i, State::Unquoted) == Ok::<(), Error>(()),
    decreases val.len() - i,
{
    if i < val.len() {
        lemma_plain_value_passes(val, i + 1);
    }
}

fn exec_is_written_shell_char(c: u8) -> (r: bool)
    ensures
        r == is_written_shell_char(c),
{
    c == 0x7c || c == 0x26 || c == 0x3b || c == 0x3c || c == 0x3e || c == 0x28 || c == 0x29
        || c == 0x60 || c == 0x5c || c == 0x20 || c == 0x09
}

fn contains_written_special(val: &[u8]) -> (r: bool)
    ensures
        r == has_written_special(val@),
{
    let mut i: usize = 0;
    while i < val.len()
        invariant
            0 <= i <= val@.len(),
            forall|j: int| 0 <= j < i ==> !is_written_special(#[trigger] val@[j]),
        decreases val@.len() - i,
    {
        let c = val[i];
        if c == 0x22 || c == 0x27 || exec_is_written_shell_char(c) {
            return true;
        }
        i = i + 1;
    }
    false
}

fn check_value_bytes(val: &[u8]) -> (r: Result<(), Error>)
    ensures
        r == check_value(val@),
{
    let mut state = State::Unquoted;
    let mut i: usize = 0;
    while i < val.len()
        invariant
            0 <= i <= val@.len(),
            check_value(val@) == check_value_from(val@, i as int, state),
        decreases val@.len() - i,
    {
        let c = val[i];
        if c == 0x5c && state != State::SingleQuoted {
            if i + 1 < val.len() {
                i = i + 2;
                continue ;
            } else {
                return Err(Error::ValueDanglingEscape);
            }
        }
        match state {
            State::Unquoted => {
                if c == 0x27 {
                    state = State::SingleQuoted;
                } else if c == 0x22 {
                    state = State::DoubleQuoted;
                } else if exec_is_written_shell_char(c) {
                    return Err(Error::ValueUnescapedShellChar { index: i });
                }
            },
            State::SingleQuoted => {
                if c == 0x27 {
                    state = State::Unquoted;
                }
            },
            State::DoubleQuoted => {
                if c == 0x22 {
                    state = State::Unquoted;
                }
            },
        }
        i = i + 1;
    }
    match state {
        State::SingleQuoted => Err(Error::ValueUnterminatedSingleQuote),
        State::DoubleQuoted => Err(Error::ValueUnterminatedDoubleQuote),
        State::Unquoted => Ok(()),
    }
}

/// Checks that a value can be written to an env file as it stands: every quote is
/// closed, every backslash outside single quotes escapes something, and no shell
/// character (`|`, `&`, `;`, `<`, `>`, `(`, `)`, `` ` ``, space, tab) stands outside
/// quotes.
/// The value comes back unchanged, borrowed when it holds none of the special
/// characters at all.
pub fn validate_value<'a>(val: &'a str) -> (r: Result<Cow<'a, str>, Error>)
    ensures
        match r {
            Ok(c) => {
                &&& check_value(val.spec_bytes()) == Ok::<(), Error>(())
                &&& c@ == val@
                &&& (c is Borrowed <==> !has_written_special(val.spec_bytes()))
            },
            Err(e) => check_value(val.spec_bytes()) == Err::<(), Error>(e),
        },
{
    let bytes = val.as_bytes();
    if !contains_written_special(bytes) {
        proof {
            lemma_plain_value_passes(bytes@, 0);
        }
        return Ok(Cow::Borrowed(val));
    }
    check_value_bytes(bytes)?;
    Ok(Cow::Owned(val.to_owned()))
}

// ---------------------------------------------------------------------------
// The serializer
// ---------------------------------------------------------------------------

/// Bytes all below 0x80 form valid UTF-8.
pub proof fn lemma_ascii_valid_utf8(bytes: Seq<u8>)
    requires
        forall|i: int| 0 <= i < bytes.len() ==> #[trigger] bytes[i] < 0x80,
    ensures
        valid_utf8(bytes),
{
    assert(partial_valid_utf8(bytes, 0)) by {
        assert(bytes.subrange(0, 0) =~= Seq::<u8>::empty());
    }
    partial_valid_utf8_extend_ascii_block(bytes, 0, bytes.len() as int);
    assert(bytes.subrange(0, bytes.len() as int) =~= bytes);
}

/// The text that a `bool` is written as.
pub open spec fn bool_text(v: bool) -> Seq<u8> {
    if v {
        seq![0x74u8, 0x72u8, 0x75u8, 0x65u8]
    } else {
        seq![0x66u8, 0x61u8, 0x6cu8, 0x73u8, 0x65u8]
    }
}

/// The one-character string `c`, made with std's `ToString` for `char`.
#[verifier::external_body]
fn char_text(c: char) -> (s: String)
    ensures
        s@ == seq![c],
{
    c.to_string()
}

/// Writes env files into a byte buffer. Whatever it appends to the bytes it was made
/// with is valid UTF-8, whatever is called in between.
pub struct Serializer {
    writer: Vec<u8>,
    start: Ghost<Seq<u8>>,
}

impl View for Serializer {
    type V = Seq<u8>;

    closed spec fn view(&self) -> Seq<u8> {
        self.writer@
    }
}

/// The state of a map being written: how many keys it has had.
pub struct Compound {
    first: bool,
    keys: Ghost<nat>,
}

impl Compound {
    #[verifier::type_invariant]
    spec fn first_means_no_keys(self) -> bool {
        self.first <==> self.keys@ == 0
    }

    /// The number of keys started so far.
    pub closed spec fn keys(&self) -> nat {
        self.keys@
    }

    /// Starts a key: every key but the first is put on a new line.
    pub fn begin_key(&mut self, ser: &mut Serializer)
        ensures
            final(self).keys() == old(self).keys() + 1,
            final(ser)@ == old(ser)@ + (if old(self).keys() == 0 {
                Seq::<u8>::empty()
            } else {
                seq![0x0au8]
            }),
            final(ser).prefix() == old(ser).prefix(),
    {
        proof {
            use_type_invariant(&*self);
        }
        if !self.first {
            ser.push_ascii(0x0a);
        } else {
            assert(ser@ + Seq::<u8>::empty() =~= ser@);
        }
        *self = Compound { first: false, keys: Ghost((self.keys@ + 1) as nat) };
    }

    /// Writes a key given as a string: a new line before every key but the first,
    /// then the key, which must pass `validate_value`.
    pub fn serialize_key(&mut self, ser: &mut Serializer, key: &str) -> (r: Result<(), Error>)
        ensures
            final(self).keys() == old(self).keys() + 1,
            ({
                let sep = if old(self).keys() == 0 {
                    Seq::<u8>::empty()
                } else {
                    seq![0x0au8]
                };
                match r {
                    Ok(()) => check_value(key.spec_bytes()) == Ok::<(), Error>(()) && final(ser)@
                        == old(ser)@ + sep + key.spec_bytes(),
                    Err(e) => check_value(key.spec_bytes()) == Err::<(), Error>(e) && final(ser)@
                        == old(ser)@ + sep,
                }
            }),
            final(ser).prefix() == old(ser).prefix(),
    {
        self.begin_key(ser);
        ser.serialize_str(key)
    }

    /// Starts a value: writes the `=` between key and value.
    pub fn begin_value(&mut self, ser: &mut Serializer)
        ensures
            final(self).keys() == old(self).keys(),
            final(ser)@ == old(ser)@ + seq![0x3du8],
            final(ser).prefix() == old(ser).prefix(),
    {
        ser.push_ascii(0x3d);
    }

    /// Ends the map; nothing is written.
    pub fn end(self) {
    }
}

impl Serializer {
    #[verifier::type_invariant]
    spec fn appends_valid_utf8(self) -> bool {
        &&& self.start@.len() <= self.writer@.len()
        &&& self.writer@.take(self.start@.len() as int) == self.start@
        &&& valid_utf8(self.writer@.skip(self.start@.len() as int))
    }

    /// The bytes the serializer was made with.
    pub closed spec fn prefix(&self) -> Seq<u8> {
        self.start@
    }

    /// A serializer that appends to `writer`.
    pub fn new(writer: Vec<u8>) -> (s: Self)
        ensures
            s@ == writer@,
            s.prefix() == writer@,
    {
        proof {
            assert(writer@.take(writer@.len() as int) =~= writer@);
            assert(writer@.skip(writer@.len() as int) =~= Seq::<u8>::empty());
        }
        Serializer { writer, start: Ghost(writer@) }
    }

    /// The bytes the serializer was made with, followed by what it wrote, which is
    /// valid UTF-8.
    pub fn into_inner(self) -> (w: Vec<u8>)
        ensures
            w@ == self@,
            w@ == self.prefix() + w@.skip(self.prefix().len() as int),
            valid_utf8(w@.skip(self.prefix().len() as int)),
    {
        proof {
            use_type_invariant(&self);
            assert(self.writer@ =~= self.writer@.take(self.start@.len() as int) + self.writer@.skip(
                self.start@.len() as int,
            ));
        }
        self.writer
    }

    /// Appends `more`, which is valid UTF-8.
    fn append(&mut self, more: Vec<u8>)
        requires
            valid_utf8(more@),
        ensures
            final(self)@ == old(self)@ + more@,
            final(self).prefix() == old(self).prefix(),
    {
        let ghost more_view = more@;
        let empty: Vec<u8> = Vec::new();
        proof {
            assert(empty@.skip(0) =~= Seq::<u8>::empty());
            assert(empty@.take(0) =~= Seq::<u8>::empty());
            assert(valid_utf8(Seq::<u8>::empty()));
        }
        let mut taken = Serializer { writer: empty, start: Ghost(Seq::empty()) };
        std::mem::swap(self, &mut taken);
        proof {
            use_type_invariant(&taken);
        }
        let Serializer { writer, start } = taken;
        let ghost old_w = writer@;
        let ghost st = start@;
        let mut writer = writer;
        let mut more = more;
        writer.append(&mut more);
        proof {
            assert(writer@.take(st.len() as int) =~= old_w.take(st.len() as int));
            assert(writer@.skip(old_w.len() as int) =~= more_view);
            assert(writer@.skip(st.len() as int) =~= old_w.skip(st.len() as int) + more_view);
            valid_utf8_concat(old_w.skip(st.len() as int), more_view);
        }
        *self = Serializer { writer, start };
    }

    fn push_ascii(&mut self, c: u8)
        requires
            c < 0x80,
        ensures
            final(self)@ == old(self)@ + seq![c],
            final(self).prefix() == old(self).prefix(),
    {
        let mut v: Vec<u8> = Vec::new();
        v.push(c);
        proof {
            lemma_ascii_valid_utf8(v@);
        }
        self.append(v);
    }

    fn push_bytes(&mut self, bytes: &[u8])
        requires
            valid_utf8(bytes@),
        ensures
            final(self)@ == old(self)@ + bytes@,
            final(self).prefix() == old(self).prefix(),
    {
        let mut v: Vec<u8> = Vec::new();
        let mut i: usize = 0;
        while i < bytes.len()
            invariant
                0 <= i <= bytes@.len(),
                v@ == bytes@.take(i as int),
            decreases bytes@.len() - i,
        {
            v.push(bytes[i]);
            assert(bytes@.take(i + 1) =~= v@);
            i = i + 1;
        }
        assert(bytes@.take(bytes@.len() as int) =~= bytes@);
        self.append(v);
    }

    fn push_decimal(&mut self, text: Vec<u8>, Ghost(v): Ghost<int>)
        requires
            text@ == decimal_text(v),
        ensures
            final(self)@ == old(self)@ + decimal_text(v),
            final(self).prefix() == old(self).prefix(),
    {
        proof {
            lemma_decimal_text_ascii(v);
            lemma_ascii_valid_utf8(text@);
        }
        self.append(text);
    }

    /// Writes `true` or `false`.
    pub fn serialize_bool(&mut self, v: bool)
        ensures
            final(self)@ == old(self)@ + bool_text(v),
            final(self).prefix() == old(self).prefix(),
    {
        if v {
            self.push_ascii(0x74);
            self.push_ascii(0x72);
            self.push_ascii(0x75);
            self.push_ascii(0x65);
        } else {
            self.push_ascii(0x66);
            self.push_ascii(0x61);
            self.push_ascii(0x6c);
            self.push_ascii(0x73);
            self.push_ascii(0x65);
        }
        assert(final(self)@ =~= old(self)@ + bool_text(v));
    }

    /// Writes an `i8` in decimal.
    pub fn serialize_i8(&mut self, v: i8)
        ensures
            final(self)@ == old(self)@ + decimal_text(v as int),
            final(self).prefix() == old(self).prefix(),
    {
        self.push_decimal(write_signed(v as i128), Ghost(v as int));
    }

    /// Writes an `i16` in decimal.
    pub fn serialize_i16(&mut self, v: i16)
        ensures
            final(self)@ == old(self)@ + decimal_text(v as int),
            final(self).prefix() == old(self).prefix(),
    {
        self.push_decimal(write_signed(v as i128), Ghost(v as int));
    }

    /// Writes an `i32` in decimal.
    pub fn serialize_i32(&mut self, v: i32)
        ensures
            final(self)@ == old(self)@ + decimal_text(v as int),
            final(self).prefix() == old(self).prefix(),
    {
        self.push_decimal(write_signed(v as i128), Ghost(v as int));
    }

    /// Writes an `i64` in decimal.
    pub fn serialize_i64(&mut self, v: i64)
        ensures
            final(self)@ == old(self)@ + decimal_text(v as int),
            final(self).prefix() == old(self).prefix(),
    {
        self.push_decimal(write_signed(v as i128), Ghost(v as int));
    }

    /// Writes an `i128` in decimal.
    pub fn serialize_i128(&mut self, v: i128)
        ensures
            final(self)@ == old(self)@ + decimal_text(v as int),
            final(self).prefix() == old(self).prefix(),
    {
        self.push_decimal(write_signed(v), Ghost(v as int));
    }

    /// Writes a `u8` in decimal.
    pub fn serialize_u8(&mut self, v: u8)
        ensures
            final(self)@ == old(self)@ + decimal_text(v as int),
            final(self).prefix() == old(self).prefix(),
    {
        self.push_decimal(write_unsigned(v as u128), Ghost(v as int));
    }

    /// Writes a `u16` in decimal.
    pub fn serialize_u16(&mut self, v: u16)
        ensures
            final(self)@ == old(self)@ + decimal_text(v as int),
            final(self).prefix() == old(self).prefix(),
    {
        self.push_decimal(write_unsigned(v as u128), Ghost(v as int));
    }

    /// Writes a `u32` in decimal.
    pub fn serialize_u32(&mut self, v: u32)
        ensures
            final(self)@ == old(self)@ + decimal_text(v as int),
            final(self).prefix() == old(self).prefix(),
    {
        self.push_decimal(write_unsigned(v as u128), Ghost(v as int));
    }

    /// Writes a `u64` in decimal.
    pub fn serialize_u64(&mut self, v: u64)
        ensures
            final(self)@ == old(self)@ + decimal_text(v as int),
            final(self).prefix() == old(self).prefix(),
    {
        self.push_decimal(write_unsigned(v as u128), Ghost(v as int));
    }

    /// Writes a `u128` in decimal.
    pub fn serialize_u128(&mut self, v: u128)
        ensures
            final(self)@ == old(self)@ + decimal_text(v as int),
            final(self).prefix() == old(self).prefix(),
    {
        self.push_decimal(write_unsigned(v), Ghost(v as int));
    }

    /// Writes a string value, which must pass `validate_value`; nothing is written
    /// when it does not.
    pub fn serialize_str(&mut self, v: &str) -> (r: Result<(), Error>)
        ensures
            match r {
                Ok(()) => check_value(v.spec_bytes()) == Ok::<(), Error>(()) && final(self)@
                    == old(self)@ + v.spec_bytes(),
                Err(e) => check_value(v.spec_bytes()) == Err::<(), Error>(e) && final(self)@
                    == old(self)@,
            },
            final(self).prefix() == old(self).prefix(),
    {
        validate_value(v)?;
        let bytes = v.as_bytes();
        proof {
            encode_utf8_valid_utf8(v@);
        }
        self.push_bytes(bytes);
        Ok(())
    }

    /// Writes a character as the one-character string it is.
    pub fn serialize_char(&mut self, v: char) -> (r: Result<(), Error>)
        ensures
            match r {
                Ok(()) => check_value(encode_utf8(seq![v])) == Ok::<(), Error>(())
                    && final(self)@ == old(self)@ + encode_utf8(seq![v]),
                Err(e) => check_value(encode_utf8(seq![v])) == Err::<(), Error>(e)
                    && final(self)@ == old(self)@,
            },
            final(self).prefix() == old(self).prefix(),
    {
        let text = char_text(v);
        self.serialize_str(text.as_str())
    }

    /// Writes already formatted text as it stands (the text of a number formatted
    /// outside the library).
    pub fn write_formatted(&mut self, text: &str)
        ensures
            final(self)@ == old(self)@ + text.spec_bytes(),
            final(self).prefix() == old(self).prefix(),
    {
        proof {
            encode_utf8_valid_utf8(text@);
        }
        self.push_bytes(text.as_bytes());
    }

    /// Starts a newtype variant: its name, which must pass `validate_value`, then `=`.
    pub fn begin_newtype_variant(&mut self, variant: &str) -> (r: Result<(), Error>)
        ensures
            match r {
                Ok(()) => check_value(variant.spec_bytes()) == Ok::<(), Error>(())
                    && final(self)@ == old(self)@ + variant.spec_bytes() + seq![0x3du8],
                Err(e) => check_value(variant.spec_bytes()) == Err::<(), Error>(e)
                    && final(self)@ == old(self)@,
            },
            final(self).prefix() == old(self).prefix(),
    {
        self.serialize_str(variant)?;
        self.push_ascii(0x3d);
        Ok(())
    }

    /// Starts a map or a struct.
    pub fn serialize_map(&mut self) -> (c: Compound)
        ensures
            c.keys() == 0,
            final(self)@ == old(self)@,
            final(self).prefix() == old(self).prefix(),
    {
        Compound { first: true, keys: Ghost(0) }
    }
}

} // verus!
