//! Decimal numbers: the text that integers are written as, and the calls into
//! `lexical_core` that write and read them.
use vstd::prelude::*;

verus! {

/// The decimal digits of `n`, most significant first, without leading zeros.
pub open spec fn decimal_digits(n: nat) -> Seq<u8>
    decreases n,
{
    if n < 10 {
        seq![(0x30 + n) as u8]
    } else {
        decimal_digits(n / 10) + seq![(0x30 + n % 10) as u8]
    }
}

/// The decimal text of an integer: a `-` for a negative one, then the digits of its
/// magnitude.
pub open spec fn decimal_text(v: int) -> Seq<u8> {
    if v < 0 {
        seq![0x2du8] + decimal_digits((-v) as nat)
    } else {
        decimal_digits(v as nat)
    }
}

pub open spec fn is_ascii_digit(c: u8) -> bool {
    0x30 <= c <= 0x39
}

/// The number that a run of decimal digits stands for.
pub open spec fn digits_value(d: Seq<u8>) -> nat
    decreases d.len(),
{
    if d.len() == 0 {
        0
    } else {
        digits_value(d.drop_last()) * 10 + (d.last() - 0x30) as nat
    }
}

pub open spec fn all_ascii_digits(d: Seq<u8>) -> bool {
    forall|i: int| 0 <= i < d.len() ==> is_ascii_digit(#[trigger] d[i])
}

/// Whether an integer text starts with the `-` of a negative number.
pub open spec fn is_negative_text(bytes: Seq<u8>, signed: bool) -> bool {
    signed && bytes.len() > 0 && bytes[0] == 0x2d
}

/// An integer text without its leading sign, if it has one.
pub open spec fn unsigned_part(bytes: Seq<u8>, signed: bool) -> Seq<u8> {
    if bytes.len() > 0 && (bytes[0] == 0x2b || is_negative_text(bytes, signed)) {
        bytes.drop_first()
    } else {
        bytes
    }
}

/// The integer that `bytes` is the text of, for an integer type that is signed or not
/// and holds `min..=max`: an optional `+` (or, for a signed type, `-`), then one or more
/// decimal digits (leading zeros allowed) and nothing else, with a value in range.
/// `None` for anything else. This is the grammar of `lexical_core::parse` for integers
/// in its standard format.
pub open spec fn integer_text_value(bytes: Seq<u8>, signed: bool, min: int, max: int) -> Option<
    int,
> {
    let negative = is_negative_text(bytes, signed);
    let digits = unsigned_part(bytes, signed);
    if digits.len() == 0 || !all_ascii_digits(digits) {
        None
    } else {
        let v = if negative {
            -(digits_value(digits) as int)
        } else {
            digits_value(digits) as int
        };
        if min <= v <= max {
            Some(v)
        } else {
            None
        }
    }
}

/// Writes `v` in decimal with `lexical_core::write` (standard format): a `-` before a
/// negative number, then the digits, no leading zeros, no `+`.
#[verifier::external_body]
pub(crate) fn write_signed(v: i128) -> (r: Vec<u8>)
    ensures
        r@ == decimal_text(v as int),
{
    let mut buf = vec![0u8; lexical_core::BUFFER_SIZE];
    lexical_core::write(v, &mut buf).to_vec()
}

/// Writes `v` in decimal with `lexical_core::write` (standard format): its digits,
/// without leading zeros.
#[verifier::external_body]
pub(crate) fn write_unsigned(v: u128) -> (r: Vec<u8>)
    ensures
        r@ == decimal_text(v as int),
{
    let mut buf = vec![0u8; lexical_core::BUFFER_SIZE];
    lexical_core::write(v, &mut buf).to_vec()
}

/// Reads a whole `i8` with `lexical_core::parse`: the value of `integer_text_value`.
#[verifier::external_body]
pub(crate) fn parse_i8(bytes: &[u8]) -> (r: Option<i8>)
    ensures
        match r {
            Some(v) => integer_text_value(bytes@, true, -128, 127) == Some(v as int),
            None => integer_text_value(bytes@, true, -128, 127) is None,
        },
{
    lexical_core::parse::<i8>(bytes).ok()
}

/// Reads a whole `i16` with `lexical_core::parse`: the value of `integer_text_value`.
#[verifier::external_body]
pub(crate) fn parse_i16(bytes: &[u8]) -> (r: Option<i16>)
    ensures
        match r {
            Some(v) => integer_text_value(bytes@, true, -32768, 32767) == Some(v as int),
            None => integer_text_value(bytes@, true, -32768, 32767) is None,
        },
{
    lexical_core::parse::<i16>(bytes).ok()
}

/// Reads a whole `i32` with `lexical_core::parse`: the value of `integer_text_value`.
#[verifier::external_body]
pub(crate) fn parse_i32(bytes: &[u8]) -> (r: Option<i32>)
    ensures
        match r {
            Some(v) => integer_text_value(bytes@, true, -2147483648, 2147483647) == Some(v as int),
            None => integer_text_value(bytes@, true, -2147483648, 2147483647) is None,
        },
{
    lexical_core::parse::<i32>(bytes).ok()
}

/// Reads a whole `i64` with `lexical_core::parse`: the value of `integer_text_value`.
#[verifier::external_body]
pub(crate) fn parse_i64(bytes: &[u8]) -> (r: Option<i64>)
    ensures
        match r {
            Some(v) => integer_text_value(bytes@, true, -9223372036854775808, 9223372036854775807) == Some(v as int),
            None => integer_text_value(bytes@, true, -9223372036854775808, 9223372036854775807) is None,
        },
{
    lexical_core::parse::<i64>(bytes).ok()
}

/// Reads a whole `u8` with `lexical_core::parse`: the value of `integer_text_value`.
#[verifier::external_body]
pub(crate) fn parse_u8(bytes: &[u8]) -> (r: Option<u8>)
    ensures
        match r {
            Some(v) => integer_text_value(bytes@, false, 0, 255) == Some(v as int),
            None => integer_text_value(bytes@, false, 0, 255) is None,
        },
{
    lexical_core::parse::<u8>(bytes).ok()
}

/// Reads a whole `u16` with `lexical_core::parse`: the value of `integer_text_value`.
#[verifier::external_body]
pub(crate) fn parse_u16(bytes: &[u8]) -> (r: Option<u16>)
    ensures
        match r {
            Some(v) => integer_text_value(bytes@, false, 0, 65535) == Some(v as int),
            None => integer_text_value(bytes@, false, 0, 65535) is None,
        },
{
    lexical_core::parse::<u16>(bytes).ok()
}

/// Reads a whole `u32` with `lexical_core::parse`: the value of `integer_text_value`.
#[verifier::external_body]
pub(crate) fn parse_u32(bytes: &[u8]) -> (r: Option<u32>)
    ensures
        match r {
            Some(v) => integer_text_value(bytes@, false, 0, 4294967295) == Some(v as int),
            None => integer_text_value(bytes@, false, 0, 4294967295) is None,
        },
{
    lexical_core::parse::<u32>(bytes).ok()
}

/// Reads a whole `u64` with `lexical_core::parse`: the value of `integer_text_value`.
#[verifier::external_body]
pub(crate) fn parse_u64(bytes: &[u8]) -> (r: Option<u64>)
    ensures
        match r {
            Some(v) => integer_text_value(bytes@, false, 0, 18446744073709551615) == Some(v as int),
            None => integer_text_value(bytes@, false, 0, 18446744073709551615) is None,
        },
{
    lexical_core::parse::<u64>(bytes).ok()
}

/// Every byte of a decimal text is ASCII.
pub proof fn lemma_decimal_digits_ascii(n: nat)
    ensures
        forall|i: int| 0 <= i < decimal_digits(n).len() ==> #[trigger] decimal_digits(n)[i] < 0x80,
        decimal_digits(n).len() > 0,
    decreases n,
{
    if n >= 10 {
        lemma_decimal_digits_ascii(n / 10);
    }
}

pub proof fn lemma_decimal_text_ascii(v: int)
    ensures
        forall|i: int| 0 <= i < decimal_text(v).len() ==> #[trigger] decimal_text(v)[i] < 0x80,
{
    if v < 0 {
        lemma_decimal_digits_ascii((-v) as nat);
        let d = decimal_digits((-v) as nat);
        assert forall|i: int| 0 <= i < decimal_text(v).len() implies #[trigger] decimal_text(v)[i]
            < 0x80 by {
            if i > 0 {
                assert(decimal_text(v)[i] == d[i - 1]);
            }
        }
    } else {
        lemma_decimal_digits_ascii(v as nat);
    }
}

/// The digits of `n` are decimal digits and stand for `n`.
pub proof fn lemma_decimal_digits_value(n: nat)
    ensures
        digits_value(decimal_digits(n)) == n,
        forall|i: int|
            0 <= i < decimal_digits(n).len() ==> is_ascii_digit(#[trigger] decimal_digits(n)[i]),
        decimal_digits(n).len() > 0,
    decreases n,
{
    if n >= 10 {
        lemma_decimal_digits_value(n / 10);
        let d = decimal_digits(n);
        assert(d.drop_last() =~= decimal_digits(n / 10));
        assert(d.last() == (0x30 + n % 10) as u8);
        assert(n % 10 < 10);
        assert((d.last() - 0x30) as nat == n % 10);
        assert(n == (n / 10) * 10 + n % 10);
        assert(digits_value(d) == digits_value(d.drop_last()) * 10 + (d.last() - 0x30) as nat);
        assert(digits_value(d.drop_last()) == n / 10);
        assert forall|i: int| 0 <= i < d.len() implies is_ascii_digit(#[trigger] d[i]) by {
            if i < d.len() - 1 {
                assert(d[i] == decimal_digits(n / 10)[i]);
            }
        }
    } else {
        let d = decimal_digits(n);
        assert(d.drop_last() =~= Seq::<u8>::empty());
        assert(digits_value(Seq::<u8>::empty()) == 0);
        assert(digits_value(d) == digits_value(d.drop_last()) * 10 + (d.last() - 0x30) as nat);
    }
}

/// What `lexical_core::write` writes, `lexical_core::parse` reads back: the decimal
/// text of an integer in range stands for that integer.
pub proof fn lemma_decimal_text_reads_back(n: int, signed: bool, min: int, max: int)
    requires
        min <= n <= max,
        n < 0 ==> signed,
    ensures
        integer_text_value(decimal_text(n), signed, min, max) == Some(n),
{
    let t = decimal_text(n);
    if n < 0 {
        let m = (-n) as nat;
        lemma_decimal_digits_value(m);
        assert(t.drop_first() =~= decimal_digits(m));
        assert(t[0] == 0x2d);
    } else {
        lemma_decimal_digits_value(n as nat);
        let d = decimal_digits(n as nat);
        assert(is_ascii_digit(d[0]));
    }
}

} // verus!
