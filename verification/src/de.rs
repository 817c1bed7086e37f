use crate::common::State;
use crate::error::Error;
use std::borrow::Cow;
use vstd::prelude::*;
use vstd::slice::slice_subrange;
use vstd::string::{StringExecFns, StringSliceAdditionalSpecFns};
use vstd::utf8::valid_utf8;
use crate::numbers::{self, decimal_text, integer_text_value, lemma_decimal_text_reads_back};
use crate::ser::bool_text;

verus! {

// ---------------------------------------------------------------------------
// Byte classes
// ---------------------------------------------------------------------------

pub open spec fn is_digit(c: u8) -> bool {
    0x30 <= c <= 0x39
}

pub open spec fn is_alpha(c: u8) -> bool {
    (0x41 <= c <= 0x5a) || (0x61 <= c <= 0x7a)
}

/// A byte that may start an identifier: an ASCII letter or `_`.
pub open spec fn is_ident_start(c: u8) -> bool {
    is_alpha(c) || c == 0x5f
}

/// A byte that may continue an identifier: an ASCII letter, digit or `_`.
pub open spec fn is_ident_char(c: u8) -> bool {
    is_alpha(c) || is_digit(c) || c == 0x5f
}

/// Bytes that are refused in an unquoted stretch of a value:
/// `|`, `&`, `;`, `<`, `>`, `(`, `)`, `` ` ``, space, tab and newline.
pub open spec fn is_unquoted_shell_char(c: u8) -> bool {
    c == 0x7c || c == 0x26 || c == 0x3b || c == 0x3c || c == 0x3e || c == 0x28 || c == 0x29
        || c == 0x60 || c == 0x20 || c == 0x09 || c == 0x0a
}

/// Bytes that make a value go through the quote and escape scanner:
/// the quotes, the backslash and the unquoted shell characters.
pub open spec fn is_value_special(c: u8) -> bool {
    c == 0x22 || c == 0x27 || c == 0x5c || is_unquoted_shell_char(c)
}

pub open spec fn has_value_special(val: Seq<u8>) -> bool {
    exists|i: int| 0 <= i < val.len() && is_value_special(#[trigger] val[i])
}

// ---------------------------------------------------------------------------
// The line grammar
// ---------------------------------------------------------------------------

/// Position of the first `=` at or after `i`.
pub open spec fn first_equal_from(v: Seq<u8>, i: int) -> Option<int>
    decreases v.len() - i,
{
    if i < 0 || i >= v.len() {
        None
    } else if v[i] == 0x3d {
        Some(i)
    } else {
        first_equal_from(v, i + 1)
    }
}

/// Position of the first byte at or after `i` that cannot continue an identifier.
pub open spec fn first_non_ident_from(key: Seq<u8>, i: int) -> Option<int>
    decreases key.len() - i,
{
    if i < 0 || i >= key.len() {
        None
    } else if !is_ident_char(key[i]) {
        Some(i)
    } else {
        first_non_ident_from(key, i + 1)
    }
}

/// Whether `key` is a valid identifier, and if not, the error that says why.
pub open spec fn check_identifier(key: Seq<u8>) -> Result<(), Error> {
    if key.len() == 0 {
        Err(Error::EmptyIdentifier)
    } else if is_digit(key[0]) {
        Err(Error::IdentifierStartsWithDigit)
    } else if !is_ident_start(key[0]) {
        Err(Error::InvalidIdentifier { index: 0 })
    } else {
        match first_non_ident_from(key, 1) {
            Some(i) => Err(Error::InvalidIdentifier { index: i as usize }),
            None => Ok(()),
        }
    }
}

pub open spec fn prepend(c: u8, r: Result<Seq<u8>, Error>) -> Result<Seq<u8>, Error> {
    match r {
        Ok(s) => Ok(seq![c] + s),
        Err(e) => Err(e),
    }
}

pub open spec fn prepend_all(p: Seq<u8>, r: Result<Seq<u8>, Error>) -> Result<Seq<u8>, Error> {
    match r {
        Ok(s) => Ok(p + s),
        Err(e) => Err(e),
    }
}

/// The bytes that the value `val` stands for, read from position `i` on in quoting
/// state `state`: quotes are removed, a backslash outside single quotes takes the next
/// byte literally, and unquoted shell characters are refused.
pub open spec fn unquote_from(val: Seq<u8>, i: int, state: State) -> Result<Seq<u8>, Error>
    decreases val.len() - i,
{
    if i < 0 || i >= val.len() {
        match state {
            State::Unquoted => Ok(seq![]),
            State::SingleQuoted => Err(Error::ValueUnterminatedSingleQuote),
            State::DoubleQuoted => Err(Error::ValueUnterminatedDoubleQuote),
        }
    } else {
        let c = val[i];
        if c == 0x5c && state != State::SingleQuoted {
            if i + 1 < val.len() {
                prepend(val[i + 1], unquote_from(val, i + 2, state))
            } else {
                Err(Error::ValueDanglingEscape)
            }
        } else {
            match state {
                State::Unquoted => {
                    if c == 0x27 {
                        unquote_from(val, i + 1, State::SingleQuoted)
                    } else if c == 0x22 {
                        unquote_from(val, i + 1, State::DoubleQuoted)
                    } else if is_unquoted_shell_char(c) {
                        Err(Error::ValueUnescapedShellChar { index: i as usize })
                    } else {
                        prepend(c, unquote_from(val, i + 1, state))
                    }
                },
                State::SingleQuoted => {
                    if c == 0x27 {
                        unquote_from(val, i + 1, State::Unquoted)
                    } else {
                        prepend(c, unquote_from(val, i + 1, state))
                    }
                },
                State::DoubleQuoted => {
                    if c == 0x22 {
                        unquote_from(val, i + 1, State::Unquoted)
                    } else {
                        prepend(c, unquote_from(val, i + 1, state))
                    }
                },
            }
        }
    }
}

/// The bytes that a whole value stands for.
pub open spec fn unquote(val: Seq<u8>) -> Result<Seq<u8>, Error> {
    unquote_from(val, 0, State::Unquoted)
}

/// What one (already trimmed) line of an env file means: its key and the bytes of its
/// value, or the first error that the line holds.
pub open spec fn spec_parse_line(v: Seq<u8>) -> Result<(Seq<u8>, Seq<u8>), Error> {
    if v.len() == 0 {
        Err(Error::EmptyString)
    } else {
        match first_equal_from(v, 0) {
            None => Err(Error::MissingEqualSeparator),
            Some(p) => {
                let key = v.take(p);
                match check_identifier(key) {
                    Err(e) => Err(e),
                    Ok(_) => match unquote(v.skip(p + 1)) {
                        Ok(u) => Ok((key, u)),
                        Err(e) => Err(e),
                    },
                }
            },
        }
    }
}

// ---------------------------------------------------------------------------
// Lemmas
// ---------------------------------------------------------------------------

/// A value without quotes, backslashes or shell characters stands for itself.
pub proof fn lemma_plain_value_unquotes_to_itself(val: Seq<u8>, i: int)
    requires
        0 <= i <= val.len(),
        forall|j: int| i <= j < val.len() ==> !is_value_special(#[trigger] val[j]),
    ensures
        unquote_from(val, i, State::Unquoted) == Ok::<Seq<u8>, Error>(val.skip(i)),
    decreases val.len() - i,
{
    if i < val.len() {
        lemma_plain_value_unquotes_to_itself(val, i + 1);
        assert(seq![val[i]] + val.skip(i + 1) =~= val.skip(i));
    } else {
        assert(val.skip(i) =~= Seq::<u8>::empty());
    }
}

// ---------------------------------------------------------------------------
// Executable byte classes
// ---------------------------------------------------------------------------

fn exec_is_ident_start(c: u8) -> (r: bool)
    ensures
        r == is_ident_start(c),
{
    (0x41 <= c && c <= 0x5a) || (0x61 <= c && c <= 0x7a) || c == 0x5f
}

fn exec_is_ident_char(c: u8) -> (r: bool)
    ensures
        r == is_ident_char(c),
{
    (0x41 <= c && c <= 0x5a) || (0x61 <= c && c <= 0x7a) || (0x30 <= c && c <= 0x39) || c
        == 0x5f
}

fn exec_is_unquoted_shell_char(c: u8) -> (r: bool)
    ensures
        r == is_unquoted_shell_char(c),
{
    c == 0x7c || c == 0x26 || c == 0x3b || c == 0x3c || c == 0x3e || c == 0x28 || c == 0x29
        || c == 0x60 || c == 0x20 || c == 0x09 || c == 0x0a
}

fn exec_is_value_special(c: u8) -> (r: bool)
    ensures
        r == is_value_special(c),
{
    c == 0x22 || c == 0x27 || c == 0x5c || exec_is_unquoted_shell_char(c)
}

fn contains_value_special(val: &[u8]) -> (r: bool)
    ensures
        r == has_value_special(val@),
{
    let mut i: usize = 0;
    while i < val.len()
        invariant
            0 <= i <= val@.len(),
            forall|j: int| 0 <= j < i ==> !is_value_special(#[trigger] val@[j]),
        decreases val@.len() - i,
    {
        if exec_is_value_special(val[i]) {
            return true;
        }
        i = i + 1;
    }
    false
}

/// Checks a key against the identifier rules.
fn check_key(key: &[u8]) -> (r: Result<(), Error>)
    ensures
        r == check_identifier(key@),
{
    if key.len() == 0 {
        return Err(Error::EmptyIdentifier);
    }
    let c = key[0];
    if 0x30 <= c && c <= 0x39 {
        return Err(Error::IdentifierStartsWithDigit);
    }
    if !exec_is_ident_start(c) {
        return Err(Error::InvalidIdentifier { index: 0 });
    }
    let mut i: usize = 1;
    while i < key.len()
        invariant
            1 <= i <= key@.len(),
            !is_digit(key@[0]),
            is_ident_start(key@[0]),
            first_non_ident_from(key@, 1) == first_non_ident_from(key@, i as int),
        decreases key@.len() - i,
    {
        if !exec_is_ident_char(key[i]) {
            assert(first_non_ident_from(key@, i as int) == Some(i as int));
            return Err(Error::InvalidIdentifier { index: i });
        }
        i = i + 1;
    }
    Ok(())
}

/// Reads a value that holds quotes, escapes or shell characters into the bytes it
/// stands for.
fn unquote_value(val: &[u8]) -> (r: Result<Vec<u8>, Error>)
    ensures
        match r {
            Ok(out) => unquote(val@) == Ok::<Seq<u8>, Error>(out@),
            Err(e) => unquote(val@) == Err::<Seq<u8>, Error>(e),
        },
{
    let mut output: Vec<u8> = Vec::new();
    let mut state = State::Unquoted;
    let mut i: usize = 0;
    assert(output@ + seq![] =~= output@);
    while i < val.len()
        invariant
            0 <= i <= val@.len(),
            unquote(val@) == prepend_all(output@, unquote_from(val@, i as int, state)),
        decreases val@.len() - i,
    {
        let c = val[i];
        let ghost before = output@;
        if c == 0x5c && state != State::SingleQuoted {
            if i + 1 < val.len() {
                output.push(val[i + 1]);
                assert(before + (seq![val@[i + 1]]) =~= output@);
                proof {
                    match unquote_from(val@, i + 2, state) {
                        Ok(s) => {
                            assert(before + (seq![val@[i + 1]] + s) =~= output@ + s);
                        },
                        Err(_) => {},
                    }
                }
                i = i + 2;
                continue ;
            } else {
                return Err(Error::ValueDanglingEscape);
            }
        }
        match state {
            State::Unquoted => {
                if c == 0x27 {
                    state = State::SingleQuoted;
                    i = i + 1;
                    continue ;
                } else if c == 0x22 {
                    state = State::DoubleQuoted;
                    i = i + 1;
                    continue ;
                } else if exec_is_unquoted_shell_char(c) {
                    return Err(Error::ValueUnescapedShellChar { index: i });
                }
            },
            State::SingleQuoted => {
                if c == 0x27 {
                    state = State::Unquoted;
                    i = i + 1;
                    continue ;
                }
            },
            State::DoubleQuoted => {
                if c == 0x22 {
                    state = State::Unquoted;
                    i = i + 1;
                    continue ;
                }
            },
        }
        output.push(c);
        proof {
            match unquote_from(val@, i + 1, state) {
                Ok(s) => {
                    assert(before + (seq![c] + s) =~= output@ + s);
                },
                Err(_) => {},
            }
        }
        i = i + 1;
    }
    match state {
        State::SingleQuoted => {
            return Err(Error::ValueUnterminatedSingleQuote);
        },
        State::DoubleQuoted => {
            return Err(Error::ValueUnterminatedDoubleQuote);
        },
        State::Unquoted => {},
    }
    assert(output@ + seq![] =~= output@);
    Ok(output)
}

/// Splits one line of an env file into its key and the bytes of its value.
///
/// The key is everything before the first `=` and must be an identifier
/// (`[A-Za-z_][A-Za-z0-9_]*`). The value is everything after it: quotes are removed,
/// a backslash outside single quotes takes the next byte literally, and unquoted shell
/// characters are refused. A value with none of these special bytes is handed back
/// borrowed from the line, any other one as a fresh buffer.
pub fn parse_line<'a>(v: &'a [u8]) -> (r: Result<(&'a [u8], Cow<'a, [u8]>), Error>)
    ensures
        match r {
            Ok((key, val)) => {
                &&& spec_parse_line(v@) == Ok::<(Seq<u8>, Seq<u8>), Error>((key@, val@))
                &&& (val is Borrowed <==> !has_value_special(raw_value(v@)))
            },
            Err(e) => spec_parse_line(v@) == Err::<(Seq<u8>, Seq<u8>), Error>(e),
        },
{
    if v.len() == 0 {
        return Err(Error::EmptyString);
    }
    let mut equal_pos: usize = 0;
    while equal_pos < v.len() && v[equal_pos] != 0x3d
        invariant
            0 <= equal_pos <= v@.len(),
            first_equal_from(v@, 0) == first_equal_from(v@, equal_pos as int),
        decreases v@.len() - equal_pos,
    {
        equal_pos = equal_pos + 1;
    }
    if equal_pos == v.len() {
        return Err(Error::MissingEqualSeparator);
    }
    let key = slice_subrange(v, 0, equal_pos);
    let val = slice_subrange(v, equal_pos + 1, v.len());
    assert(key@ =~= v@.take(equal_pos as int));
    assert(val@ =~= v@.skip(equal_pos + 1));
    check_key(key)?;
    if !contains_value_special(val) {
        proof {
            lemma_plain_value_unquotes_to_itself(val@, 0);
            assert(val@.skip(0) =~= val@);
        }
        return Ok((key, Cow::Borrowed(val)));
    }
    let output = unquote_value(val)?;
    Ok((key, Cow::Owned(output)))
}


// ---------------------------------------------------------------------------
// Lines
// ---------------------------------------------------------------------------

/// Position of the first line feed at or after `i`.
pub open spec fn first_newline_from(s: Seq<u8>, i: int) -> Option<int>
    decreases s.len() - i,
{
    if i < 0 || i >= s.len() {
        None
    } else if s[i] == 0x0a {
        Some(i)
    } else {
        first_newline_from(s, i + 1)
    }
}

/// A line without its terminator: a final `\n` is dropped, and then a `\r` before it.
pub open spec fn spec_strip_newlines(line: Seq<u8>) -> Seq<u8> {
    if line.len() > 0 && line.last() == 0x0a {
        let l = line.drop_last();
        if l.len() > 0 && l.last() == 0x0d {
            l.drop_last()
        } else {
            l
        }
    } else {
        line
    }
}

/// The next line of `s` at or after `pos` and the position after its terminator, or
/// `None` once `s` is used up. A line ends after a `\n` or at the end of `s`.
pub open spec fn next_line_from(s: Seq<u8>, pos: int) -> Option<(Seq<u8>, int)> {
    if pos < 0 || pos >= s.len() {
        None
    } else {
        match first_newline_from(s, pos) {
            Some(n) => Some((spec_strip_newlines(s.subrange(pos, n + 1)), n + 1)),
            None => Some((spec_strip_newlines(s.subrange(pos, s.len() as int)), s.len() as int)),
        }
    }
}

/// Position of the last line feed in `s[pos..k]`.
pub open spec fn last_newline_before(s: Seq<u8>, pos: int, k: int) -> Option<int>
    decreases k - pos,
{
    if k <= pos || k > s.len() || pos < 0 {
        None
    } else if s[k - 1] == 0x0a {
        Some(k - 1)
    } else {
        last_newline_before(s, pos, k - 1)
    }
}

/// The last line of `s` at or after `pos` and the position where it starts, or `None`
/// once nothing is left after `pos`. A line feed that ends `s` ends its last line.
pub open spec fn prev_line_from(s: Seq<u8>, pos: int) -> Option<(Seq<u8>, int)> {
    if pos < 0 || pos >= s.len() {
        None
    } else {
        let k = if s.last() == 0x0a {
            s.len() - 1
        } else {
            s.len() as int
        };
        let start = match last_newline_before(s, pos, k) {
            Some(n) => n + 1,
            None => pos,
        };
        Some((spec_strip_newlines(s.subrange(start, s.len() as int)), start))
    }
}

/// The lines of an input, one after another, from either end.
pub struct ByteLines<'a> {
    input: &'a [u8],
    pos: usize,
    end: usize,
}

impl<'a> ByteLines<'a> {
    /// The input up to where lines have not yet been taken from the back.
    pub closed spec fn input(&self) -> Seq<u8> {
        self.input@.take(self.end as int)
    }

    /// Where the next line from the front starts.
    pub closed spec fn pos(&self) -> int {
        self.pos as int
    }

    pub closed spec fn wf(&self) -> bool {
        self.pos <= self.end <= self.input@.len()
    }

    /// Whether `c` ends a line.
    pub fn is_newline(c: &u8) -> (r: bool)
        ensures
            r == (*c == 0x0a),
    {
        *c == 0x0a
    }

    /// Removes the line terminator, `\n` or `\r\n`, from the end of `line`.
    pub fn strip_newlines(line: &[u8]) -> (r: &[u8])
        ensures
            r@ == spec_strip_newlines(line@),
    {
        let n = line.len();
        if n == 0 || line[n - 1] != 0x0a {
            return line;
        }
        let l = slice_subrange(line, 0, n - 1);
        assert(l@ =~= line@.drop_last());
        let m = l.len();
        if m == 0 || l[m - 1] != 0x0d {
            return l;
        }
        let r = slice_subrange(l, 0, m - 1);
        assert(r@ =~= l@.drop_last());
        r
    }

    /// The lines of `s`.
    pub fn new(s: &'a [u8]) -> (r: ByteLines<'a>)
        ensures
            r.input() == s@,
            r.pos() == 0,
            r.wf(),
    {
        assert(s@.take(s@.len() as int) =~= s@);
        ByteLines { input: s, pos: 0, end: s.len() }
    }

    /// The next line, without its terminator, or `None` after the last one.
    pub fn next_line(&mut self) -> (r: Option<&'a [u8]>)
        requires
            old(self).wf(),
        ensures
            final(self).wf(),
            final(self).input() == old(self).input(),
            match next_line_from(old(self).input(), old(self).pos()) {
                Some((line, next)) => r is Some && r.unwrap()@ == line && final(self).pos()
                    == next,
                None => r is None && final(self).pos() == old(self).pos(),
            },
    {
        let s = self.input;
        let start = self.pos;
        let stop = self.end;
        if start >= stop {
            return None;
        }
        let ghost w = old(self).input();
        let mut i = start;
        while i < stop && !Self::is_newline(&s[i])
            invariant
                start <= i <= stop,
                start < stop <= s@.len(),
                w == s@.take(stop as int),
                first_newline_from(w, start as int) == first_newline_from(w, i as int),
            decreases stop - i,
        {
            i = i + 1;
        }
        let next = if i < stop {
            i + 1
        } else {
            i
        };
        let raw = slice_subrange(s, start, next);
        assert(raw@ =~= w.subrange(start as int, next as int));
        self.pos = next;
        Some(Self::strip_newlines(raw))
    }

    /// The last line not yet taken, without its terminator, or `None` once the lines
    /// taken from both ends meet.
    pub fn next_line_back(&mut self) -> (r: Option<&'a [u8]>)
        requires
            old(self).wf(),
        ensures
            final(self).wf(),
            final(self).pos() == old(self).pos(),
            match prev_line_from(old(self).input(), old(self).pos()) {
                Some((line, start)) => r is Some && r.unwrap()@ == line && final(self).input()
                    == old(self).input().take(start),
                None => r is None && final(self).input() == old(self).input(),
            },
    {
        let s = self.input;
        let start = self.pos;
        let stop = self.end;
        if start >= stop {
            return None;
        }
        let ghost w = old(self).input();
        let k = if Self::is_newline(&s[stop - 1]) {
            stop - 1
        } else {
            stop
        };
        assert(w.last() == s@[stop - 1]);
        let mut j = k;
        while j > start && !Self::is_newline(&s[j - 1])
            invariant
                start <= j <= k <= stop <= s@.len(),
                start < stop,
                w == s@.take(stop as int),
                last_newline_before(w, start as int, k as int) == last_newline_before(
                    w,
                    start as int,
                    j as int,
                ),
            decreases j,
        {
            j = j - 1;
        }
        let raw = slice_subrange(s, j, stop);
        assert(raw@ =~= w.subrange(j as int, stop as int));
        self.end = j;
        assert(s@.take(j as int) =~= w.take(j as int));
        Some(Self::strip_newlines(raw))
    }

    /// The last line: the one `next_line_back` gives.
    pub fn last(self) -> (r: Option<&'a [u8]>)
        requires
            self.wf(),
        ensures
            match prev_line_from(self.input(), self.pos()) {
                Some((line, _)) => r is Some && r.unwrap()@ == line,
                None => r is None,
            },
    {
        let mut lines = self;
        lines.next_line_back()
    }
}

// ---------------------------------------------------------------------------
// Trimming
// ---------------------------------------------------------------------------

/// The bytes that `u8::is_ascii_whitespace` accepts: space, tab, line feed,
/// form feed and carriage return.
pub open spec fn is_ascii_whitespace(c: u8) -> bool {
    c == 0x20 || c == 0x09 || c == 0x0a || c == 0x0c || c == 0x0d
}

pub open spec fn trim_start(s: Seq<u8>) -> Seq<u8>
    decreases s.len(),
{
    if s.len() > 0 && is_ascii_whitespace(s[0]) {
        trim_start(s.drop_first())
    } else {
        s
    }
}

pub open spec fn trim_end(s: Seq<u8>) -> Seq<u8>
    decreases s.len(),
{
    if s.len() > 0 && is_ascii_whitespace(s.last()) {
        trim_end(s.drop_last())
    } else {
        s
    }
}

/// `s` without leading and trailing ASCII whitespace.
pub open spec fn spec_trim_ascii(s: Seq<u8>) -> Seq<u8> {
    trim_end(trim_start(s))
}

fn exec_is_ascii_whitespace(c: u8) -> (r: bool)
    ensures
        r == is_ascii_whitespace(c),
{
    c == 0x20 || c == 0x09 || c == 0x0a || c == 0x0c || c == 0x0d
}

fn trim_ascii(s: &[u8]) -> (r: &[u8])
    ensures
        r@ == spec_trim_ascii(s@),
{
    let mut a: usize = 0;
    assert(s@.subrange(0, s@.len() as int) =~= s@);
    while a < s.len() && exec_is_ascii_whitespace(s[a])
        invariant
            0 <= a <= s@.len(),
            trim_start(s@) == trim_start(s@.subrange(a as int, s@.len() as int)),
        decreases s@.len() - a,
    {
        assert(s@.subrange(a as int, s@.len() as int).drop_first() =~= s@.subrange(
            a + 1,
            s@.len() as int,
        ));
        a = a + 1;
    }
    let t = slice_subrange(s, a, s.len());
    assert(t@ == trim_start(s@));
    let mut b: usize = t.len();
    assert(t@.subrange(0, t@.len() as int) =~= t@);
    while b > 0 && exec_is_ascii_whitespace(t[b - 1])
        invariant
            0 <= b <= t@.len(),
            trim_end(t@) == trim_end(t@.subrange(0, b as int)),
        decreases b,
    {
        assert(t@.subrange(0, b as int).drop_last() =~= t@.subrange(0, b - 1));
        b = b - 1;
    }
    assert(t@.subrange(0, t@.len() as int) =~= t@);
    slice_subrange(t, 0, b)
}

// ---------------------------------------------------------------------------
// Entries
// ---------------------------------------------------------------------------

/// Whether a trimmed line carries no entry: it is blank or a `#` comment.
pub open spec fn is_skipped_line(trimmed: Seq<u8>) -> bool {
    trimmed.len() == 0 || trimmed[0] == 0x23
}

/// Reading on from line position `pos` of `s`: the next entry (its key and the bytes
/// of its value) and the position after its line, `None` and the end position when no
/// entry is left, or the error of the first line that is neither skipped nor valid,
/// with the position after that line.
pub open spec fn next_entry_from(s: Seq<u8>, pos: int) -> (
    Result<Option<(Seq<u8>, Seq<u8>)>, Error>,
    int,
)
    decreases s.len() - pos,
{
    match next_line_from(s, pos) {
        None => (Ok(None), pos),
        Some((line, next)) => {
            let trimmed = spec_trim_ascii(line);
            if is_skipped_line(trimmed) {
                if pos < next <= s.len() {
                    next_entry_from(s, next)
                } else {
                    (Ok(None), pos)
                }
            } else {
                match spec_parse_line(trimmed) {
                    Ok(kv) => (Ok(Some(kv)), next),
                    Err(e) => (Err(e), next),
                }
            }
        },
    }
}

/// The trimmed line that holds the next entry, or the first line that is neither
/// skipped nor valid, read from line position `pos` of `s` on.
pub open spec fn next_entry_line_from(s: Seq<u8>, pos: int) -> Option<Seq<u8>>
    decreases s.len() - pos,
{
    match next_line_from(s, pos) {
        None => None,
        Some((line, next)) => {
            let trimmed = spec_trim_ascii(line);
            if is_skipped_line(trimmed) {
                if pos < next <= s.len() {
                    next_entry_line_from(s, next)
                } else {
                    None
                }
            } else {
                Some(trimmed)
            }
        },
    }
}

/// The raw (still quoted) value of a line: everything after its first `=`.
pub open spec fn raw_value(line: Seq<u8>) -> Seq<u8> {
    line.skip(first_equal_from(line, 0).unwrap() + 1)
}

proof fn lemma_next_line_advances(s: Seq<u8>, pos: int)
    requires
        0 <= pos <= s.len(),
    ensures
        match next_line_from(s, pos) {
            Some((_, next)) => pos < next <= s.len(),
            None => pos == s.len(),
        },
{
    if pos < s.len() {
        lemma_first_newline_from(s, pos);
    }
}

proof fn lemma_first_newline_from(s: Seq<u8>, i: int)
    requires
        0 <= i <= s.len(),
    ensures
        match first_newline_from(s, i) {
            Some(n) => i <= n < s.len(),
            None => true,
        },
    decreases s.len() - i,
{
    if i < s.len() && s[i] != 0x0a {
        lemma_first_newline_from(s, i + 1);
    }
}

/// The entries read from line position `pos` of `s` on, one `next_key` and
/// `next_value` after another, or the first error met on the way.
pub open spec fn read_entries_from(s: Seq<u8>, pos: int) -> Result<
    Seq<(Seq<u8>, Seq<u8>)>,
    Error,
>
    decreases s.len() - pos,
{
    let (r, next) = next_entry_from(s, pos);
    match r {
        Err(e) => Err(e),
        Ok(None) => Ok(seq![]),
        Ok(Some(kv)) => {
            if pos < next <= s.len() {
                match read_entries_from(s, next) {
                    Ok(rest) => Ok(seq![kv] + rest),
                    Err(e) => Err(e),
                }
            } else {
                Ok(seq![kv])
            }
        },
    }
}

/// The text of the error given when a value is asked for before its key.
pub open spec fn value_before_key_text() -> Seq<char> {
    "value called before key"@
}

/// Walks the entries of an env file: a key at a time, then its value.
pub struct VarMapAccess<'a> {
    lines: ByteLines<'a>,
    current_value: Option<Cow<'a, [u8]>>,
}

impl<'a> VarMapAccess<'a> {
    pub closed spec fn input(&self) -> Seq<u8> {
        self.lines.input()
    }

    pub closed spec fn pos(&self) -> int {
        self.lines.pos()
    }

    /// The value of the last key read, borrowed from the input or unquoted into a
    /// buffer, until it is taken.
    pub closed spec fn pending_value(&self) -> Option<Cow<'a, [u8]>> {
        self.current_value
    }

    pub closed spec fn wf(&self) -> bool {
        self.lines.wf()
    }

    /// Starts at the first line of `s`, with no value pending.
    pub fn new(s: &'a [u8]) -> (r: Self)
        ensures
            r.wf(),
            r.input() == s@,
            r.pos() == 0,
            r.pending_value() is None,
    {
        VarMapAccess { lines: ByteLines::new(s), current_value: None }
    }

    /// Reads on to the next entry, skipping blank lines and `#` comments, and returns
    /// its key; its value is kept until `next_value` takes it.
    pub fn next_key(&mut self) -> (r: Result<Option<&'a [u8]>, Error>)
        requires
            old(self).wf(),
        ensures
            final(self).wf(),
            final(self).input() == old(self).input(),
            final(self).pos() == next_entry_from(old(self).input(), old(self).pos()).1,
            match (r, next_entry_from(old(self).input(), old(self).pos()).0) {
                (Ok(Some(key)), Ok(Some((k, v)))) => {
                    &&& key@ == k
                    &&& final(self).pending_value() matches Some(c)
                    &&& c@ == v
                    &&& (c is Borrowed <==> !has_value_special(
                        raw_value(next_entry_line_from(old(self).input(), old(self).pos()).unwrap()),
                    ))
                },
                (Ok(None), Ok(None)) => final(self).pending_value() == old(self).pending_value(),
                (Err(e), Err(e2)) => e == e2 && final(self).pending_value() == old(
                    self,
                ).pending_value(),
                _ => false,
            },
    {
        loop
            invariant
                self.wf(),
                self.input() == old(self).input(),
                self.pending_value() == old(self).pending_value(),
                next_entry_from(old(self).input(), old(self).pos()) == next_entry_from(
                    self.input(),
                    self.pos(),
                ),
                next_entry_line_from(old(self).input(), old(self).pos()) == next_entry_line_from(
                    self.input(),
                    self.pos(),
                ),
            decreases self.input().len() - self.pos(),
        {
            proof {
                lemma_next_line_advances(self.input(), self.pos());
            }
            let line = match self.lines.next_line() {
                None => {
                    return Ok(None);
                },
                Some(l) => l,
            };
            let trimmed = trim_ascii(line);
            if trimmed.len() == 0 || trimmed[0] == 0x23 {
                continue ;
            }
            let (key, val) = parse_line(trimmed)?;
            self.current_value = Some(val);
            return Ok(Some(key));
        }
    }

    /// Takes the value of the last key read; asking twice, or before any key, is an
    /// error.
    pub fn next_value(&mut self) -> (r: Result<Cow<'a, [u8]>, Error>)
        requires
            old(self).wf(),
        ensures
            final(self).wf(),
            final(self).input() == old(self).input(),
            final(self).pos() == old(self).pos(),
            final(self).pending_value() is None,
            match (r, old(self).pending_value()) {
                (Ok(v), Some(p)) => v == p,
                (Err(Error::Custom(m)), None) => m@ == value_before_key_text(),
                _ => false,
            },
    {
        match self.current_value.take() {
            Some(v) => Ok(v),
            None => Err(Error::Custom(String::from_str("value called before key"))),
        }
    }
}

// ---------------------------------------------------------------------------
// The deserializer
// ---------------------------------------------------------------------------

/// Reads an env file as a map from keys to values.
pub struct Deserializer<'a> {
    input: &'a [u8],
}

impl<'a> Deserializer<'a> {
    pub closed spec fn input(&self) -> Seq<u8> {
        self.input@
    }

    pub fn new(input: &'a [u8]) -> (r: Self)
        ensures
            r.input() == input@,
    {
        Self { input }
    }

    /// The entries of the whole input, from its first line on.
    pub fn map_access(&self) -> (r: VarMapAccess<'a>)
        ensures
            r.wf(),
            r.input() == self.input(),
            r.pos() == 0,
            r.pending_value() is None,
    {
        VarMapAccess::new(self.input)
    }
}


// ---------------------------------------------------------------------------
// Values
// ---------------------------------------------------------------------------

/// Reads text with `core::str::from_utf8`, which accepts exactly the valid UTF-8
/// byte sequences and hands back the same bytes as a `str`.
#[verifier::external_body]
fn utf8_str(bytes: &[u8]) -> (r: Option<&str>)
    ensures
        match r {
            Some(s) => valid_utf8(bytes@) && s.spec_bytes() == bytes@,
            None => !valid_utf8(bytes@),
        },
{
    core::str::from_utf8(bytes).ok()
}

/// Reads the value of one entry as one of the plain types.
pub struct ValueDeserializer<'a> {
    raw: Cow<'a, [u8]>,
}

impl<'a> View for ValueDeserializer<'a> {
    type V = Seq<u8>;

    closed spec fn view(&self) -> Seq<u8> {
        self.raw@
    }
}

impl<'a> ValueDeserializer<'a> {
    /// Reads the value whose bytes are `raw`.
    pub fn new(raw: Cow<'a, [u8]>) -> (r: Self)
        ensures
            r@ == raw@,
            r.raw() == raw,
    {
        ValueDeserializer { raw }
    }

    pub closed spec fn raw(&self) -> Cow<'a, [u8]> {
        self.raw
    }

    /// The bytes of the value, borrowed from the input where they were not unquoted.
    pub fn as_cow(&self) -> (r: &Cow<'a, [u8]>)
        ensures
            *r == self.raw(),
            r@ == self@,
    {
        &self.raw
    }

    /// The value itself, handed over.
    pub fn into_cow(self) -> (r: Cow<'a, [u8]>)
        ensures
            r == self.raw(),
    {
        self.raw
    }

    /// The bytes of the value.
    pub fn bytes(&self) -> (r: &[u8])
        ensures
            r@ == self@,
    {
        match &self.raw {
            Cow::Borrowed(b) => b,
            Cow::Owned(v) => v.as_slice(),
        }
    }

    /// `true` and `false` are the two booleans; anything else is refused.
    pub fn parse_bool(&self) -> (r: Result<bool, Error>)
        ensures
            r == (if self@ == bool_text(true) {
                Ok::<bool, Error>(true)
            } else if self@ == bool_text(false) {
                Ok::<bool, Error>(false)
            } else {
                Err::<bool, Error>(Error::ValueNotBoolean)
            }),
    {
        let b = self.bytes();
        if b.len() == 4 && b[0] == 0x74 && b[1] == 0x72 && b[2] == 0x75 && b[3] == 0x65 {
            assert(b@ =~= bool_text(true));
            Ok(true)
        } else if b.len() == 5 && b[0] == 0x66 && b[1] == 0x61 && b[2] == 0x6c && b[3] == 0x73
            && b[4] == 0x65 {
            assert(b@ =~= bool_text(false));
            Ok(false)
        } else {
            assert(b@ != bool_text(true) && b@ != bool_text(false)) by {
                if b@ == bool_text(true) {
                    assert(b@[0] == 0x74 && b@[1] == 0x72 && b@[2] == 0x75 && b@[3] == 0x65);
                }
                if b@ == bool_text(false) {
                    assert(b@[0] == 0x66 && b@[1] == 0x61 && b@[2] == 0x6c && b@[3] == 0x73
                        && b@[4] == 0x65);
                }
            }
            Err(Error::ValueNotBoolean)
        }
    }

    /// Reads the value as a whole `i8` with `lexical_core`: an optional sign, then
    /// decimal digits, with a value that fits.
    pub fn parse_i8(&self) -> (r: Result<i8, Error>)
        ensures
            match integer_text_value(self@, true, -128, 127) {
                Some(n) => r matches Ok(v) && v as int == n,
                None => r == Err::<i8, Error>(Error::ValueNotI8),
            },
            forall|n: int|
                -128 <= n <= 127 && self@ == decimal_text(n) ==> r == Ok::<i8, Error>(n as i8),
    {
        proof {
            assert forall|n: int| -128 <= n <= 127 && self@ == decimal_text(n) implies integer_text_value(
                self@,
                true,
                -128,
                127,
            ) == Some(n) by {
                lemma_decimal_text_reads_back(n, true, -128, 127);
            }
        }
        match numbers::parse_i8(self.bytes()) {
            Some(v) => Ok(v),
            None => Err(Error::ValueNotI8),
        }
    }

    /// Reads the value as a whole `i16` with `lexical_core`: an optional sign, then
    /// decimal digits, with a value that fits.
    pub fn parse_i16(&self) -> (r: Result<i16, Error>)
        ensures
            match integer_text_value(self@, true, -32768, 32767) {
                Some(n) => r matches Ok(v) && v as int == n,
                None => r == Err::<i16, Error>(Error::ValueNotI16),
            },
            forall|n: int|
                -32768 <= n <= 32767 && self@ == decimal_text(n) ==> r == Ok::<i16, Error>(n as i16),
    {
        proof {
            assert forall|n: int| -32768 <= n <= 32767 && self@ == decimal_text(n) implies integer_text_value(
                self@,
                true,
                -32768,
                32767,
            ) == Some(n) by {
                lemma_decimal_text_reads_back(n, true, -32768, 32767);
            }
        }
        match numbers::parse_i16(self.bytes()) {
            Some(v) => Ok(v),
            None => Err(Error::ValueNotI16),
        }
    }

    /// Reads the value as a whole `i32` with `lexical_core`: an optional sign, then
    /// decimal digits, with a value that fits.
    pub fn parse_i32(&self) -> (r: Result<i32, Error>)
        ensures
            match integer_text_value(self@, true, -2147483648, 2147483647) {
                Some(n) => r matches Ok(v) && v as int == n,
                None => r == Err::<i32, Error>(Error::ValueNotI32),
            },
            forall|n: int|
                -2147483648 <= n <= 2147483647 && self@ == decimal_text(n) ==> r == Ok::<i32, Error>(n as i32),
    {
        proof {
            assert forall|n: int| -2147483648 <= n <= 2147483647 && self@ == decimal_text(n) implies integer_text_value(
                self@,
                true,
                -2147483648,
                2147483647,
            ) == Some(n) by {
                lemma_decimal_text_reads_back(n, true, -2147483648, 2147483647);
            }
        }
        match numbers::parse_i32(self.bytes()) {
            Some(v) => Ok(v),
            None => Err(Error::ValueNotI32),
        }
    }

    /// Reads the value as a whole `i64` with `lexical_core`: an optional sign, then
    /// decimal digits, with a value that fits.
    pub fn parse_i64(&self) -> (r: Result<i64, Error>)
        ensures
            match integer_text_value(self@, true, -9223372036854775808, 9223372036854775807) {
                Some(n) => r matches Ok(v) && v as int == n,
                None => r == Err::<i64, Error>(Error::ValueNotI64),
            },
            forall|n: int|
                -9223372036854775808 <= n <= 9223372036854775807 && self@ == decimal_text(n) ==> r == Ok::<i64, Error>(n as i64),
    {
        proof {
            assert forall|n: int| -9223372036854775808 <= n <= 9223372036854775807 && self@ == decimal_text(n) implies integer_text_value(
                self@,
                true,
                -9223372036854775808,
                9223372036854775807,
            ) == Some(n) by {
                lemma_decimal_text_reads_back(n, true, -9223372036854775808, 9223372036854775807);
            }
        }
        match numbers::parse_i64(self.bytes()) {
            Some(v) => Ok(v),
            None => Err(Error::ValueNotI64),
        }
    }

    /// Reads the value as a whole `u8` with `lexical_core`: an optional sign, then
    /// decimal digits, with a value that fits.
    pub fn parse_u8(&self) -> (r: Result<u8, Error>)
        ensures
            match integer_text_value(self@, false, 0, 255) {
                Some(n) => r matches Ok(v) && v as int == n,
                None => r == Err::<u8, Error>(Error::ValueNotU8),
            },
            forall|n: int|
                0 <= n <= 255 && self@ == decimal_text(n) ==> r == Ok::<u8, Error>(n as u8),
    {
        proof {
            assert forall|n: int| 0 <= n <= 255 && self@ == decimal_text(n) implies integer_text_value(
                self@,
                false,
                0,
                255,
            ) == Some(n) by {
                lemma_decimal_text_reads_back(n, false, 0, 255);
            }
        }
        match numbers::parse_u8(self.bytes()) {
            Some(v) => Ok(v),
            None => Err(Error::ValueNotU8),
        }
    }

    /// Reads the value as a whole `u16` with `lexical_core`: an optional sign, then
    /// decimal digits, with a value that fits.
    pub fn parse_u16(&self) -> (r: Result<u16, Error>)
        ensures
            match integer_text_value(self@, false, 0, 65535) {
                Some(n) => r matches Ok(v) && v as int == n,
                None => r == Err::<u16, Error>(Error::ValueNotU16),
            },
            forall|n: int|
                0 <= n <= 65535 && self@ == decimal_text(n) ==> r == Ok::<u16, Error>(n as u16),
    {
        proof {
            assert forall|n: int| 0 <= n <= 65535 && self@ == decimal_text(n) implies integer_text_value(
                self@,
                false,
                0,
                65535,
            ) == Some(n) by {
                lemma_decimal_text_reads_back(n, false, 0, 65535);
            }
        }
        match numbers::parse_u16(self.bytes()) {
            Some(v) => Ok(v),
            None => Err(Error::ValueNotU16),
        }
    }

    /// Reads the value as a whole `u32` with `lexical_core`: an optional sign, then
    /// decimal digits, with a value that fits.
    pub fn parse_u32(&self) -> (r: Result<u32, Error>)
        ensures
            match integer_text_value(self@, false, 0, 4294967295) {
                Some(n) => r matches Ok(v) && v as int == n,
                None => r == Err::<u32, Error>(Error::ValueNotU32),
            },
            forall|n: int|
                0 <= n <= 4294967295 && self@ == decimal_text(n) ==> r == Ok::<u32, Error>(n as u32),
    {
        proof {
            assert forall|n: int| 0 <= n <= 4294967295 && self@ == decimal_text(n) implies integer_text_value(
                self@,
                false,
                0,
                4294967295,
            ) == Some(n) by {
                lemma_decimal_text_reads_back(n, false, 0, 4294967295);
            }
        }
        match numbers::parse_u32(self.bytes()) {
            Some(v) => Ok(v),
            None => Err(Error::ValueNotU32),
        }
    }

    /// Reads the value as a whole `u64` with `lexical_core`: an optional sign, then
    /// decimal digits, with a value that fits.
    pub fn parse_u64(&self) -> (r: Result<u64, Error>)
        ensures
            match integer_text_value(self@, false, 0, 18446744073709551615) {
                Some(n) => r matches Ok(v) && v as int == n,
                None => r == Err::<u64, Error>(Error::ValueNotU64),
            },
            forall|n: int|
                0 <= n <= 18446744073709551615 && self@ == decimal_text(n) ==> r == Ok::<u64, Error>(n as u64),
    {
        proof {
            assert forall|n: int| 0 <= n <= 18446744073709551615 && self@ == decimal_text(n) implies integer_text_value(
                self@,
                false,
                0,
                18446744073709551615,
            ) == Some(n) by {
                lemma_decimal_text_reads_back(n, false, 0, 18446744073709551615);
            }
        }
        match numbers::parse_u64(self.bytes()) {
            Some(v) => Ok(v),
            None => Err(Error::ValueNotU64),
        }
    }

    /// An empty value stands for no value (`None`).
    pub fn is_none(&self) -> (r: bool)
        ensures
            r == (self@.len() == 0),
    {
        self.bytes().len() == 0
    }

    /// An empty value is the unit; anything else is refused.
    pub fn parse_unit(&self) -> (r: Result<(), Error>)
        ensures
            r == (if self@.len() == 0 {
                Ok::<(), Error>(())
            } else {
                Err::<(), Error>(Error::ValueNotUnit)
            }),
    {
        if self.bytes().len() == 0 {
            Ok(())
        } else {
            Err(Error::ValueNotUnit)
        }
    }

    /// Reads `bytes` as text: they must be valid UTF-8.
    pub fn decode_str<'b>(bytes: &'b [u8]) -> (r: Result<&'b str, Error>)
        ensures
            match r {
                Ok(s) => valid_utf8(bytes@) && s.spec_bytes() == bytes@,
                Err(e) => !valid_utf8(bytes@) && e == Error::InvaildUtf8,
            },
    {
        match utf8_str(bytes) {
            Some(s) => Ok(s),
            None => Err(Error::InvaildUtf8),
        }
    }

    /// Reads the value as text.
    pub fn parse_str(&self) -> (r: Result<&str, Error>)
        ensures
            match r {
                Ok(s) => valid_utf8(self@) && s.spec_bytes() == self@,
                Err(e) => !valid_utf8(self@) && e == Error::InvaildUtf8,
            },
    {
        Self::decode_str(self.bytes())
    }
}
} // verus!
