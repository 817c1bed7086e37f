//! Properties of the format as a whole: how what is written relates to what is read.
use crate::common::State;
use crate::de::{
    check_identifier, first_equal_from, first_newline_from, is_ascii_whitespace, is_skipped_line,
    is_value_special, next_entry_from, next_line_from, read_entries_from, spec_trim_ascii,
    trim_start, trim_end, spec_strip_newlines, first_non_ident_from, has_value_special, is_ident_char, prepend,
    lemma_plain_value_unquotes_to_itself, spec_parse_line, unquote, unquote_from,
};
use crate::error::Error;
use crate::ser::{check_value, check_value_from, is_written_special, lemma_plain_value_passes};
use vstd::prelude::*;

verus! {

proof fn lemma_first_non_ident_none(key: Seq<u8>, i: int)
    requires
        0 <= i <= key.len(),
        first_non_ident_from(key, i) is None,
    ensures
        forall|j: int| i <= j < key.len() ==> is_ident_char(#[trigger] key[j]),
    decreases key.len() - i,
{
    if i < key.len() {
        lemma_first_non_ident_none(key, i + 1);
    }
}

/// A valid identifier is made of identifier bytes only.
pub proof fn lemma_identifier_bytes(key: Seq<u8>)
    requires
        check_identifier(key) == Ok::<(), Error>(()),
    ensures
        key.len() > 0,
        forall|j: int| 0 <= j < key.len() ==> is_ident_char(#[trigger] key[j]),
{
    lemma_first_non_ident_none(key, 1);
}

proof fn lemma_first_equal_after_key(v: Seq<u8>, key: Seq<u8>, i: int)
    requires
        0 <= i <= key.len(),
        key.len() < v.len(),
        v[key.len() as int] == 0x3d,
        forall|j: int| 0 <= j < key.len() ==> v[j] == key[j],
        forall|j: int| 0 <= j < key.len() ==> is_ident_char(#[trigger] key[j]),
    ensures
        first_equal_from(v, i) == Some(key.len() as int),
    decreases key.len() - i,
{
    if i < key.len() {
        assert(is_ident_char(key[i]));
        lemma_first_equal_after_key(v, key, i + 1);
    }
}

/// A line made of a valid identifier, `=` and a value without quotes, backslashes or
/// shell characters reads back as that key and that value.
pub proof fn lemma_plain_entry_parses(key: Seq<u8>, value: Seq<u8>)
    requires
        check_identifier(key) == Ok::<(), Error>(()),
        !has_value_special(value),
    ensures
        spec_parse_line(key + seq![0x3du8] + value) == Ok::<(Seq<u8>, Seq<u8>), Error>(
            (key, value),
        ),
{
    let v = key + seq![0x3du8] + value;
    lemma_identifier_bytes(key);
    lemma_first_equal_after_key(v, key, 0);
    assert(v.take(key.len() as int) =~= key);
    assert(v.skip(key.len() as int + 1) =~= value);
    lemma_plain_value_unquotes_to_itself(value, 0);
    assert(value.skip(0) =~= value);
}

/// A line made of a valid identifier, `=` and a value reads as that key and what the
/// value unquotes to, or fails as the value does.
pub proof fn lemma_entry_parses(key: Seq<u8>, value: Seq<u8>)
    requires
        check_identifier(key) == Ok::<(), Error>(()),
    ensures
        spec_parse_line(key + seq![0x3du8] + value) == (match unquote(value) {
            Ok(u) => Ok::<(Seq<u8>, Seq<u8>), Error>((key, u)),
            Err(e) => Err::<(Seq<u8>, Seq<u8>), Error>(e),
        }),
{
    let v = key + seq![0x3du8] + value;
    lemma_identifier_bytes(key);
    lemma_first_equal_after_key(v, key, 0);
    assert(v.take(key.len() as int) =~= key);
    assert(v.skip(key.len() as int + 1) =~= value);
}

/// Every value that the reader accepts, the writer accepts as well: reading refuses
/// all that writing refuses, and line feeds outside quotes besides.
pub proof fn lemma_readable_value_is_writable(val: Seq<u8>, i: int, state: State)
    requires
        0 <= i,
        unquote_from(val, i, state) is Ok,
    ensures
        check_value_from(val, i, state) == Ok::<(), Error>(()),
    decreases val.len() - i,
{
    if i < val.len() {
        let c = val[i];
        if c == 0x5c && state != State::SingleQuoted {
            if i + 1 < val.len() {
                lemma_readable_value_is_writable(val, i + 2, state);
            }
        } else {
            match state {
                State::Unquoted => {
                    if c == 0x27 {
                        lemma_readable_value_is_writable(val, i + 1, State::SingleQuoted);
                    } else if c == 0x22 {
                        lemma_readable_value_is_writable(val, i + 1, State::DoubleQuoted);
                    } else {
                        lemma_readable_value_is_writable(val, i + 1, state);
                    }
                },
                State::SingleQuoted => {
                    if c == 0x27 {
                        lemma_readable_value_is_writable(val, i + 1, State::Unquoted);
                    } else {
                        lemma_readable_value_is_writable(val, i + 1, state);
                    }
                },
                State::DoubleQuoted => {
                    if c == 0x22 {
                        lemma_readable_value_is_writable(val, i + 1, State::Unquoted);
                    } else {
                        lemma_readable_value_is_writable(val, i + 1, state);
                    }
                },
            }
        }
    }
}

proof fn lemma_single_quoted_from(body: Seq<u8>, i: int)
    requires
        0 <= i <= body.len(),
        forall|j: int| 0 <= j < body.len() ==> #[trigger] body[j] != 0x27,
    ensures
        unquote_from(seq![0x27u8] + body + seq![0x27u8], i + 1, State::SingleQuoted) == Ok::<
            Seq<u8>,
            Error,
        >(body.skip(i)),
    decreases body.len() - i,
{
    let v = seq![0x27u8] + body + seq![0x27u8];
    if i < body.len() {
        assert(v[i + 1] == body[i]);
        assert(v.len() == body.len() + 2);
        lemma_single_quoted_from(body, i + 1);
        assert(unquote_from(v, i + 1, State::SingleQuoted) == prepend(
            body[i],
            unquote_from(v, i + 2, State::SingleQuoted),
        ));
        assert(seq![body[i]] + body.skip(i + 1) =~= body.skip(i));
    } else {
        assert(v[i + 1] == 0x27);
        assert(v.len() == body.len() + 2);
        assert(unquote_from(v, i + 2, State::Unquoted) == Ok::<Seq<u8>, Error>(seq![]));
        assert(body.skip(i) =~= Seq::<u8>::empty());
    }
}

/// Single quotes keep everything between them literally: a value in single quotes
/// that holds no single quote itself reads back as exactly its bytes.
pub proof fn lemma_single_quoted_value(body: Seq<u8>)
    requires
        forall|j: int| 0 <= j < body.len() ==> #[trigger] body[j] != 0x27,
    ensures
        unquote(seq![0x27u8] + body + seq![0x27u8]) == Ok::<Seq<u8>, Error>(body),
{
    lemma_single_quoted_from(body, 0);
    assert(body.skip(0) =~= body);
}


// ---------------------------------------------------------------------------
// Whole documents
// ---------------------------------------------------------------------------

/// The line that an entry is written as: its key, `=`, its value.
pub open spec fn entry_line(k: Seq<u8>, v: Seq<u8>) -> Seq<u8> {
    k + seq![0x3du8] + v
}

/// The document that a map of entries is written as: one line per entry, in order,
/// separated by line feeds (as `Compound::serialize_key`, `Compound::begin_value` and
/// `Serializer::serialize_str` write it).
pub open spec fn written_entries(es: Seq<(Seq<u8>, Seq<u8>)>) -> Seq<u8>
    decreases es.len(),
{
    if es.len() == 0 {
        seq![]
    } else if es.len() == 1 {
        entry_line(es[0].0, es[0].1)
    } else {
        entry_line(es[0].0, es[0].1) + seq![0x0au8] + written_entries(es.drop_first())
    }
}

/// An entry that both sides handle as it stands: an identifier for key, and a value
/// without quotes, backslashes, shell characters or ASCII whitespace.
pub open spec fn is_plain_entry(k: Seq<u8>, v: Seq<u8>) -> bool {
    &&& check_identifier(k) == Ok::<(), Error>(())
    &&& !has_value_special(v)
    &&& forall|i: int| 0 <= i < v.len() ==> !is_ascii_whitespace(#[trigger] v[i])
}

/// An entry whose line reads back: an identifier for key, and a value that unquotes,
/// holds no line feed and does not end in ASCII whitespace.
pub open spec fn is_writable_entry(k: Seq<u8>, v: Seq<u8>) -> bool {
    &&& check_identifier(k) == Ok::<(), Error>(())
    &&& unquote(v) is Ok
    &&& forall|i: int| 0 <= i < v.len() ==> #[trigger] v[i] != 0x0a
    &&& v.len() > 0 ==> !is_ascii_whitespace(v.last())
}

/// The bytes a value stands for once read (nothing where it does not unquote).
pub open spec fn unquoted(v: Seq<u8>) -> Seq<u8> {
    match unquote(v) {
        Ok(u) => u,
        Err(_) => Seq::empty(),
    }
}

/// The entries as a reader gives them back: each value unquoted.
pub open spec fn read_back(es: Seq<(Seq<u8>, Seq<u8>)>) -> Seq<(Seq<u8>, Seq<u8>)> {
    Seq::new(es.len(), |i: int| (es[i].0, unquoted(es[i].1)))
}

/// A plain entry is written and read back as it stands.
pub proof fn lemma_plain_entry_is_writable(k: Seq<u8>, v: Seq<u8>)
    requires
        is_plain_entry(k, v),
    ensures
        is_writable_entry(k, v),
        unquoted(v) == v,
{
    lemma_plain_value_unquotes_to_itself(v, 0);
    assert(v.skip(0) =~= v);
    assert forall|i: int| 0 <= i < v.len() implies #[trigger] v[i] != 0x0a by {
        if v[i] == 0x0a {
            assert(is_value_special(v[i]));
        }
    }
    if v.len() > 0 {
        assert(!is_ascii_whitespace(v[v.len() - 1]));
    }
}

proof fn lemma_first_newline_shift(a: Seq<u8>, b: Seq<u8>, p: int)
    requires
        0 <= p <= b.len(),
    ensures
        first_newline_from(a + b, a.len() + p) == (match first_newline_from(b, p) {
            Some(n) => Some(a.len() + n),
            None => None::<int>,
        }),
    decreases b.len() - p,
{
    if p < b.len() {
        assert((a + b)[a.len() + p] == b[p]);
        lemma_first_newline_shift(a, b, p + 1);
    }
}

proof fn lemma_next_line_shift(a: Seq<u8>, b: Seq<u8>, p: int)
    requires
        0 <= p <= b.len(),
    ensures
        next_line_from(a + b, a.len() + p) == (match next_line_from(b, p) {
            Some((line, next)) => Some((line, a.len() + next)),
            None => None::<(Seq<u8>, int)>,
        }),
{
    lemma_first_newline_shift(a, b, p);
    let s = a + b;
    if p < b.len() {
        match first_newline_from(b, p) {
            Some(n) => {
                lemma_first_newline_in(b, p);
                assert(s.subrange(a.len() + p, a.len() + n + 1) =~= b.subrange(p, n + 1));
            },
            None => {
                assert(s.subrange(a.len() + p, s.len() as int) =~= b.subrange(p, b.len() as int));
            },
        }
    }
}

proof fn lemma_first_newline_in(s: Seq<u8>, i: int)
    requires
        0 <= i <= s.len(),
    ensures
        match first_newline_from(s, i) {
            Some(n) => i <= n < s.len() && s[n] == 0x0a && forall|j: int|
                i <= j < n ==> s[j] != 0x0a,
            None => forall|j: int| i <= j < s.len() ==> s[j] != 0x0a,
        },
    decreases s.len() - i,
{
    if i < s.len() && s[i] != 0x0a {
        lemma_first_newline_in(s, i + 1);
    }
}

proof fn lemma_next_entry_shift(a: Seq<u8>, b: Seq<u8>, p: int)
    requires
        0 <= p <= b.len(),
    ensures
        next_entry_from(a + b, a.len() + p) == (
            next_entry_from(b, p).0,
            a.len() + next_entry_from(b, p).1,
        ),
    decreases b.len() - p,
{
    lemma_next_line_shift(a, b, p);
    match next_line_from(b, p) {
        None => {},
        Some((line, next)) => {
            if is_skipped_line(spec_trim_ascii(line)) && p < next <= b.len() {
                lemma_next_entry_shift(a, b, next);
            }
        },
    }
}

proof fn lemma_read_entries_shift(a: Seq<u8>, b: Seq<u8>, p: int)
    requires
        0 <= p <= b.len(),
    ensures
        read_entries_from(a + b, a.len() + p) == read_entries_from(b, p),
    decreases b.len() - p,
{
    lemma_next_entry_shift(a, b, p);
    let (r, next) = next_entry_from(b, p);
    if let Ok(Some(kv)) = r {
        if p < next <= b.len() {
            lemma_read_entries_shift(a, b, next);
        }
    }
}

proof fn lemma_entry_line_bytes(k: Seq<u8>, v: Seq<u8>)
    requires
        is_writable_entry(k, v),
    ensures
        forall|j: int| 0 <= j < entry_line(k, v).len() ==> #[trigger] entry_line(k, v)[j] != 0x0a,
        !is_ascii_whitespace(entry_line(k, v)[0]),
        entry_line(k, v)[0] != 0x23,
        !is_ascii_whitespace(entry_line(k, v).last()),
        entry_line(k, v).len() > 0,
{
    lemma_identifier_bytes(k);
    let l = entry_line(k, v);
    assert forall|j: int| 0 <= j < l.len() implies #[trigger] l[j] != 0x0a by {
        if j < k.len() {
            assert(is_ident_char(k[j]));
        } else if j > k.len() {
            assert(l[j] == v[j - k.len() - 1]);
        }
    }
    assert(l[0] == k[0]);
    assert(is_ident_char(k[0]));
    if v.len() > 0 {
        assert(l.last() == v[v.len() - 1]);
    }
}

proof fn lemma_trim_plain_line(l: Seq<u8>)
    requires
        l.len() > 0,
        !is_ascii_whitespace(l[0]),
        !is_ascii_whitespace(l.last()),
    ensures
        spec_trim_ascii(l) == l,
{
}

/// The first entry of a document that starts with a writable entry's line.
proof fn lemma_first_entry(k: Seq<u8>, v: Seq<u8>, rest: Seq<u8>, last: bool)
    requires
        is_writable_entry(k, v),
        last ==> rest.len() == 0,
    ensures
        ({
            let l = entry_line(k, v);
            let doc = if last {
                l
            } else {
                l + seq![0x0au8] + rest
            };
            let next = if last {
                l.len() as int
            } else {
                l.len() as int + 1
            };
            &&& next_entry_from(doc, 0) == (
                Ok::<Option<(Seq<u8>, Seq<u8>)>, Error>(Some((k, unquoted(v)))),
                next,
            )
            &&& 0 < next <= doc.len()
        }),
{
    let l = entry_line(k, v);
    lemma_entry_line_bytes(k, v);
    lemma_trim_plain_line(l);
    lemma_entry_parses(k, v);
    if last {
        let doc = l;
        lemma_first_newline_in(doc, 0);
        assert(first_newline_from(doc, 0) is None) by {
            if let Some(n) = first_newline_from(doc, 0) {
                assert(doc[n] != 0x0a);
            }
        }
        assert(doc.subrange(0, doc.len() as int) =~= l);
    } else {
        let doc = l + seq![0x0au8] + rest;
        lemma_first_newline_in(doc, 0);
        assert(doc[l.len() as int] == 0x0a);
        assert(first_newline_from(doc, 0) == Some(l.len() as int)) by {
            match first_newline_from(doc, 0) {
                Some(n) => {
                    if n < l.len() {
                        assert(doc[n] == l[n]);
                    }
                },
                None => {},
            }
        }
        assert(doc.subrange(0, l.len() as int + 1) =~= l + seq![0x0au8]);
        assert((l + seq![0x0au8]).drop_last() =~= l);
    }
}

/// What the writer writes, the reader gives back: a document written from entries
/// whose lines read back (see `is_writable_entry`), one after another, reads back as
/// those entries in that order, each value unquoted, and the writer accepts every key
/// and value of them.
pub proof fn lemma_written_entries_read_back_unquoted(es: Seq<(Seq<u8>, Seq<u8>)>)
    requires
        forall|i: int| 0 <= i < es.len() ==> is_writable_entry(#[trigger] es[i].0, es[i].1),
    ensures
        read_entries_from(written_entries(es), 0) == Ok::<Seq<(Seq<u8>, Seq<u8>)>, Error>(
            read_back(es),
        ),
        forall|i: int|
            0 <= i < es.len() ==> check_value(#[trigger] es[i].0) == Ok::<(), Error>(())
                && check_value(es[i].1) == Ok::<(), Error>(()),
    decreases es.len(),
{
    assert forall|i: int| 0 <= i < es.len() implies check_value(#[trigger] es[i].0) == Ok::<
        (),
        Error,
    >(()) && check_value(es[i].1) == Ok::<(), Error>(()) by {
        lemma_writable_entry_passes(es[i].0, es[i].1);
    }
    if es.len() == 0 {
        assert(next_line_from(written_entries(es), 0) is None);
        assert(read_back(es) =~= Seq::<(Seq<u8>, Seq<u8>)>::empty());
    } else if es.len() == 1 {
        assert(is_writable_entry(es[0].0, es[0].1));
        lemma_read_back_single(es[0].0, es[0].1);
        assert(written_entries(es) == entry_line(es[0].0, es[0].1));
        assert(seq![(es[0].0, unquoted(es[0].1))] =~= read_back(es));
    } else {
        assert(is_writable_entry(es[0].0, es[0].1));
        let tail = es.drop_first();
        assert forall|i: int| 0 <= i < tail.len() implies is_writable_entry(
            #[trigger] tail[i].0,
            tail[i].1,
        ) by {
            assert(tail[i] == es[i + 1]);
        }
        lemma_written_entries_read_back_unquoted(tail);
        lemma_read_back_cons(es[0].0, es[0].1, tail);
        assert(written_entries(es) == entry_line(es[0].0, es[0].1) + seq![0x0au8]
            + written_entries(tail));
        assert(seq![(es[0].0, unquoted(es[0].1))] + read_back(tail) =~= read_back(es));
    }
}

/// What the writer writes, the reader gives back: a document written from plain
/// entries, one after another, reads back as exactly those entries in that order,
/// and the writer accepts every key and value of them.
pub proof fn lemma_written_entries_read_back(es: Seq<(Seq<u8>, Seq<u8>)>)
    requires
        forall|i: int| 0 <= i < es.len() ==> is_plain_entry(#[trigger] es[i].0, es[i].1),
    ensures
        read_entries_from(written_entries(es), 0) == Ok::<Seq<(Seq<u8>, Seq<u8>)>, Error>(es),
        forall|i: int|
            0 <= i < es.len() ==> check_value(#[trigger] es[i].0) == Ok::<(), Error>(())
                && check_value(es[i].1) == Ok::<(), Error>(()),
{
    assert forall|i: int| 0 <= i < es.len() implies is_writable_entry(
        #[trigger] es[i].0,
        es[i].1,
    ) && unquoted(es[i].1) == es[i].1 by {
        lemma_plain_entry_is_writable(es[i].0, es[i].1);
    }
    lemma_written_entries_read_back_unquoted(es);
    assert(read_back(es) =~= es);
}

proof fn lemma_read_back_single(k: Seq<u8>, v: Seq<u8>)
    requires
        is_writable_entry(k, v),
    ensures
        read_entries_from(entry_line(k, v), 0) == Ok::<Seq<(Seq<u8>, Seq<u8>)>, Error>(
            seq![(k, unquoted(v))],
        ),
{
    lemma_first_entry(k, v, seq![], true);
    let doc = entry_line(k, v);
    assert(next_line_from(doc, doc.len() as int) is None);
    assert(read_entries_from(doc, doc.len() as int) == Ok::<Seq<(Seq<u8>, Seq<u8>)>, Error>(
        seq![],
    ));
    assert(seq![(k, unquoted(v))] + Seq::<(Seq<u8>, Seq<u8>)>::empty() =~= seq![(k, unquoted(v))]);
}

proof fn lemma_read_back_cons(k: Seq<u8>, v: Seq<u8>, tail: Seq<(Seq<u8>, Seq<u8>)>)
    requires
        is_writable_entry(k, v),
        read_entries_from(written_entries(tail), 0) == Ok::<Seq<(Seq<u8>, Seq<u8>)>, Error>(
            read_back(tail),
        ),
    ensures
        read_entries_from(entry_line(k, v) + seq![0x0au8] + written_entries(tail), 0) == Ok::<
            Seq<(Seq<u8>, Seq<u8>)>,
            Error,
        >(seq![(k, unquoted(v))] + read_back(tail)),
{
    let rest = written_entries(tail);
    let l = entry_line(k, v);
    lemma_first_entry(k, v, rest, false);
    let pre = l + seq![0x0au8];
    assert(l + seq![0x0au8] + rest =~= pre + rest);
    lemma_read_entries_shift(pre, rest, 0);
}

/// The writer accepts the key and the value of an entry whose line reads back.
proof fn lemma_writable_entry_passes(k: Seq<u8>, v: Seq<u8>)
    requires
        is_writable_entry(k, v),
    ensures
        check_value(k) == Ok::<(), Error>(()),
        check_value(v) == Ok::<(), Error>(()),
{
    lemma_identifier_bytes(k);
    assert forall|j: int| 0 <= j < k.len() implies !is_written_special(#[trigger] k[j]) by {
        assert(is_ident_char(k[j]));
    }
    lemma_plain_value_passes(k, 0);
    lemma_readable_value_is_writable(v, 0, State::Unquoted);
}


// ---------------------------------------------------------------------------
// Byte-level statements of what each step is for
// ---------------------------------------------------------------------------

/// The characters that the documentation of `Error::ValueUnescapedShellChar` lists
/// as refused outside quotes: `|`, `&`, `;`, `<`, `>`, `(`, `)`, `` ` ``, space, tab.
pub open spec fn is_listed_shell_byte(c: u8) -> bool {
    c == 0x7c || c == 0x26 || c == 0x3b || c == 0x3c || c == 0x3e || c == 0x28 || c == 0x29
        || c == 0x60 || c == 0x20 || c == 0x09
}

/// A byte that starts nothing special outside quotes: not a quote, not a backslash,
/// not a listed shell character, not a line feed.
pub open spec fn is_inert_byte(c: u8) -> bool {
    c != 0x22 && c != 0x27 && c != 0x5c && c != 0x0a && !is_listed_shell_byte(c)
}

proof fn lemma_bare_shell_char_from(v: Seq<u8>, i: int, j: int)
    requires
        0 <= j <= i < v.len(),
        is_listed_shell_byte(v[i]),
        forall|k: int| 0 <= k < i ==> is_inert_byte(#[trigger] v[k]),
    ensures
        check_value_from(v, j, State::Unquoted) == Err::<(), Error>(
            Error::ValueUnescapedShellChar { index: i as usize },
        ),
        unquote_from(v, j, State::Unquoted) == Err::<Seq<u8>, Error>(
            Error::ValueUnescapedShellChar { index: i as usize },
        ),
    decreases i - j,
{
    if j < i {
        assert(is_inert_byte(v[j]));
        lemma_bare_shell_char_from(v, i, j + 1);
    }
}

/// A listed shell character outside quotes is refused, by the writer and by the
/// reader alike, with its own index: a value whose bytes before position `i` are
/// ordinary and whose byte at `i` is `|`, `&`, `;`, `<`, `>`, `(`, `)`, `` ` ``, space
/// or tab fails with `ValueUnescapedShellChar { index: i }`.
pub proof fn lemma_bare_shell_char_refused(v: Seq<u8>, i: int)
    requires
        0 <= i < v.len(),
        is_listed_shell_byte(v[i]),
        forall|k: int| 0 <= k < i ==> is_inert_byte(#[trigger] v[k]),
    ensures
        check_value(v) == Err::<(), Error>(Error::ValueUnescapedShellChar { index: i as usize }),
        unquote(v) == Err::<Seq<u8>, Error>(Error::ValueUnescapedShellChar { index: i as usize }),
{
    lemma_bare_shell_char_from(v, i, 0);
}

/// The writer accepts nothing that the reader refuses, line feeds aside: for a value
/// without line feeds, the writer's check passes exactly when the value unquotes.
pub proof fn lemma_writable_value_is_readable(val: Seq<u8>, i: int, state: State)
    requires
        0 <= i,
        forall|k: int| 0 <= k < val.len() ==> #[trigger] val[k] != 0x0a,
        check_value_from(val, i, state) is Ok,
    ensures
        unquote_from(val, i, state) is Ok,
    decreases val.len() - i,
{
    if i < val.len() {
        let c = val[i];
        if c == 0x5c && state != State::SingleQuoted {
            if i + 1 < val.len() {
                lemma_writable_value_is_readable(val, i + 2, state);
            }
        } else {
            match state {
                State::Unquoted => {
                    if c == 0x27 {
                        lemma_writable_value_is_readable(val, i + 1, State::SingleQuoted);
                    } else if c == 0x22 {
                        lemma_writable_value_is_readable(val, i + 1, State::DoubleQuoted);
                    } else {
                        lemma_writable_value_is_readable(val, i + 1, state);
                    }
                },
                State::SingleQuoted => {
                    if c == 0x27 {
                        lemma_writable_value_is_readable(val, i + 1, State::Unquoted);
                    } else {
                        lemma_writable_value_is_readable(val, i + 1, state);
                    }
                },
                State::DoubleQuoted => {
                    if c == 0x22 {
                        lemma_writable_value_is_readable(val, i + 1, State::Unquoted);
                    } else {
                        lemma_writable_value_is_readable(val, i + 1, state);
                    }
                },
            }
        }
    }
}

proof fn lemma_double_quoted_from(body: Seq<u8>, i: int)
    requires
        0 <= i <= body.len(),
        forall|j: int| 0 <= j < body.len() ==> #[trigger] body[j] != 0x22 && body[j] != 0x5c,
    ensures
        unquote_from(seq![0x22u8] + body + seq![0x22u8], i + 1, State::DoubleQuoted) == Ok::<
            Seq<u8>,
            Error,
        >(body.skip(i)),
    decreases body.len() - i,
{
    let v = seq![0x22u8] + body + seq![0x22u8];
    assert(v.len() == body.len() + 2);
    if i < body.len() {
        assert(v[i + 1] == body[i]);
        lemma_double_quoted_from(body, i + 1);
        assert(unquote_from(v, i + 1, State::DoubleQuoted) == prepend(
            body[i],
            unquote_from(v, i + 2, State::DoubleQuoted),
        ));
        assert(seq![body[i]] + body.skip(i + 1) =~= body.skip(i));
    } else {
        assert(v[i + 1] == 0x22);
        assert(unquote_from(v, i + 2, State::Unquoted) == Ok::<Seq<u8>, Error>(seq![]));
        assert(body.skip(i) =~= Seq::<u8>::empty());
    }
}

/// Double quotes keep their contents literally, single quotes and shell characters
/// included: a value in double quotes that holds no double quote and no backslash
/// reads back as exactly its bytes.
pub proof fn lemma_double_quoted_value(body: Seq<u8>)
    requires
        forall|j: int| 0 <= j < body.len() ==> #[trigger] body[j] != 0x22 && body[j] != 0x5c,
    ensures
        unquote(seq![0x22u8] + body + seq![0x22u8]) == Ok::<Seq<u8>, Error>(body),
{
    lemma_double_quoted_from(body, 0);
    assert(body.skip(0) =~= body);
}

/// An ASCII letter or `_`.
pub open spec fn is_letter_or_underscore(c: u8) -> bool {
    (0x41 <= c <= 0x5a) || (0x61 <= c <= 0x7a) || c == 0x5f
}

/// An ASCII letter, digit or `_`.
pub open spec fn is_word_byte(c: u8) -> bool {
    is_letter_or_underscore(c) || (0x30 <= c <= 0x39)
}

proof fn lemma_word_bytes_from(key: Seq<u8>, i: int)
    requires
        0 <= i <= key.len(),
        forall|j: int| 0 <= j < key.len() ==> is_word_byte(#[trigger] key[j]),
    ensures
        first_non_ident_from(key, i) is None,
    decreases key.len() - i,
{
    if i < key.len() {
        assert(is_word_byte(key[i]));
        lemma_word_bytes_from(key, i + 1);
    }
}

/// Every identifier is accepted, whatever its length: a non-empty key that starts with
/// an ASCII letter or `_` and holds only ASCII letters, digits and `_`.
pub proof fn lemma_identifier_accepted(key: Seq<u8>)
    requires
        key.len() > 0,
        is_letter_or_underscore(key[0]),
        forall|j: int| 0 <= j < key.len() ==> is_word_byte(#[trigger] key[j]),
    ensures
        check_identifier(key) == Ok::<(), Error>(()),
{
    lemma_word_bytes_from(key, 1);
}

/// One of the bytes that `u8::is_ascii_whitespace` accepts.
pub open spec fn is_space_byte(c: u8) -> bool {
    c == 0x20 || c == 0x09 || c == 0x0a || c == 0x0c || c == 0x0d
}

proof fn lemma_trim_start_shape(s: Seq<u8>)
    ensures
        trim_start(s).len() <= s.len(),
        trim_start(s) == s.skip(s.len() - trim_start(s).len()),
        forall|j: int| 0 <= j < s.len() - trim_start(s).len() ==> is_space_byte(#[trigger] s[j]),
        trim_start(s).len() > 0 ==> !is_space_byte(trim_start(s)[0]),
    decreases s.len(),
{
    if s.len() > 0 && is_ascii_whitespace(s[0]) {
        let t = s.drop_first();
        lemma_trim_start_shape(t);
        let n = s.len() - trim_start(s).len();
        assert(trim_start(s) == trim_start(t));
        assert(t.skip(t.len() - trim_start(t).len()) =~= s.skip(n));
        assert forall|j: int| 0 <= j < n implies is_space_byte(#[trigger] s[j]) by {
            if j > 0 {
                assert(s[j] == t[j - 1]);
            }
        }
    } else {
        assert(s.skip(0) =~= s);
    }
}

proof fn lemma_trim_end_shape(s: Seq<u8>)
    ensures
        trim_end(s).len() <= s.len(),
        trim_end(s) == s.take(trim_end(s).len() as int),
        forall|j: int| trim_end(s).len() <= j < s.len() ==> is_space_byte(#[trigger] s[j]),
        trim_end(s).len() > 0 ==> !is_space_byte(trim_end(s).last()),
    decreases s.len(),
{
    if s.len() > 0 && is_ascii_whitespace(s.last()) {
        let t = s.drop_last();
        lemma_trim_end_shape(t);
        assert(trim_end(s) == trim_end(t));
        assert(t.take(trim_end(t).len() as int) =~= s.take(trim_end(t).len() as int));
        assert forall|j: int| trim_end(s).len() <= j < s.len() implies is_space_byte(
            #[trigger] s[j],
        ) by {
            if j < s.len() - 1 {
                assert(s[j] == t[j]);
            }
        }
    } else {
        assert(s.take(s.len() as int) =~= s);
    }
}

/// Trimming removes exactly the ASCII whitespace at both ends: the result is a stretch
/// `s[a..b]` of the line, every byte outside it is ASCII whitespace, and it neither
/// starts nor ends with ASCII whitespace. In particular a line of whitespace alone
/// trims to nothing.
pub proof fn lemma_trim_removes_edge_whitespace(s: Seq<u8>)
    ensures
        exists|a: int, b: int|
            #![trigger s.subrange(a, b)]
            {
                &&& 0 <= a <= b <= s.len()
                &&& spec_trim_ascii(s) == s.subrange(a, b)
                &&& forall|j: int| 0 <= j < a ==> is_space_byte(#[trigger] s[j])
                &&& forall|j: int| b <= j < s.len() ==> is_space_byte(#[trigger] s[j])
            },
        spec_trim_ascii(s).len() > 0 ==> !is_space_byte(spec_trim_ascii(s)[0])
            && !is_space_byte(spec_trim_ascii(s).last()),
        (forall|j: int| 0 <= j < s.len() ==> is_space_byte(#[trigger] s[j])) ==> spec_trim_ascii(
            s,
        ).len() == 0,
{
    let u = trim_start(s);
    lemma_trim_start_shape(s);
    lemma_trim_end_shape(u);
    let t = trim_end(u);
    let a = s.len() - u.len();
    let b = a + t.len();
    assert(t =~= s.subrange(a, b));
    assert forall|j: int| b <= j < s.len() implies is_space_byte(#[trigger] s[j]) by {
        assert(s[j] == u[j - a]);
    }
    if t.len() > 0 {
        assert(t[0] == u[0]);
    }
    if forall|j: int| 0 <= j < s.len() ==> is_space_byte(#[trigger] s[j]) {
        if t.len() > 0 {
            assert(t[0] == s[a]);
        }
    }
}

/// A line skipped where it stands: the reading of the rest is unchanged, only moved on
/// past the line.
proof fn lemma_skipped_first_line(c: Seq<u8>, doc: Seq<u8>)
    requires
        forall|j: int| 0 <= j < c.len() ==> #[trigger] c[j] != 0x0a,
        is_skipped_line(spec_trim_ascii(spec_strip_newlines(c + seq![0x0au8]))),
    ensures
        next_entry_from(c + seq![0x0au8] + doc, 0) == (
            next_entry_from(doc, 0).0,
            c.len() + 1 + next_entry_from(doc, 0).1,
        ),
{
    let pre = c + seq![0x0au8];
    let whole = pre + doc;
    assert(c + seq![0x0au8] + doc =~= whole);
    lemma_first_newline_in(whole, 0);
    assert(whole[c.len() as int] == 0x0a);
    assert(first_newline_from(whole, 0) == Some(c.len() as int)) by {
        match first_newline_from(whole, 0) {
            Some(n) => {
                if n < c.len() {
                    assert(whole[n] == c[n]);
                }
            },
            None => {},
        }
    }
    assert(whole.subrange(0, c.len() as int + 1) =~= pre);
    lemma_next_entry_shift(pre, doc, 0);
}

/// A comment line, one whose first byte is `#` (a bare `#` included), is skipped: the
/// entries after it read as they would without it.
pub proof fn lemma_comment_line_skipped(c: Seq<u8>, doc: Seq<u8>)
    requires
        c.len() > 0,
        c[0] == 0x23,
        forall|j: int| 0 <= j < c.len() ==> #[trigger] c[j] != 0x0a,
    ensures
        next_entry_from(c + seq![0x0au8] + doc, 0) == (
            next_entry_from(doc, 0).0,
            c.len() + 1 + next_entry_from(doc, 0).1,
        ),
{
    let l = spec_strip_newlines(c + seq![0x0au8]);
    assert((c + seq![0x0au8]).drop_last() =~= c);
    assert(l.len() > 0 && l[0] == 0x23) by {
        if c.len() > 0 && c.last() == 0x0d {
            assert(c.len() > 1);
            assert(l =~= c.drop_last());
        }
    }
    lemma_trim_removes_edge_whitespace(l);
    let t = spec_trim_ascii(l);
    let (a, b) = choose|a: int, b: int|
        {
            &&& 0 <= a <= b <= l.len()
            &&& #[trigger] spec_trim_ascii(l) == l.subrange(a, b)
            &&& forall|j: int| 0 <= j < a ==> is_space_byte(#[trigger] l[j])
            &&& forall|j: int| b <= j < l.len() ==> is_space_byte(#[trigger] l[j])
        };
    assert(!is_space_byte(l[0]));
    assert(a == 0);
    assert(b > 0) by {
        if b == 0 {
            assert(is_space_byte(l[0]));
        }
    }
    assert(t[0] == l[0]);
    lemma_skipped_first_line(c, doc);
}

/// A blank line, ASCII whitespace only (none at all included), is skipped: the entries
/// after it read as they would without it.
pub proof fn lemma_blank_line_skipped(c: Seq<u8>, doc: Seq<u8>)
    requires
        forall|j: int| 0 <= j < c.len() ==> #[trigger] c[j] != 0x0a && is_space_byte(c[j]),
    ensures
        next_entry_from(c + seq![0x0au8] + doc, 0) == (
            next_entry_from(doc, 0).0,
            c.len() + 1 + next_entry_from(doc, 0).1,
        ),
{
    let l = spec_strip_newlines(c + seq![0x0au8]);
    assert((c + seq![0x0au8]).drop_last() =~= c);
    assert forall|j: int| 0 <= j < l.len() implies is_space_byte(#[trigger] l[j]) by {
        assert(l[j] == c[j]);
    }
    lemma_trim_removes_edge_whitespace(l);
    lemma_skipped_first_line(c, doc);
}

proof fn lemma_bare_line_feed_from(v: Seq<u8>, i: int, j: int)
    requires
        0 <= j <= i < v.len(),
        v[i] == 0x0a,
        forall|k: int| 0 <= k < i ==> is_inert_byte(#[trigger] v[k]),
    ensures
        unquote_from(v, j, State::Unquoted) == Err::<Seq<u8>, Error>(
            Error::ValueUnescapedShellChar { index: i as usize },
        ),
    decreases i - j,
{
    if j < i {
        assert(is_inert_byte(v[j]));
        lemma_bare_line_feed_from(v, i, j + 1);
    }
}

/// The reader also refuses a line feed outside quotes, at its own index.
pub proof fn lemma_bare_line_feed_refused(v: Seq<u8>, i: int)
    requires
        0 <= i < v.len(),
        v[i] == 0x0a,
        forall|k: int| 0 <= k < i ==> is_inert_byte(#[trigger] v[k]),
    ensures
        unquote(v) == Err::<Seq<u8>, Error>(Error::ValueUnescapedShellChar { index: i as usize }),
{
    lemma_bare_line_feed_from(v, i, 0);
}

/// A backslash outside quotes takes the byte after it literally, whatever it is, and
/// a backslash at the very end is dangling.
pub proof fn lemma_escaped_byte(c: u8)
    ensures
        unquote(seq![0x5cu8]) == Err::<Seq<u8>, Error>(Error::ValueDanglingEscape),
        check_value(seq![0x5cu8]) == Err::<(), Error>(Error::ValueDanglingEscape),
        unquote(seq![0x5cu8, c]) == Ok::<Seq<u8>, Error>(seq![c]),
{
    let v = seq![0x5cu8, c];
    assert(v[0] == 0x5c && v[1] == c && v.len() == 2);
    assert(unquote_from(v, 2, State::Unquoted) == Ok::<Seq<u8>, Error>(seq![]));
    assert(seq![c] + Seq::<u8>::empty() =~= seq![c]);
}
} // verus!
