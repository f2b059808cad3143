//! The textual table syntax: one assignment, or one bare value, built from
//! `nil`, booleans, numbers, quoted strings and tables in braces, with
//! `--` comments wherever white space may stand.

use crate::float::{double_literal, parse_double};
use crate::value::{
    borrowed_from, entries_view, lemma_entries_view_push, lemma_values_view_push, pairs_map,
    values_view, Table, TableView, Value, ValueView,
};
use std::borrow::Cow;
use vstd::prelude::*;
use vstd::slice::slice_subrange;
use vstd::string::StringSliceAdditionalSpecFns;

verus! {

/// What kind of thing a value is, for messages about a value of the wrong
/// kind.
#[derive(Debug, Clone, Copy, PartialEq, Eq, Structural)]
pub enum ValueKind {
    Nil,
    Bool,
    Int,
    Float,
    String,
    /// A table without keys: an array, a float array or the empty table.
    Array,
    /// A table with keys.
    Named,
    /// A table with an array part and a keyed part.
    Mixed,
}

/// Why a text could not be read, or why a value does not fit the schema.
#[derive(Debug, Clone, Copy, PartialEq, Eq)]
pub enum ParseError {
    /// A field that the named record requires is absent.
    MissingKey { name: &'static str, key: &'static str },
    /// A field of the named record holds a value of the wrong kind.
    BadType { name: &'static str, expected: ValueKind, actual: ValueKind },
    /// A value that stands alone is of the wrong kind.
    InvalidPrimitive { expected: ValueKind, actual: ValueKind },
    /// A negative integer stands where an unsigned one is required.
    SignCast,
    /// The text does not follow the syntax; the offset is that of the byte
    /// at which the production that got furthest gave up.
    ValueError { offset: usize },
    /// A table with both an array part and a keyed part has no place in the
    /// schema.
    MixedTable,
}

/// Blank, tab, carriage return and line feed are white space.
pub open spec fn is_space(c: u8) -> bool {
    c == 32 || c == 9 || c == 13 || c == 10
}

/// The ten decimal digits.
pub open spec fn is_digit(c: u8) -> bool {
    48 <= c <= 57
}

/// Letters, digits and the underscore: what an identifier is made of.
pub open spec fn is_ident(c: u8) -> bool {
    is_digit(c) || 65 <= c <= 90 || 97 <= c <= 122 || c == 95
}

/// The offset of the first line break at or behind `p`, or the end of the
/// text.
pub open spec fn line_end(b: Seq<u8>, p: int) -> int
    decreases b.len() - p,
{
    if p < 0 || p >= b.len() {
        b.len() as int
    } else if b[p] == 13 || b[p] == 10 {
        p
    } else {
        line_end(b, p + 1)
    }
}

/// Where the comment that starts at `p` ends: two dashes, then everything
/// up to the end of the text or up to and including a line break, which is
/// a line feed or a carriage return with a line feed.
pub open spec fn comment_end(b: Seq<u8>, p: int) -> Option<int> {
    if 0 <= p && p + 2 <= b.len() && b[p] == 45 && b[p + 1] == 45 {
        let q = line_end(b, p + 2);
        if q >= b.len() {
            Some(b.len() as int)
        } else if b[q] == 10 {
            Some(q + 1)
        } else if q + 1 < b.len() && b[q + 1] == 10 {
            Some(q + 2)
        } else {
            None
        }
    } else {
        None
    }
}

/// The offset of the first byte at or behind `p` that is neither white
/// space nor inside a comment.
pub open spec fn skip_ws(b: Seq<u8>, p: int) -> int
    decreases b.len() - p,
{
    if p < 0 || p >= b.len() {
        p
    } else if is_space(b[p]) {
        skip_ws(b, p + 1)
    } else {
        match comment_end(b, p) {
            Some(q) => if q > p {
                skip_ws(b, q)
            } else {
                p
            },
            None => p,
        }
    }
}

/// Skips white space and comments.
pub fn spacing(input: &[u8], pos: usize) -> (r: usize)
    requires
        pos <= input.len(),
    ensures
        r == skip_ws(input@, pos as int),
        pos <= r <= input.len(),
{
    let mut p: usize = pos;
    loop
        invariant
            pos <= p <= input.len(),
            skip_ws(input@, pos as int) == skip_ws(input@, p as int),
        decreases input.len() - p,
    {
        if p >= input.len() {
            return p;
        }
        let c = input[p];
        if c == 32 || c == 9 || c == 13 || c == 10 {
            p += 1;
        } else if c == 45 && input.len() - p >= 2 && input[p + 1] == 45 {
            let mut q: usize = p + 2;
            while q < input.len() && input[q] != 13 && input[q] != 10
                invariant
                    p + 2 <= q <= input.len(),
                    line_end(input@, p + 2) == line_end(input@, q as int),
                decreases input.len() - q,
            {
                q += 1;
            }
            if q >= input.len() {
                p = q;
            } else if input[q] == 10 {
                p = q + 1;
            } else if input.len() - q >= 2 && input[q + 1] == 10 {
                p = q + 2;
            } else {
                return p;
            }
        } else {
            return p;
        }
    }
}

/// The offset of the first byte at or behind `p` that is no digit.
pub open spec fn digits_end(b: Seq<u8>, p: int) -> int
    decreases b.len() - p,
{
    if p < 0 || p >= b.len() || !is_digit(b[p]) {
        p
    } else {
        digits_end(b, p + 1)
    }
}

/// The number that the decimal digits from `from` up to `to` spell.
pub open spec fn digits_value(b: Seq<u8>, from: int, to: int) -> nat
    decreases to - from,
{
    if to <= from {
        0
    } else {
        digits_value(b, from, to - 1) * 10 + (b[to - 1] - 48) as nat
    }
}

/// The integer that stands at `p`, and the offset behind it: an optional
/// sign and all the digits that follow it. There is none where no digit
/// follows, or where the number does not fit in sixty-four bits.
pub open spec fn int_literal(b: Seq<u8>, p: int) -> Option<(i64, int)> {
    let negative = 0 <= p < b.len() && b[p] == 45;
    let signed = negative || (0 <= p < b.len() && b[p] == 43);
    let q = if signed {
        p + 1
    } else {
        p
    };
    let end = digits_end(b, q);
    let magnitude = digits_value(b, q, end) as int;
    let v = if negative {
        -magnitude
    } else {
        magnitude
    };
    if end <= q || v < i64::MIN || v > i64::MAX {
        None
    } else {
        Some((v as i64, end))
    }
}

/// Reads the integer that stands at `pos`.
pub fn read_int(input: &[u8], pos: usize) -> (r: Option<(i64, usize)>)
    requires
        pos <= input.len(),
    ensures
        match r {
            Some((v, next)) => int_literal(input@, pos as int) == Some((v, next as int)) && pos
                < next <= input.len(),
            None => int_literal(input@, pos as int) is None,
        },
{
    let negative = pos < input.len() && input[pos] == 45;
    let signed = negative || (pos < input.len() && input[pos] == 43);
    let start: usize = if signed {
        pos + 1
    } else {
        pos
    };
    let mut q: usize = start;
    let mut acc: u64 = 0;
    let mut overflow = false;
    while q < input.len() && 48 <= input[q] && input[q] <= 57
        invariant
            start <= q <= input.len(),
            digits_end(input@, start as int) == digits_end(input@, q as int),
            !overflow ==> acc == digits_value(input@, start as int, q as int),
            overflow ==> digits_value(input@, start as int, q as int) > 0x8000_0000_0000_0000,
        decreases input.len() - q,
    {
        let d = (input[q] - 48) as u64;
        if !overflow {
            if acc > (u64::MAX - d) / 10 {
                overflow = true;
            } else {
                acc = acc * 10 + d;
            }
        }
        q += 1;
    }
    if q == start || overflow {
        return None;
    }
    if negative {
        if acc > 0x8000_0000_0000_0000 {
            None
        } else if acc == 0x8000_0000_0000_0000 {
            Some((i64::MIN, q))
        } else {
            Some((-(acc as i64), q))
        }
    } else {
        if acc > 0x7fff_ffff_ffff_ffff {
            None
        } else {
            Some((acc as i64, q))
        }
    }
}

/// The offset of the quote that closes a string whose content starts at
/// `q`. A backslash in front of the quote keeps the quote inside the
/// string; a backslash in front of anything else stands for itself.
pub open spec fn string_close(b: Seq<u8>, q: int, quote: u8) -> Option<int>
    decreases b.len() - q,
{
    if q < 0 || q >= b.len() {
        None
    } else if b[q] == quote {
        Some(q)
    } else if b[q] == 92 && q + 1 < b.len() && b[q + 1] == quote {
        string_close(b, q + 2, quote)
    } else {
        string_close(b, q + 1, quote)
    }
}

/// The string in the given quotes at `p`: its content as it stands in the
/// text, and the offset behind the closing quote. Where there is none, the
/// offset at which it is missed.
pub open spec fn spec_quoted(b: Seq<u8>, p: int, quote: u8) -> Result<(Seq<u8>, int), int> {
    if 0 <= p < b.len() && b[p] == quote {
        match string_close(b, p + 1, quote) {
            Some(c) => Ok((b.subrange(p + 1, c), c + 1)),
            None => Err(b.len() as int),
        }
    } else {
        Err(p)
    }
}

/// Reads the string in the given quotes at `pos`. The content is a slice of
/// the input.
pub fn read_quoted<'a>(input: &'a [u8], pos: usize, quote: u8) -> (r: Result<
    (&'a [u8], usize),
    usize,
>)
    requires
        pos <= input.len(),
    ensures
        match r {
            Ok((content, next)) => spec_quoted(input@, pos as int, quote) == Ok::<
                (Seq<u8>, int),
                int,
            >((content@, next as int)) && pos + 2 <= next <= input.len() && content@
                == input@.subrange(pos + 1, next - 1),
            Err(at) => spec_quoted(input@, pos as int, quote) == Err::<(Seq<u8>, int), int>(
                at as int,
            ) && at <= input.len(),
        },
{
    if pos >= input.len() || input[pos] != quote {
        return Err(pos);
    }
    let mut q: usize = pos + 1;
    while q < input.len() && input[q] != quote
        invariant
            pos + 1 <= q <= input.len() + 1,
            q > input.len() ==> string_close(input@, pos + 1, quote) is None,
            q <= input.len() ==> string_close(input@, pos + 1, quote) == string_close(
                input@,
                q as int,
                quote,
            ),
        decreases input.len() + 1 - q,
    {
        if input[q] == 92 && input.len() - q >= 2 && input[q + 1] == quote {
            q += 2;
        } else {
            q += 1;
        }
    }
    if q >= input.len() {
        return Err(input.len());
    }
    Ok((slice_subrange(input, pos + 1, q), q + 1))
}

/// The offset of the first byte at or behind `p` that cannot stand in an
/// identifier.
pub open spec fn ident_end(b: Seq<u8>, p: int) -> int
    decreases b.len() - p,
{
    if p < 0 || p >= b.len() || !is_ident(b[p]) {
        p
    } else {
        ident_end(b, p + 1)
    }
}

/// The key in square brackets at `p`: a string in single or in double
/// quotes, with nothing between the brackets and the quotes.
pub open spec fn spec_string_key(b: Seq<u8>, p: int) -> Result<(Seq<u8>, int), int> {
    if 0 <= p < b.len() && b[p] == 91 {
        let inner = match spec_quoted(b, p + 1, 39) {
            Ok(done) => Ok(done),
            Err(_) => spec_quoted(b, p + 1, 34),
        };
        match inner {
            Ok((content, q)) => if q < b.len() && b[q] == 93 {
                Ok((content, q + 1))
            } else {
                Err(q)
            },
            Err(at) => Err(at),
        }
    } else {
        Err(p)
    }
}

/// The key at `p`: a string in square brackets, or an identifier.
pub open spec fn spec_key(b: Seq<u8>, p: int) -> Result<(Seq<u8>, int), int> {
    match spec_string_key(b, p) {
        Ok(done) => Ok(done),
        Err(_) => {
            let end = ident_end(b, p);
            if p < end {
                Ok((b.subrange(p, end), end))
            } else {
                Err(p)
            }
        },
    }
}

/// Reads the key at `pos`. The key is a slice of the input.
pub fn read_key<'a>(input: &'a [u8], pos: usize) -> (r: Result<(&'a [u8], usize), usize>)
    requires
        pos <= input.len(),
    ensures
        match r {
            Ok((key, next)) => spec_key(input@, pos as int) == Ok::<(Seq<u8>, int), int>(
                (key@, next as int),
            ) && pos < next <= input.len() && exists|i: int|
                0 <= i && i + key@.len() <= input@.len() && key@ == #[trigger] input@.subrange(
                    i,
                    i + key@.len(),
                ),
            Err(at) => spec_key(input@, pos as int) == Err::<(Seq<u8>, int), int>(at as int)
                && at <= input.len(),
        },
{
    if pos < input.len() && input[pos] == 91 {
        let inner = match read_quoted(input, pos + 1, 39) {
            Ok(done) => Ok(done),
            Err(_) => read_quoted(input, pos + 1, 34),
        };
        match inner {
            Ok((content, q)) => {
                if q < input.len() && input[q] == 93 {
                    assert(content@ == input@.subrange(pos + 2, pos + 2 + content@.len()));
                    return Ok((content, q + 1));
                }
            },
            Err(_) => {},
        }
    }
    let mut q: usize = pos;
    while q < input.len() && ((48 <= input[q] && input[q] <= 57) || (65 <= input[q] && input[q]
        <= 90) || (97 <= input[q] && input[q] <= 122) || input[q] == 95)
        invariant
            pos <= q <= input.len(),
            ident_end(input@, pos as int) == ident_end(input@, q as int),
        decreases input.len() - q,
    {
        q += 1;
    }
    if q > pos {
        let key = slice_subrange(input, pos, q);
        assert(key@ == input@.subrange(pos as int, pos + key@.len()));
        Ok((key, q))
    } else {
        Err(pos)
    }
}

/// The byte `c` stands at `p`.
pub open spec fn has_byte(b: Seq<u8>, p: int, c: u8) -> bool {
    0 <= p < b.len() && b[p] == c
}

/// The bytes `word` stand at `p`.
pub open spec fn has_word(b: Seq<u8>, p: int, word: Seq<u8>) -> bool {
    0 <= p && p + word.len() <= b.len() && b.subrange(p, p + word.len()) == word
}

/// The value at `p` that is no table, and the offset behind it. The forms
/// are tried in this order: `nil`, `true`, `false`, an integer that no
/// decimal point follows, a decimal number, a string in double quotes, a
/// string in single quotes.
pub open spec fn spec_scalar(b: Seq<u8>, p: int) -> Option<(ValueView, int)> {
    if p < 0 || p > b.len() {
        None
    } else if has_word(b, p, seq![110u8, 105u8, 108u8]) {
        Some((ValueView::Nil, p + 3))
    } else if has_word(b, p, seq![116u8, 114u8, 117u8, 101u8]) {
        Some((ValueView::Bool(true), p + 4))
    } else if has_word(b, p, seq![102u8, 97u8, 108u8, 115u8, 101u8]) {
        Some((ValueView::Bool(false), p + 5))
    } else {
        let whole = match int_literal(b, p) {
            Some((v, q)) => if has_byte(b, q, 46) {
                None
            } else {
                Some((ValueView::Int(v), q))
            },
            None => None,
        };
        match whole {
            Some(done) => Some(done),
            None => match double_literal(b.subrange(p, b.len() as int)) {
                Some((n, bits)) => Some((ValueView::Float(bits), p + n)),
                None => match spec_quoted(b, p, 34) {
                    Ok((content, q)) => Some((ValueView::String(content), q)),
                    Err(_) => match spec_quoted(b, p, 39) {
                        Ok((content, q)) => Some((ValueView::String(content), q)),
                        Err(_) => None,
                    },
                },
            },
        }
    }
}

/// Where a list of items or entries that ends at `q` is closed: an optional
/// comma, a closing brace, and the white space behind it. Where the brace
/// is missing, the offset at which it is missed.
pub open spec fn spec_close(b: Seq<u8>, q: int) -> Result<int, int> {
    let c = skip_ws(b, q);
    let behind = if has_byte(b, c, 44) {
        skip_ws(b, c + 1)
    } else {
        q
    };
    let d = skip_ws(b, behind);
    if has_byte(b, d, 125) {
        Ok(skip_ws(b, d + 1))
    } else {
        Err(d)
    }
}

/// The first of two outcomes where it is a success, else the second; where
/// both are failures, the one that got further into the text.
pub open spec fn either<T>(first: Result<T, int>, second: Result<T, int>) -> Result<T, int> {
    match first {
        Ok(done) => Ok(done),
        Err(a) => match second {
            Ok(done) => Ok(done),
            Err(b) => if a >= b {
                Err(a)
            } else {
                Err(b)
            },
        },
    }
}

/// The value at `p`, and the offset behind it; where there is none, the
/// offset at which the form that got furthest gave up.
///
/// What is no scalar must be a table: a pair of braces with nothing but
/// white space between them is the empty table; else the braces hold items
/// and the table is an array; else they hold entries and the table is a
/// keyed one. The comparisons of offsets that lead to no result never fail
/// where something was read: they make the definition well-founded.
pub open spec fn spec_value(b: Seq<u8>, p: int) -> Result<(ValueView, int), int>
    decreases b.len() - p, 0nat,
{
    match spec_scalar(b, p) {
        Some(done) => Ok(done),
        None => if has_byte(b, p, 123) && has_byte(b, skip_ws(b, p + 1), 125) {
            Ok((ValueView::Table(TableView::Empty), skip_ws(b, p + 1) + 1))
        } else {
            let open = skip_ws(b, p);
            let first = skip_ws(b, open + 1);
            if !has_byte(b, open, 123) || first <= p || first > b.len() {
                Err(open)
            } else {
                let array = match spec_items(b, first) {
                    Ok((items, q)) => match spec_close(b, q) {
                        Ok(end) => Ok((ValueView::Table(TableView::Array(items)), end)),
                        Err(at) => Err(at),
                    },
                    Err(at) => Err(at),
                };
                let named = match spec_pairs(b, first) {
                    Ok((pairs, q)) => match spec_close(b, q) {
                        Ok(end) => Ok((ValueView::Table(TableView::Named(pairs_map(pairs))), end)),
                        Err(at) => Err(at),
                    },
                    Err(at) => Err(at),
                };
                either(array, named)
            }
        },
    }
}

/// One or more values from `p` on, with commas between them.
pub open spec fn spec_items(b: Seq<u8>, p: int) -> Result<(Seq<ValueView>, int), int>
    decreases b.len() - p, 1nat,
{
    match spec_value(b, p) {
        Err(at) => Err(at),
        Ok((v, q)) => if q <= p || q > b.len() {
            Err(p)
        } else {
            Ok((seq![v] + spec_more_items(b, q).0, spec_more_items(b, q).1))
        },
    }
}

/// The values that follow a value that ends at `q`, each behind a comma,
/// and the offset behind the last of them. A comma that no value follows
/// is not taken.
pub open spec fn spec_more_items(b: Seq<u8>, q: int) -> (Seq<ValueView>, int)
    decreases b.len() - q, 0nat,
{
    let comma = skip_ws(b, q);
    let start = skip_ws(b, comma + 1);
    if has_byte(b, comma, 44) && q < start <= b.len() {
        match spec_value(b, start) {
            Ok((v, behind)) => if behind <= start || behind > b.len() {
                (Seq::empty(), q)
            } else {
                (seq![v] + spec_more_items(b, behind).0, spec_more_items(b, behind).1)
            },
            Err(_) => (Seq::empty(), q),
        }
    } else {
        (Seq::empty(), q)
    }
}

/// The entry at `p`: a key, an equals sign, a value.
pub open spec fn spec_pair(b: Seq<u8>, p: int) -> Result<((Seq<u8>, ValueView), int), int>
    decreases b.len() - p, 0nat,
{
    match spec_key(b, p) {
        Err(at) => Err(at),
        Ok((key, q)) => {
            let equals = skip_ws(b, q);
            let start = skip_ws(b, equals + 1);
            if !has_byte(b, equals, 61) || start <= p || start > b.len() {
                Err(equals)
            } else {
                match spec_value(b, start) {
                    Ok((v, behind)) => Ok(((key, v), behind)),
                    Err(at) => Err(at),
                }
            }
        },
    }
}

/// One or more entries from `p` on, with commas between them.
pub open spec fn spec_pairs(b: Seq<u8>, p: int) -> Result<(Seq<(Seq<u8>, ValueView)>, int), int>
    decreases b.len() - p, 1nat,
{
    match spec_pair(b, p) {
        Err(at) => Err(at),
        Ok((pair, q)) => if q <= p || q > b.len() {
            Err(p)
        } else {
            Ok((seq![pair] + spec_more_pairs(b, q).0, spec_more_pairs(b, q).1))
        },
    }
}

/// The entries that follow an entry that ends at `q`, each behind a comma.
pub open spec fn spec_more_pairs(b: Seq<u8>, q: int) -> (Seq<(Seq<u8>, ValueView)>, int)
    decreases b.len() - q, 0nat,
{
    let comma = skip_ws(b, q);
    let start = skip_ws(b, comma + 1);
    if has_byte(b, comma, 44) && q < start <= b.len() {
        match spec_pair(b, start) {
            Ok((pair, behind)) => if behind <= start || behind > b.len() {
                (Seq::empty(), q)
            } else {
                (seq![pair] + spec_more_pairs(b, behind).0, spec_more_pairs(b, behind).1)
            },
            Err(_) => (Seq::empty(), q),
        }
    } else {
        (Seq::empty(), q)
    }
}

/// What a whole text holds: white space, then an assignment or, where there
/// is none, a bare value, then white space and the end of the text. The
/// name that an assignment gives is dropped.
pub open spec fn spec_parse(b: Seq<u8>) -> Result<ValueView, int> {
    let start = skip_ws(b, 0);
    let assigned = match spec_pair(b, start) {
        Ok((pair, q)) => Ok((pair.1, q)),
        Err(at) => Err(at),
    };
    let found = either(assigned, spec_value(b, start));
    match found {
        Ok((v, q)) => if skip_ws(b, q) >= b.len() {
            Ok(v)
        } else {
            Err(skip_ws(b, q))
        },
        Err(at) => Err(at),
    }
}

/// Whether the bytes `word` stand at `pos`.
pub fn starts_with(input: &[u8], pos: usize, word: &[u8]) -> (r: bool)
    requires
        pos <= input.len(),
    ensures
        r == has_word(input@, pos as int, word@),
{
    if word.len() > input.len() - pos {
        return false;
    }
    let mut i: usize = 0;
    while i < word.len()
        invariant
            i <= word.len(),
            pos + word.len() <= input.len(),
            forall|k: int| 0 <= k < i ==> input@[pos + k] == word@[k],
        decreases word.len() - i,
    {
        if input[pos + i] != word[i] {
            assert(input@.subrange(pos as int, pos + word@.len())[i as int] != word@[i as int]);
            return false;
        }
        i += 1;
    }
    assert(input@.subrange(pos as int, pos + word@.len()) =~= word@);
    true
}

/// Whether the byte `c` stands at `pos`.
pub fn byte_at(input: &[u8], pos: usize, c: u8) -> (r: bool)
    ensures
        r == has_byte(input@, pos as int, c),
{
    pos < input.len() && input[pos] == c
}

/// Reads the value at `pos` that is no table.
pub fn parse_scalar<'a>(input: &'a [u8], pos: usize) -> (r: Option<(Value<'a>, usize)>)
    requires
        pos <= input.len(),
    ensures
        match r {
            Some((v, next)) => spec_scalar(input@, pos as int) == Some((v.view(), next as int))
                && pos < next <= input.len() && v.borrows_from(input@),
            None => spec_scalar(input@, pos as int) is None,
        },
{
    let nil_word: [u8; 3] = [110, 105, 108];
    let true_word: [u8; 4] = [116, 114, 117, 101];
    let false_word: [u8; 5] = [102, 97, 108, 115, 101];
    assert(nil_word@ =~= seq![110u8, 105u8, 108u8]);
    assert(true_word@ =~= seq![116u8, 114u8, 117u8, 101u8]);
    assert(false_word@ =~= seq![102u8, 97u8, 108u8, 115u8, 101u8]);
    if starts_with(input, pos, nil_word.as_slice()) {
        return Some((Value::Nil, pos + 3));
    }
    if starts_with(input, pos, true_word.as_slice()) {
        return Some((Value::Bool(true), pos + 4));
    }
    if starts_with(input, pos, false_word.as_slice()) {
        return Some((Value::Bool(false), pos + 5));
    }
    match read_int(input, pos) {
        Some((v, next)) => {
            if !byte_at(input, next, 46) {
                return Some((Value::Int(v), next));
            }
        },
        None => {},
    }
    match parse_double(slice_subrange(input, pos, input.len())) {
        Some((n, bits)) => {
            return Some((Value::Float(bits), pos + n));
        },
        None => {},
    }
    match read_quoted(input, pos, 34) {
        Ok((content, next)) => {
            assert(content@ == input@.subrange(pos + 1, pos + 1 + content@.len()));
            return Some((Value::String(Cow::Borrowed(content)), next));
        },
        Err(_) => {},
    }
    match read_quoted(input, pos, 39) {
        Ok((content, next)) => {
            assert(content@ == input@.subrange(pos + 1, pos + 1 + content@.len()));
            Some((Value::String(Cow::Borrowed(content)), next))
        },
        Err(_) => None,
    }
}

/// Reads what closes a list of items or entries that ends at `pos`.
pub fn parse_close(input: &[u8], pos: usize) -> (r: Result<usize, usize>)
    requires
        pos <= input.len(),
    ensures
        match r {
            Ok(next) => spec_close(input@, pos as int) == Ok::<int, int>(next as int) && pos
                < next <= input.len(),
            Err(at) => spec_close(input@, pos as int) == Err::<int, int>(at as int) && at
                <= input.len(),
        },
{
    let comma = spacing(input, pos);
    let behind = if byte_at(input, comma, 44) {
        spacing(input, comma + 1)
    } else {
        pos
    };
    let brace = spacing(input, behind);
    if byte_at(input, brace, 125) {
        Ok(spacing(input, brace + 1))
    } else {
        Err(brace)
    }
}

/// Reads the value at `pos`. Every string in it is a slice of the input.
pub fn parse_value<'a>(input: &'a [u8], pos: usize) -> (r: Result<(Value<'a>, usize), usize>)
    requires
        pos <= input.len(),
    ensures
        match r {
            Ok((v, next)) => spec_value(input@, pos as int) == Ok::<(ValueView, int), int>(
                (v.view(), next as int),
            ) && pos < next <= input.len() && v.borrows_from(input@),
            Err(at) => spec_value(input@, pos as int) == Err::<(ValueView, int), int>(at as int)
                && at <= input.len(),
        },
    decreases input.len() - pos, 0nat,
{
    match parse_scalar(input, pos) {
        Some(done) => {
            return Ok(done);
        },
        None => {},
    }
    if byte_at(input, pos, 123) {
        let inner = spacing(input, pos + 1);
        if byte_at(input, inner, 125) {
            return Ok((Value::Table(Table::Empty), inner + 1));
        }
    }
    let open = spacing(input, pos);
    if !byte_at(input, open, 123) {
        return Err(open);
    }
    let first = spacing(input, open + 1);
    let array_at = match parse_items(input, first) {
        Ok((items, behind)) => {
            match parse_close(input, behind) {
                Ok(end) => {
                    return Ok((Value::Table(Table::Array(items)), end));
                },
                Err(at) => at,
            }
        },
        Err(at) => at,
    };
    let named_at = match parse_pairs(input, first) {
        Ok((pairs, behind)) => {
            match parse_close(input, behind) {
                Ok(end) => {
                    return Ok((Value::Table(Table::Named(pairs)), end));
                },
                Err(at) => at,
            }
        },
        Err(at) => at,
    };
    if array_at >= named_at {
        Err(array_at)
    } else {
        Err(named_at)
    }
}

/// Reads one or more values from `pos` on, with commas between them.
pub fn parse_items<'a>(input: &'a [u8], pos: usize) -> (r: Result<(Vec<Value<'a>>, usize), usize>)
    requires
        pos <= input.len(),
    ensures
        match r {
            Ok((items, next)) => spec_items(input@, pos as int) == Ok::<
                (Seq<ValueView>, int),
                int,
            >((values_view(items@), next as int)) && pos < next <= input.len() && forall|i: int|
                0 <= i < items@.len() ==> (#[trigger] items@[i]).borrows_from(input@),
            Err(at) => spec_items(input@, pos as int) == Err::<(Seq<ValueView>, int), int>(
                at as int,
            ) && at <= input.len(),
        },
    decreases input.len() - pos, 1nat,
{
    let (head, after) = match parse_value(input, pos) {
        Ok(done) => done,
        Err(at) => {
            return Err(at);
        },
    };
    let mut out: Vec<Value<'a>> = Vec::new();
    proof {
        lemma_values_view_push(out@, head);
        assert(values_view(out@.push(head)) =~= seq![head.view()]);
    }
    out.push(head);
    let mut cur: usize = after;
    loop
        invariant
            pos < cur <= input.len(),
            spec_items(input@, pos as int) == Ok::<(Seq<ValueView>, int), int>(
                (
                    values_view(out@) + spec_more_items(input@, cur as int).0,
                    spec_more_items(input@, cur as int).1,
                ),
            ),
            forall|i: int| 0 <= i < out@.len() ==> (#[trigger] out@[i]).borrows_from(input@),
        ensures
            spec_more_items(input@, cur as int) == (Seq::<ValueView>::empty(), cur as int),
        decreases input.len() - cur,
    {
        let comma = spacing(input, cur);
        if !byte_at(input, comma, 44) {
            break ;
        }
        let start = spacing(input, comma + 1);
        match parse_value(input, start) {
            Ok((v, behind)) => {
                proof {
                    lemma_values_view_push(out@, v);
                    let more = spec_more_items(input@, behind as int).0;
                    assert(values_view(out@) + (seq![v.view()] + more) =~= values_view(
                        out@,
                    ).push(v.view()) + more);
                }
                out.push(v);
                cur = behind;
            },
            Err(_) => {
                break ;
            },
        }
    }
    proof {
        assert(spec_more_items(input@, cur as int) == (Seq::<ValueView>::empty(), cur as int));
        assert(values_view(out@) + Seq::<ValueView>::empty() =~= values_view(out@));
    }
    Ok((out, cur))
}

/// Reads the entry at `pos`: a key, an equals sign, a value.
pub fn parse_pair<'a>(input: &'a [u8], pos: usize) -> (r: Result<
    ((Cow<'a, [u8]>, Value<'a>), usize),
    usize,
>)
    requires
        pos <= input.len(),
    ensures
        match r {
            Ok((pair, next)) => spec_pair(input@, pos as int) == Ok::<
                ((Seq<u8>, ValueView), int),
                int,
            >(((pair.0@, pair.1.view()), next as int)) && pos < next <= input.len()
                && borrowed_from(pair.0, input@) && pair.1.borrows_from(input@),
            Err(at) => spec_pair(input@, pos as int) == Err::<((Seq<u8>, ValueView), int), int>(
                at as int,
            ) && at <= input.len(),
        },
    decreases input.len() - pos, 0nat,
{
    let (key, after) = match read_key(input, pos) {
        Ok(done) => done,
        Err(at) => {
            return Err(at);
        },
    };
    let equals = spacing(input, after);
    if !byte_at(input, equals, 61) {
        return Err(equals);
    }
    let start = spacing(input, equals + 1);
    match parse_value(input, start) {
        Ok((v, behind)) => Ok(((Cow::Borrowed(key), v), behind)),
        Err(at) => Err(at),
    }
}

/// Reads one or more entries from `pos` on, with commas between them.
pub fn parse_pairs<'a>(input: &'a [u8], pos: usize) -> (r: Result<
    (Vec<(Cow<'a, [u8]>, Value<'a>)>, usize),
    usize,
>)
    requires
        pos <= input.len(),
    ensures
        match r {
            Ok((pairs, next)) => spec_pairs(input@, pos as int) == Ok::<
                (Seq<(Seq<u8>, ValueView)>, int),
                int,
            >((entries_view(pairs@), next as int)) && pos < next <= input.len() && forall|
                i: int,
            |
                0 <= i < pairs@.len() ==> borrowed_from((#[trigger] pairs@[i]).0, input@)
                    && pairs@[i].1.borrows_from(input@),
            Err(at) => spec_pairs(input@, pos as int) == Err::<
                (Seq<(Seq<u8>, ValueView)>, int),
                int,
            >(at as int) && at <= input.len(),
        },
    decreases input.len() - pos, 1nat,
{
    let (head, after) = match parse_pair(input, pos) {
        Ok(done) => done,
        Err(at) => {
            return Err(at);
        },
    };
    let mut out: Vec<(Cow<'a, [u8]>, Value<'a>)> = Vec::new();
    proof {
        lemma_entries_view_push(out@, head.0, head.1);
        assert(entries_view(out@.push(head)) =~= seq![(head.0@, head.1.view())]);
    }
    out.push(head);
    let mut cur: usize = after;
    loop
        invariant
            pos < cur <= input.len(),
            spec_pairs(input@, pos as int) == Ok::<(Seq<(Seq<u8>, ValueView)>, int), int>(
                (
                    entries_view(out@) + spec_more_pairs(input@, cur as int).0,
                    spec_more_pairs(input@, cur as int).1,
                ),
            ),
            forall|i: int|
                0 <= i < out@.len() ==> borrowed_from((#[trigger] out@[i]).0, input@)
                    && out@[i].1.borrows_from(input@),
        ensures
            spec_more_pairs(input@, cur as int) == (
                Seq::<(Seq<u8>, ValueView)>::empty(),
                cur as int,
            ),
        decreases input.len() - cur,
    {
        let comma = spacing(input, cur);
        if !byte_at(input, comma, 44) {
            break ;
        }
        let start = spacing(input, comma + 1);
        match parse_pair(input, start) {
            Ok((pair, behind)) => {
                proof {
                    lemma_entries_view_push(out@, pair.0, pair.1);
                    let more = spec_more_pairs(input@, behind as int).0;
                    assert(entries_view(out@) + (seq![(pair.0@, pair.1.view())] + more)
                        =~= entries_view(out@).push((pair.0@, pair.1.view())) + more);
                }
                out.push(pair);
                cur = behind;
            },
            Err(_) => {
                break ;
            },
        }
    }
    proof {
        assert(spec_more_pairs(input@, cur as int) == (
            Seq::<(Seq<u8>, ValueView)>::empty(),
            cur as int,
        ));
        assert(entries_view(out@) + Seq::<(Seq<u8>, ValueView)>::empty() =~= entries_view(out@));
    }
    Ok((out, cur))
}

/// Reads a whole text: an assignment or a bare value, with nothing but
/// white space and comments around it. Every string in the value that comes
/// back is a slice of the text.
pub fn parse_text<'a>(input: &'a [u8]) -> (r: Result<Value<'a>, ParseError>)
    ensures
        match r {
            Ok(v) => spec_parse(input@) == Ok::<ValueView, int>(v.view()) && v.borrows_from(
                input@,
            ),
            Err(e) => exists|at: int|
                0 <= at <= input@.len() && spec_parse(input@) == Err::<ValueView, int>(at) && e
                    == (ParseError::ValueError { offset: at as usize }),
        },
{
    let start = spacing(input, 0);
    let found = match parse_pair(input, start) {
        Ok((pair, behind)) => Ok((pair.1, behind)),
        Err(pair_at) => match parse_value(input, start) {
            Ok(done) => Ok(done),
            Err(value_at) => if pair_at >= value_at {
                Err(pair_at)
            } else {
                Err(value_at)
            },
        },
    };
    match found {
        Ok((v, behind)) => {
            let end = spacing(input, behind);
            if end >= input.len() {
                Ok(v)
            } else {
                Err(ParseError::ValueError { offset: end })
            }
        },
        Err(at) => Err(ParseError::ValueError { offset: at }),
    }
}

/// Reads a whole text, given as a string slice. Every string in the value
/// that comes back is a slice of the text.
pub fn from_str<'a>(s: &'a str) -> (r: Result<Value<'a>, ParseError>)
    ensures
        match r {
            Ok(v) => spec_parse(s.spec_bytes()) == Ok::<ValueView, int>(v.view())
                && v.borrows_from(s.spec_bytes()),
            Err(e) => exists|at: int|
                0 <= at <= s.spec_bytes().len() && spec_parse(s.spec_bytes()) == Err::<
                    ValueView,
                    int,
                >(at) && e == (ParseError::ValueError { offset: at as usize }),
        },
{
    parse_text(s.as_bytes())
}

} // verus!
