//! The binary object format: a version byte, then one value. Every value
//! starts with a tag byte whose low bits say how the rest is laid out;
//! strings and tables that were decoded earlier can be referred to again by
//! their position.

use crate::deflate::{
    all_printable, decompress_bytes, first_invalid, inflated, spec_decode_byte,
    spec_decode_for_print, DecompressionError,
};
use crate::savedvariables::ParseError;
use crate::types::{parsed_recording, spec_parsed_recording, ParsedRecording, ParsedRecordingView};
use crate::float::{double_literal, float_display, float_text, negate_bits, parse_double, spec_negate};
use crate::value::{
    copy_bytes, copy_table, entries_view, lemma_entries_view_push, lemma_values_view_push,
    pairs_map, utf8_text, values_view, Table, TableView, Value, ValueView,
};
use std::borrow::Cow;
use vstd::prelude::*;
use vstd::slice::slice_subrange;
use vstd::string::StringSliceAdditionalSpecFns;
use vstd::utf8::valid_utf8;

verus! {

/// The newest format version that is understood.
pub const DESERIALIZATION_VERSION: u8 = 2;

/// The tag byte of a float that takes the long form: eight bytes follow.
pub const FLOAT_TAG: u8 = 72;

/// What a step of the trace of a failed parse says.
#[derive(Debug, Clone, Copy, PartialEq, Eq, Structural)]
pub enum ParseErrorKind {
    /// The input ended where the byte at this offset was needed.
    Eof,
    /// The failure lies inside the array whose tag byte is at this offset.
    Array,
    /// The failure lies inside the keyed table whose tag byte is at this offset.
    Table,
    /// The failure lies inside the mixed table whose tag byte is at this offset.
    Mixed,
}

/// The trace of a failed parse: where the input gave out, then the objects
/// that enclose that place, innermost first.
#[derive(Debug)]
pub struct SerializeParseError {
    pub repr: Vec<(ParseErrorKind, usize)>,
}

/// Why a byte stream could not be decoded.
#[derive(Debug)]
pub enum DeserializationError {
    /// A string is not valid UTF-8.
    Utf8Error,
    /// The text of a float written as text is not a decimal number.
    StrFloatError,
    /// A reference to a string or table that has not been decoded.
    MissingRef(usize),
    /// The input ended too early.
    GenericParseError(SerializeParseError),
    /// The version byte is newer than this decoder.
    UnsupportedVersion(u8),
    /// A table stands where the key of a table entry is expected.
    TableKey,
    /// The decoded value does not fit the record it is read into.
    SavedVariablesError(ParseError),
    /// The printable envelope could not be opened.
    DecompressionError(DecompressionError),
}

/// A failure apart from how its trace is stored.
pub enum Failure {
    Utf8Error,
    StrFloatError,
    MissingRef(usize),
    GenericParseError(Seq<(ParseErrorKind, usize)>),
    UnsupportedVersion(u8),
    TableKey,
    SavedVariablesError(ParseError),
    DecompressionError(DecompressionError),
}

impl DeserializationError {
    /// The failure apart from how its trace is stored.
    pub open spec fn view(&self) -> Failure {
        match self {
            DeserializationError::Utf8Error => Failure::Utf8Error,
            DeserializationError::StrFloatError => Failure::StrFloatError,
            DeserializationError::MissingRef(k) => Failure::MissingRef(*k),
            DeserializationError::GenericParseError(e) => Failure::GenericParseError(e.repr@),
            DeserializationError::UnsupportedVersion(v) => Failure::UnsupportedVersion(*v),
            DeserializationError::TableKey => Failure::TableKey,
            DeserializationError::SavedVariablesError(e) => Failure::SavedVariablesError(*e),
            DeserializationError::DecompressionError(e) => Failure::DecompressionError(*e),
        }
    }
}

/// What the bytes of a value's head announce: a finished scalar, or the
/// kind and size of what follows.
#[derive(Debug, Clone, Copy, PartialEq, Eq, Structural)]
pub enum Header {
    Nil,
    Bool(bool),
    Int(i64),
    Float(u64),
    FloatStr { negative: bool, len: usize },
    Str { len: usize },
    Table { count: usize },
    Array { count: usize },
    Mixed { array_count: usize, keyed_count: usize },
    StringRef { index: usize },
    TableRef { index: usize },
}

/// The failure of a read at `pos` that found the input at its end.
pub open spec fn eof(pos: int) -> Failure {
    Failure::GenericParseError(seq![(ParseErrorKind::Eof, pos as usize)])
}

/// A failure as seen from outside the object at `start`: a trace grows by
/// one step, any other failure stays as it is.
pub open spec fn within(e: Failure, kind: ParseErrorKind, start: int) -> Failure {
    match e {
        Failure::GenericParseError(trace) => Failure::GenericParseError(
            trace.push((kind, start as usize)),
        ),
        _ => e,
    }
}

/// The number that a sequence of bytes spells, most significant byte first.
pub open spec fn be_uint(b: Seq<u8>) -> nat
    decreases b.len(),
{
    if b.len() == 0 {
        0
    } else {
        be_uint(b.drop_last()) * 256 + b.last() as nat
    }
}

/// The big-endian number in the `width` bytes at `pos`.
pub open spec fn spec_uint(b: Seq<u8>, pos: int, width: int) -> Result<int, Failure> {
    if pos + width > b.len() {
        Err(eof(pos))
    } else {
        Ok(be_uint(b.subrange(pos, pos + width)) as int)
    }
}

/// How many bytes follow the tag byte of a large object before its body:
/// the bytes of a number, or of a length, count or index. The 64-bit
/// integers take seven bytes.
pub open spec fn large_width(tag: int) -> int {
    if tag == 1 || tag == 2 {
        2
    } else if tag == 3 || tag == 4 {
        3
    } else if tag == 5 || tag == 6 {
        4
    } else if tag == 7 || tag == 8 {
        7
    } else if tag == 9 {
        8
    } else if tag == 10 || tag == 11 {
        1
    } else if 14 <= tag <= 16 {
        tag - 13
    } else if 17 <= tag <= 19 {
        tag - 16
    } else if 20 <= tag <= 22 {
        tag - 19
    } else if 23 <= tag <= 25 {
        tag - 22
    } else if 26 <= tag <= 28 {
        tag - 25
    } else if 29 <= tag <= 31 {
        tag - 28
    } else {
        0
    }
}

/// The header of a large object other than a mixed table, given its tag
/// and the number that follows the tag.
pub open spec fn large_header(tag: int, v: int) -> Header {
    if tag == 0 {
        Header::Nil
    } else if tag <= 8 {
        if tag % 2 == 1 {
            Header::Int(v as i64)
        } else {
            Header::Int((-v) as i64)
        }
    } else if tag == 9 {
        Header::Float(v as u64)
    } else if tag == 10 {
        Header::FloatStr { negative: false, len: v as usize }
    } else if tag == 11 {
        Header::FloatStr { negative: true, len: v as usize }
    } else if tag == 12 {
        Header::Bool(true)
    } else if tag == 13 {
        Header::Bool(false)
    } else if tag <= 16 {
        Header::Str { len: v as usize }
    } else if tag <= 19 {
        Header::Table { count: v as usize }
    } else if tag <= 22 {
        Header::Array { count: v as usize }
    } else if tag <= 28 {
        Header::StringRef { index: v as usize }
    } else {
        Header::TableRef { index: v as usize }
    }
}

/// The header of a small object, given its two type bits and its four
/// count bits. The count of a mixed table is two counts of two bits each:
/// the high two for the array part, the low two for the keyed part.
pub open spec fn small_header(kind: int, count: int) -> Header {
    if kind == 0 {
        Header::Str { len: count as usize }
    } else if kind == 1 {
        Header::Table { count: count as usize }
    } else if kind == 2 {
        Header::Array { count: count as usize }
    } else {
        Header::Mixed { array_count: (count / 4) as usize, keyed_count: (count % 4) as usize }
    }
}

/// The head of the value at `pos`, and where its body starts.
///
/// An odd tag byte is a seven-bit integer. A tag byte that ends in `10` is
/// a small object. One that ends in `100` starts a twelve-bit integer with
/// its sign at bit 3, its low four bits in the high half of the tag byte
/// and its high eight bits in the next byte. One that ends in `000` is a
/// large object, whose kind is in its high five bits.
pub open spec fn spec_header(b: Seq<u8>, pos: int) -> Result<(Header, int), Failure> {
    if pos < 0 || pos >= b.len() {
        Err(eof(pos))
    } else {
        let t = b[pos] as int;
        if t % 2 == 1 {
            Ok((Header::Int((t / 2) as i64), pos + 1))
        } else if t % 4 == 2 {
            Ok((small_header((t / 4) % 4, t / 16), pos + 1))
        } else if t % 8 == 4 {
            if pos + 1 >= b.len() {
                Err(eof(pos + 1))
            } else {
                let magnitude = t / 16 + 16 * (b[pos + 1] as int);
                if (t / 8) % 2 == 1 {
                    Ok((Header::Int((-magnitude) as i64), pos + 2))
                } else {
                    Ok((Header::Int(magnitude as i64), pos + 2))
                }
            }
        } else {
            let tag = t / 8;
            let w = large_width(tag);
            match spec_uint(b, pos + 1, w) {
                Err(e) => Err(e),
                Ok(v) => if 23 <= tag <= 25 {
                    match spec_uint(b, pos + 1 + w, w) {
                        Err(e) => Err(e),
                        Ok(k) => Ok(
                            (
                                Header::Mixed { array_count: v as usize, keyed_count: k as usize },
                                pos + 1 + 2 * w,
                            ),
                        ),
                    }
                } else {
                    Ok((large_header(tag, v), pos + 1 + w))
                },
            }
        }
    }
}

/// The failure of a read at `pos` that found the input at its end.
pub fn eof_error(pos: usize) -> (r: DeserializationError)
    ensures
        r@ == eof(pos as int),
{
    let mut repr: Vec<(ParseErrorKind, usize)> = Vec::new();
    repr.push((ParseErrorKind::Eof, pos));
    assert(repr@ =~= seq![(ParseErrorKind::Eof, pos)]);
    DeserializationError::GenericParseError(SerializeParseError { repr })
}

/// Adds the enclosing object to the trace of a failure.
pub fn error_within(e: DeserializationError, kind: ParseErrorKind, start: usize) -> (r:
    DeserializationError)
    ensures
        r@ == within(e@, kind, start as int),
{
    match e {
        DeserializationError::GenericParseError(trace) => {
            let mut repr = trace.repr;
            repr.push((kind, start));
            DeserializationError::GenericParseError(SerializeParseError { repr })
        },
        other => other,
    }
}

/// An upper bound on the number that `n` bytes can spell.
pub open spec fn uint_limit(n: int) -> int {
    if n <= 0 {
        1
    } else if n == 1 {
        0x100
    } else if n == 2 {
        0x1_0000
    } else if n == 3 {
        0x100_0000
    } else if n == 4 {
        0x1_0000_0000
    } else if n == 5 {
        0x100_0000_0000
    } else if n == 6 {
        0x1_0000_0000_0000
    } else if n == 7 {
        0x100_0000_0000_0000
    } else {
        0x1_0000_0000_0000_0000
    }
}

/// Reads the big-endian number in the `width` bytes at `pos`.
pub fn read_uint(input: &[u8], pos: usize, width: usize) -> (r: Result<u64, DeserializationError>)
    requires
        pos <= input.len(),
        width <= 8,
    ensures
        match r {
            Ok(v) => spec_uint(input@, pos as int, width as int) == Ok::<int, Failure>(v as int)
                && v < uint_limit(width as int) && pos + width <= input.len(),
            Err(e) => spec_uint(input@, pos as int, width as int) == Err::<int, Failure>(e@),
        },
{
    if width > input.len() - pos {
        return Err(eof_error(pos));
    }
    let mut v: u64 = 0;
    let mut i: usize = 0;
    while i < width
        invariant
            i <= width <= 8,
            pos + width <= input.len(),
            v == be_uint(input@.subrange(pos as int, pos + i)),
            v < uint_limit(i as int),
        decreases width - i,
    {
        proof {
            let next = input@.subrange(pos as int, pos + i + 1);
            assert(next.drop_last() =~= input@.subrange(pos as int, pos + i));
            assert(next.last() == input@[pos + i]);
        }
        v = v * 256 + input[pos + i] as u64;
        i += 1;
    }
    Ok(v)
}

/// How many bytes follow the tag byte of a large object before its body.
pub fn header_bytes(tag: u8) -> (r: usize)
    requires
        tag < 32,
    ensures
        r == large_width(tag as int),
        r <= 8,
{
    if tag == 0 || tag == 12 || tag == 13 {
        0
    } else if tag == 1 || tag == 2 {
        2
    } else if tag == 3 || tag == 4 {
        3
    } else if tag == 5 || tag == 6 {
        4
    } else if tag == 7 || tag == 8 {
        7
    } else if tag == 9 {
        8
    } else if tag == 10 || tag == 11 {
        1
    } else {
        ((tag - 14) % 3 + 1) as usize
    }
}

/// The header of a large object other than a mixed table.
pub fn make_large_header(tag: u8, v: u64) -> (r: Header)
    requires
        tag < 32,
        !(23 <= tag <= 25),
        v < uint_limit(large_width(tag as int)),
    ensures
        r == large_header(tag as int, v as int),
{
    if tag == 0 {
        Header::Nil
    } else if tag <= 8 {
        if tag % 2 == 1 {
            Header::Int(v as i64)
        } else {
            Header::Int(-(v as i64))
        }
    } else if tag == 9 {
        Header::Float(v)
    } else if tag == 10 {
        Header::FloatStr { negative: false, len: v as usize }
    } else if tag == 11 {
        Header::FloatStr { negative: true, len: v as usize }
    } else if tag == 12 {
        Header::Bool(true)
    } else if tag == 13 {
        Header::Bool(false)
    } else if tag <= 16 {
        Header::Str { len: v as usize }
    } else if tag <= 19 {
        Header::Table { count: v as usize }
    } else if tag <= 22 {
        Header::Array { count: v as usize }
    } else if tag <= 28 {
        Header::StringRef { index: v as usize }
    } else {
        Header::TableRef { index: v as usize }
    }
}

/// Reads the head of the value at `pos`.
pub fn read_header(input: &[u8], pos: usize) -> (r: Result<(Header, usize), DeserializationError>)
    requires
        pos <= input.len(),
    ensures
        match r {
            Ok((h, body)) => spec_header(input@, pos as int) == Ok::<(Header, int), Failure>(
                (h, body as int),
            ) && pos < body <= input.len(),
            Err(e) => spec_header(input@, pos as int) == Err::<(Header, int), Failure>(e@),
        },
{
    if pos >= input.len() {
        return Err(eof_error(pos));
    }
    let t = input[pos];
    if t % 2 == 1 {
        Ok((Header::Int((t / 2) as i64), pos + 1))
    } else if t % 4 == 2 {
        let kind = (t / 4) % 4;
        let count = (t / 16) as usize;
        let header = if kind == 0 {
            Header::Str { len: count }
        } else if kind == 1 {
            Header::Table { count }
        } else if kind == 2 {
            Header::Array { count }
        } else {
            Header::Mixed { array_count: count / 4, keyed_count: count % 4 }
        };
        Ok((header, pos + 1))
    } else if t % 8 == 4 {
        if pos + 1 >= input.len() {
            return Err(eof_error(pos + 1));
        }
        let magnitude: i64 = (t / 16) as i64 + 16 * (input[pos + 1] as i64);
        if (t / 8) % 2 == 1 {
            Ok((Header::Int(-magnitude), pos + 2))
        } else {
            Ok((Header::Int(magnitude), pos + 2))
        }
    } else {
        let tag = t / 8;
        let w = header_bytes(tag);
        let v = match read_uint(input, pos + 1, w) {
            Ok(v) => v,
            Err(e) => {
                return Err(e);
            },
        };
        if 23 <= tag && tag <= 25 {
            let k = match read_uint(input, pos + 1 + w, w) {
                Ok(k) => k,
                Err(e) => {
                    return Err(e);
                },
            };
            Ok((Header::Mixed { array_count: v as usize, keyed_count: k as usize }, pos + 1 + 2 * w))
        } else {
            Ok((make_large_header(tag, v), pos + 1 + w))
        }
    }
}

/// The strings and tables decoded so far, in the order in which they were
/// finished. A reference names one of them by its position, counted from one.
pub struct RefTables {
    pub strings: Seq<Seq<u8>>,
    pub tables: Seq<TableView>,
}

impl RefTables {
    /// No string and no table is known.
    pub open spec fn empty() -> RefTables {
        RefTables { strings: Seq::empty(), tables: Seq::empty() }
    }

    /// The same, with `s` as the newest known string.
    pub open spec fn with_string(self, s: Seq<u8>) -> RefTables {
        RefTables { strings: self.strings.push(s), tables: self.tables }
    }

    /// The same, with `t` as the newest known table.
    pub open spec fn with_table(self, t: TableView) -> RefTables {
        RefTables { strings: self.strings, tables: self.tables.push(t) }
    }
}

/// A decoded item, the offset behind it, and the strings and tables known
/// once it is decoded.
pub struct Decoded<T> {
    pub value: T,
    pub next: int,
    pub refs: RefTables,
}

/// The decimal digits of a natural number.
pub open spec fn decimal_digits(n: nat) -> Seq<u8>
    decreases n,
{
    if n < 10 {
        seq![(48 + n) as u8]
    } else {
        decimal_digits(n / 10).push((48 + n % 10) as u8)
    }
}

/// The decimal text of an integer: a minus sign where it is negative, then
/// its digits.
pub open spec fn spec_decimal(i: int) -> Seq<u8> {
    if i < 0 {
        seq![45u8] + decimal_digits((-i) as nat)
    } else {
        decimal_digits(i as nat)
    }
}

/// The bytes of the word `true`.
pub open spec fn true_text() -> Seq<u8> {
    seq![116u8, 114u8, 117u8, 101u8]
}

/// The bytes of the word `false`.
pub open spec fn false_text() -> Seq<u8> {
    seq![102u8, 97u8, 108u8, 115u8, 101u8]
}

/// The bytes of the word `nil`.
pub open spec fn nil_text() -> Seq<u8> {
    seq![110u8, 105u8, 108u8]
}

/// The key that a value gives when it stands where a key is expected: a
/// string is its own key, a scalar is its text, a table is refused.
pub open spec fn spec_key(v: ValueView) -> Result<Seq<u8>, Failure> {
    match v {
        ValueView::String(s) => Ok(s),
        ValueView::Int(i) => Ok(spec_decimal(i as int)),
        ValueView::Float(bits) => Ok(float_display(bits)),
        ValueView::Bool(b) => Ok(
            if b {
                true_text()
            } else {
                false_text()
            },
        ),
        ValueView::Nil => Ok(nil_text()),
        ValueView::Table(_) => Err(Failure::TableKey),
    }
}

/// The string of `len` bytes at `body`: it must lie inside the input and be
/// valid UTF-8, and it is then the newest known string.
pub open spec fn spec_string(b: Seq<u8>, body: int, len: int, refs: RefTables) -> Result<
    Decoded<ValueView>,
    Failure,
> {
    if body + len > b.len() {
        Err(eof(body))
    } else {
        let s = b.subrange(body, body + len);
        if !valid_utf8(s) {
            Err(Failure::Utf8Error)
        } else {
            Ok(Decoded { value: ValueView::String(s), next: body + len, refs: refs.with_string(s) })
        }
    }
}

/// The float that the text `s` spells, given what the decimal parser made of
/// it: the parser must have taken all of the text.
pub open spec fn float_of_text(s: Seq<u8>, parsed: Option<(int, u64)>, negative: bool) -> Result<
    u64,
    Failure,
> {
    match parsed {
        Some((n, bits)) => if n == s.len() {
            Ok(
                if negative {
                    spec_negate(bits)
                } else {
                    bits
                },
            )
        } else {
            Err(Failure::StrFloatError)
        },
        None => Err(Failure::StrFloatError),
    }
}

/// The float written as `len` bytes of decimal text at `body`.
pub open spec fn spec_float_str(
    b: Seq<u8>,
    body: int,
    len: int,
    negative: bool,
    refs: RefTables,
) -> Result<Decoded<ValueView>, Failure> {
    if body + len > b.len() {
        Err(eof(body))
    } else {
        let s = b.subrange(body, body + len);
        if !valid_utf8(s) {
            Err(Failure::Utf8Error)
        } else {
            match float_of_text(s, double_literal(s), negative) {
                Ok(bits) => Ok(Decoded { value: ValueView::Float(bits), next: body + len, refs }),
                Err(e) => Err(e),
            }
        }
    }
}

/// The known string or table number `index`, counted from one.
pub open spec fn spec_ref<T>(known: Seq<T>, index: int) -> Result<T, Failure> {
    if 1 <= index <= known.len() {
        Ok(known[index - 1])
    } else {
        Err(Failure::MissingRef(index as usize))
    }
}

/// Item `k` of a run of long-form floats that starts at `body` lies inside
/// the input and has the tag of a float.
pub open spec fn float_at(b: Seq<u8>, body: int, k: int) -> bool {
    body + 9 * k + 9 <= b.len() && b[body + 9 * k] == FLOAT_TAG
}

/// The `count` items at `body` are all long-form floats.
pub open spec fn is_float_run(b: Seq<u8>, body: int, count: int) -> bool {
    forall|k: int| 0 <= k < count ==> #[trigger] float_at(b, body, k)
}

/// The bits of item `k` of a run of long-form floats.
pub open spec fn float_item(b: Seq<u8>, body: int, k: int) -> u64 {
    be_uint(b.subrange(body + 9 * k + 1, body + 9 * k + 9)) as u64
}

/// The bits of a run of `count` long-form floats.
pub open spec fn float_run(b: Seq<u8>, body: int, count: int) -> Seq<u64> {
    Seq::new(count as nat, |k: int| float_item(b, body, k))
}

/// The value at `pos`, the offset behind it, and the strings and tables
/// known once it is decoded.
///
/// A string that is written out, and every table, joins the known ones when
/// it is finished, so a table joins after the tables inside it. An array
/// that is a run of long-form floats is a float array; any other array is
/// decoded item by item. The comparisons of offsets that lead to no result
/// never fail on a decodable value, which takes at least its tag byte: they
/// make the definition well-founded.
pub open spec fn spec_value(b: Seq<u8>, pos: int, refs: RefTables) -> Result<
    Decoded<ValueView>,
    Failure,
>
    decreases b.len() - pos, 0nat,
{
    match spec_header(b, pos) {
        Err(e) => Err(e),
        Ok((h, body)) => if body <= pos || body > b.len() {
            Err(eof(pos))
        } else {
            match h {
                Header::Nil => Ok(Decoded { value: ValueView::Nil, next: body, refs }),
                Header::Bool(v) => Ok(Decoded { value: ValueView::Bool(v), next: body, refs }),
                Header::Int(v) => Ok(Decoded { value: ValueView::Int(v), next: body, refs }),
                Header::Float(v) => Ok(Decoded { value: ValueView::Float(v), next: body, refs }),
                Header::FloatStr { negative, len } => spec_float_str(
                    b,
                    body,
                    len as int,
                    negative,
                    refs,
                ),
                Header::Str { len } => spec_string(b, body, len as int, refs),
                Header::StringRef { index } => match spec_ref(refs.strings, index as int) {
                    Ok(s) => Ok(Decoded { value: ValueView::String(s), next: body, refs }),
                    Err(e) => Err(e),
                },
                Header::TableRef { index } => match spec_ref(refs.tables, index as int) {
                    Ok(t) => Ok(Decoded { value: ValueView::Table(t), next: body, refs }),
                    Err(e) => Err(e),
                },
                Header::Array { count } => if is_float_run(b, body, count as int) {
                    let table = TableView::FloatArray(float_run(b, body, count as int));
                    Ok(
                        Decoded {
                            value: ValueView::Table(table),
                            next: body + 9 * count,
                            refs: refs.with_table(table),
                        },
                    )
                } else {
                    match spec_values(b, body, count as int, refs) {
                        Err(e) => Err(within(e, ParseErrorKind::Array, pos)),
                        Ok(d) => {
                            let table = TableView::Array(d.value);
                            Ok(
                                Decoded {
                                    value: ValueView::Table(table),
                                    next: d.next,
                                    refs: d.refs.with_table(table),
                                },
                            )
                        },
                    }
                },
                Header::Table { count } => match spec_entries(b, body, count as int, refs) {
                    Err(e) => Err(within(e, ParseErrorKind::Table, pos)),
                    Ok(d) => {
                        let table = TableView::Named(pairs_map(d.value));
                        Ok(
                            Decoded {
                                value: ValueView::Table(table),
                                next: d.next,
                                refs: d.refs.with_table(table),
                            },
                        )
                    },
                },
                Header::Mixed { array_count, keyed_count } => match spec_values(
                    b,
                    body,
                    array_count as int,
                    refs,
                ) {
                    Err(e) => Err(within(e, ParseErrorKind::Mixed, pos)),
                    Ok(a) => if a.next < body || a.next > b.len() {
                        Err(eof(pos))
                    } else {
                        match spec_entries(b, a.next, keyed_count as int, a.refs) {
                            Err(e) => Err(within(e, ParseErrorKind::Mixed, pos)),
                            Ok(d) => {
                                let table = TableView::MixedTable {
                                    array: a.value,
                                    named: pairs_map(d.value),
                                };
                                Ok(
                                    Decoded {
                                        value: ValueView::Table(table),
                                        next: d.next,
                                        refs: d.refs.with_table(table),
                                    },
                                )
                            },
                        }
                    },
                },
            }
        },
    }
}

/// The `count` values that stand one after the other from `pos` on.
pub open spec fn spec_values(b: Seq<u8>, pos: int, count: int, refs: RefTables) -> Result<
    Decoded<Seq<ValueView>>,
    Failure,
>
    decreases b.len() - pos, count + 1,
{
    if count <= 0 {
        Ok(Decoded { value: Seq::empty(), next: pos, refs })
    } else {
        match spec_value(b, pos, refs) {
            Err(e) => Err(e),
            Ok(first) => if first.next <= pos || first.next > b.len() {
                Err(eof(pos))
            } else {
                match spec_values(b, first.next, count - 1, first.refs) {
                    Err(e) => Err(e),
                    Ok(rest) => Ok(
                        Decoded {
                            value: seq![first.value] + rest.value,
                            next: rest.next,
                            refs: rest.refs,
                        },
                    ),
                }
            },
        }
    }
}

/// The `count` entries that stand one after the other from `pos` on: each
/// is a value that gives the key, then the value of the entry.
pub open spec fn spec_entries(b: Seq<u8>, pos: int, count: int, refs: RefTables) -> Result<
    Decoded<Seq<(Seq<u8>, ValueView)>>,
    Failure,
>
    decreases b.len() - pos, count + 1,
{
    if count <= 0 {
        Ok(Decoded { value: Seq::empty(), next: pos, refs })
    } else {
        match spec_value(b, pos, refs) {
            Err(e) => Err(e),
            Ok(k) => match spec_key(k.value) {
                Err(e) => Err(e),
                Ok(key) => if k.next <= pos || k.next > b.len() {
                    Err(eof(pos))
                } else {
                    match spec_value(b, k.next, k.refs) {
                        Err(e) => Err(e),
                        Ok(v) => if v.next <= k.next || v.next > b.len() {
                            Err(eof(pos))
                        } else {
                            match spec_entries(b, v.next, count - 1, v.refs) {
                                Err(e) => Err(e),
                                Ok(rest) => Ok(
                                    Decoded {
                                        value: seq![(key, v.value)] + rest.value,
                                        next: rest.next,
                                        refs: rest.refs,
                                    },
                                ),
                            }
                        },
                    }
                },
            },
        }
    }
}

/// What a byte stream decodes to: its first byte is the version, which must
/// not be newer than this decoder; one value follows, and what stands
/// behind that value is not looked at.
pub open spec fn spec_deserialize(b: Seq<u8>) -> Result<ValueView, Failure> {
    if b.len() == 0 {
        Err(eof(0))
    } else if b[0] > DESERIALIZATION_VERSION {
        Err(Failure::UnsupportedVersion(b[0]))
    } else {
        match spec_value(b, 1, RefTables::empty()) {
            Ok(d) => Ok(d.value),
            Err(e) => Err(e),
        }
    }
}

/// The strings and tables decoded so far.
pub struct RefState<'a> {
    pub strings: Vec<Cow<'a, [u8]>>,
    pub tables: Vec<Table<'a>>,
}

impl<'a> RefState<'a> {
    /// The known strings and tables, each by its view.
    pub open spec fn view(&self) -> RefTables {
        RefTables {
            strings: self.strings@.map_values(|s: Cow<'a, [u8]>| s@),
            tables: self.tables@.map_values(|t: Table<'a>| t.view()),
        }
    }

    /// No string and no table is known yet.
    pub fn new() -> (r: RefState<'a>)
        ensures
            r@ == RefTables::empty(),
    {
        let r = RefState { strings: Vec::new(), tables: Vec::new() };
        assert(r@.strings =~= Seq::empty());
        assert(r@.tables =~= Seq::empty());
        r
    }

    /// Makes `value` the newest known string.
    pub fn add_str_ref(&mut self, value: Cow<'a, [u8]>)
        ensures
            final(self)@ == old(self)@.with_string(value@),
    {
        self.strings.push(value);
        assert(self@.strings =~= old(self)@.strings.push(value@));
        assert(self@.tables =~= old(self)@.tables);
    }

    /// Makes `value` the newest known table.
    pub fn add_table_ref(&mut self, value: Table<'a>)
        ensures
            final(self)@ == old(self)@.with_table(value.view()),
    {
        self.tables.push(value);
        assert(self@.tables =~= old(self)@.tables.push(value.view()));
        assert(self@.strings =~= old(self)@.strings);
    }

    /// A copy of the known string number `key`, counted from one.
    pub fn get_str_ref(&self, key: usize) -> (r: Option<Cow<'a, [u8]>>)
        ensures
            match r {
                Some(s) => spec_ref(self@.strings, key as int) == Ok::<Seq<u8>, Failure>(s@),
                None => spec_ref(self@.strings, key as int) is Err,
            },
    {
        if 1 <= key && key <= self.strings.len() {
            Some(copy_bytes(&self.strings[key - 1]))
        } else {
            None
        }
    }

    /// A copy of the known table number `key`, counted from one.
    pub fn get_table_ref(&self, key: usize) -> (r: Option<Table<'a>>)
        ensures
            match r {
                Some(t) => spec_ref(self@.tables, key as int) == Ok::<TableView, Failure>(
                    t.view(),
                ),
                None => spec_ref(self@.tables, key as int) is Err,
            },
    {
        if 1 <= key && key <= self.tables.len() {
            Some(copy_table(&self.tables[key - 1]))
        } else {
            None
        }
    }
}

/// Whether the bytes are valid UTF-8.
pub fn is_utf8(bytes: &[u8]) -> (r: bool)
    ensures
        r == valid_utf8(bytes@),
{
    utf8_text(bytes).is_some()
}

/// Appends the decimal digits of `n`.
pub fn push_digits(n: u64, out: &mut Vec<u8>)
    ensures
        final(out)@ == old(out)@ + decimal_digits(n as nat),
    decreases n,
{
    if n >= 10 {
        push_digits(n / 10, out);
    }
    out.push(48 + (n % 10) as u8);
    proof {
        if n >= 10 {
            assert(final(out)@ =~= old(out)@ + decimal_digits(n as nat));
        } else {
            assert(final(out)@ =~= old(out)@ + decimal_digits(n as nat));
        }
    }
}

/// The decimal text of an integer.
pub fn decimal_bytes(i: i64) -> (r: Vec<u8>)
    ensures
        r@ == spec_decimal(i as int),
{
    let mut out: Vec<u8> = Vec::new();
    if i < 0 {
        out.push(45);
        let magnitude: u64 = (-(i + 1)) as u64 + 1;
        push_digits(magnitude, &mut out);
        assert(out@ =~= spec_decimal(i as int));
    } else {
        push_digits(i as u64, &mut out);
        assert(out@ =~= spec_decimal(i as int));
    }
    out
}

/// The key that a value gives when it stands where a key is expected.
pub fn coerce_key<'a>(v: Value<'a>) -> (r: Result<Cow<'a, [u8]>, DeserializationError>)
    ensures
        match r {
            Ok(key) => spec_key(v.view()) == Ok::<Seq<u8>, Failure>(key@),
            Err(e) => spec_key(v.view()) == Err::<Seq<u8>, Failure>(e@),
        },
{
    match v {
        Value::String(s) => Ok(s),
        Value::Int(i) => Ok(Cow::Owned(decimal_bytes(i))),
        Value::Float(bits) => Ok(Cow::Owned(float_text(bits))),
        Value::Bool(b) => {
            if b {
                Ok(Cow::Owned(vec![116u8, 114u8, 117u8, 101u8]))
            } else {
                Ok(Cow::Owned(vec![102u8, 97u8, 108u8, 115u8, 101u8]))
            }
        },
        Value::Nil => Ok(Cow::Owned(vec![110u8, 105u8, 108u8])),
        Value::Table(_) => Err(DeserializationError::TableKey),
    }
}

/// Reads the string of `len` bytes at `body`. The string is a slice of the
/// input.
pub fn parse_string<'a>(input: &'a [u8], body: usize, len: usize, refs: &mut RefState<'a>) -> (r:
    Result<(Value<'a>, usize), DeserializationError>)
    requires
        body <= input.len(),
    ensures
        match r {
            Ok((v, next)) => spec_string(input@, body as int, len as int, old(refs)@) == Ok::<
                Decoded<ValueView>,
                Failure,
            >(Decoded { value: v.view(), next: next as int, refs: final(refs)@ }) && body <= next
                <= input.len() && v.borrows_from(input@),
            Err(e) => spec_string(input@, body as int, len as int, old(refs)@) == Err::<
                Decoded<ValueView>,
                Failure,
            >(e@),
        },
{
    if len > input.len() - body {
        return Err(eof_error(body));
    }
    let bytes = slice_subrange(input, body, body + len);
    if !is_utf8(bytes) {
        return Err(DeserializationError::Utf8Error);
    }
    refs.add_str_ref(Cow::Borrowed(bytes));
    assert(bytes@ == input@.subrange(body as int, body + bytes@.len()));
    Ok((Value::String(Cow::Borrowed(bytes)), body + len))
}

/// The float that a text of `len` bytes spells, given what the decimal
/// parser made of it.
pub fn float_from_text(len: usize, parsed: Option<(usize, u64)>, negative: bool) -> (r: Result<
    u64,
    DeserializationError,
>)
    ensures
        match r {
            Ok(bits) => match parsed {
                Some((n, found)) => n == len && bits == (if negative {
                    spec_negate(found)
                } else {
                    found
                }),
                None => false,
            },
            Err(e) => e@ == Failure::StrFloatError && match parsed {
                Some((n, found)) => n != len,
                None => true,
            },
        },
{
    match parsed {
        Some((n, bits)) => {
            if n == len {
                if negative {
                    Ok(negate_bits(bits))
                } else {
                    Ok(bits)
                }
            } else {
                Err(DeserializationError::StrFloatError)
            }
        },
        None => Err(DeserializationError::StrFloatError),
    }
}

/// Reads the float written as `len` bytes of decimal text at `body`.
pub fn parse_float_str(input: &[u8], body: usize, len: usize, negative: bool) -> (r: Result<
    (u64, usize),
    DeserializationError,
>)
    requires
        body <= input.len(),
    ensures
        forall|refs: RefTables|
            match r {
                Ok((bits, next)) => #[trigger] spec_float_str(
                    input@,
                    body as int,
                    len as int,
                    negative,
                    refs,
                ) == Ok::<Decoded<ValueView>, Failure>(
                    Decoded { value: ValueView::Float(bits), next: next as int, refs },
                ) && body <= next <= input.len(),
                Err(e) => #[trigger] spec_float_str(
                    input@,
                    body as int,
                    len as int,
                    negative,
                    refs,
                ) == Err::<Decoded<ValueView>, Failure>(e@),
            },
{
    if len > input.len() - body {
        return Err(eof_error(body));
    }
    let bytes = slice_subrange(input, body, body + len);
    if !is_utf8(bytes) {
        return Err(DeserializationError::Utf8Error);
    }
    let parsed = parse_double(bytes);
    match float_from_text(len, parsed, negative) {
        Ok(bits) => Ok((bits, body + len)),
        Err(e) => Err(e),
    }
}

/// Reads a run of `count` long-form floats at `body`, if that is what
/// stands there.
pub fn read_float_run(input: &[u8], body: usize, count: usize) -> (r: Option<Vec<u64>>)
    requires
        body <= input.len(),
    ensures
        match r {
            Some(bits) => is_float_run(input@, body as int, count as int) && bits@ == float_run(
                input@,
                body as int,
                count as int,
            ) && body + 9 * count <= input.len(),
            None => !is_float_run(input@, body as int, count as int),
        },
{
    let mut out: Vec<u64> = Vec::new();
    let mut cur: usize = body;
    let mut k: usize = 0;
    while k < count
        invariant
            k <= count,
            cur == body + 9 * k,
            cur <= input.len(),
            out@.len() == k,
            forall|j: int| 0 <= j < k ==> #[trigger] float_at(input@, body as int, j),
            forall|j: int| 0 <= j < k ==> out@[j] == float_item(input@, body as int, j),
        decreases count - k,
    {
        if input.len() - cur < 9 || input[cur] != FLOAT_TAG {
            assert(!float_at(input@, body as int, k as int));
            return None;
        }
        let bits = match read_uint(input, cur + 1, 8) {
            Ok(bits) => bits,
            Err(_) => {
                assert(false);
                return None;
            },
        };
        assert(float_at(input@, body as int, k as int));
        assert(bits == float_item(input@, body as int, k as int));
        out.push(bits);
        cur += 9;
        k += 1;
    }
    assert(out@ =~= float_run(input@, body as int, count as int));
    Some(out)
}

/// A list of items in front of the outcome of decoding the items behind it.
pub open spec fn prepend<T>(acc: Seq<T>, r: Result<Decoded<Seq<T>>, Failure>) -> Result<
    Decoded<Seq<T>>,
    Failure,
> {
    match r {
        Ok(d) => Ok(Decoded { value: acc + d.value, next: d.next, refs: d.refs }),
        Err(e) => Err(e),
    }
}

proof fn lemma_prepend_push<T>(acc: Seq<T>, item: T, r: Result<Decoded<Seq<T>>, Failure>)
    ensures
        prepend(acc, prepend(seq![item], r)) == prepend(acc.push(item), r),
{
    match r {
        Ok(d) => {
            assert(acc + (seq![item] + d.value) =~= acc.push(item) + d.value);
        },
        Err(_) => {},
    }
}

proof fn lemma_prepend_done<T>(acc: Seq<T>, next: int, refs: RefTables)
    ensures
        prepend(acc, Ok(Decoded { value: Seq::<T>::empty(), next, refs })) == Ok::<
            Decoded<Seq<T>>,
            Failure,
        >(Decoded { value: acc, next, refs }),
{
    assert(acc + Seq::<T>::empty() =~= acc);
}

/// Decodes the value at `pos`.
pub fn parse_value<'a>(input: &'a [u8], pos: usize, refs: &mut RefState<'a>) -> (r: Result<
    (Value<'a>, usize),
    DeserializationError,
>)
    requires
        pos <= input.len(),
    ensures
        match r {
            Ok((v, next)) => spec_value(input@, pos as int, old(refs)@) == Ok::<
                Decoded<ValueView>,
                Failure,
            >(Decoded { value: v.view(), next: next as int, refs: final(refs)@ }) && pos < next
                <= input.len(),
            Err(e) => spec_value(input@, pos as int, old(refs)@) == Err::<
                Decoded<ValueView>,
                Failure,
            >(e@),
        },
    decreases input.len() - pos, 0nat,
{
    let (header, body) = match read_header(input, pos) {
        Ok(head) => head,
        Err(e) => {
            return Err(e);
        },
    };
    match header {
        Header::Nil => Ok((Value::Nil, body)),
        Header::Bool(v) => Ok((Value::Bool(v), body)),
        Header::Int(v) => Ok((Value::Int(v), body)),
        Header::Float(v) => Ok((Value::Float(v), body)),
        Header::FloatStr { negative, len } => {
            match parse_float_str(input, body, len, negative) {
                Ok((bits, next)) => Ok((Value::Float(bits), next)),
                Err(e) => Err(e),
            }
        },
        Header::Str { len } => parse_string(input, body, len, refs),
        Header::StringRef { index } => {
            match refs.get_str_ref(index) {
                Some(s) => Ok((Value::String(s), body)),
                None => Err(DeserializationError::MissingRef(index)),
            }
        },
        Header::TableRef { index } => {
            match refs.get_table_ref(index) {
                Some(t) => Ok((Value::Table(t), body)),
                None => Err(DeserializationError::MissingRef(index)),
            }
        },
        Header::Array { count } => parse_array(input, pos, body, count, refs),
        Header::Table { count } => parse_table(input, pos, body, count, refs),
        Header::Mixed { array_count, keyed_count } => parse_mixed(
            input,
            pos,
            body,
            array_count,
            keyed_count,
            refs,
        ),
    }
}

/// Decodes the array of `count` items whose tag byte is at `pos` and whose
/// items start at `body`: as a run of floats where it is one, item by item
/// where it is not.
fn parse_array<'a>(
    input: &'a [u8],
    pos: usize,
    body: usize,
    count: usize,
    refs: &mut RefState<'a>,
) -> (r: Result<(Value<'a>, usize), DeserializationError>)
    requires
        pos < body <= input.len(),
        spec_header(input@, pos as int) == Ok::<(Header, int), Failure>(
            (Header::Array { count }, body as int),
        ),
    ensures
        match r {
            Ok((v, next)) => spec_value(input@, pos as int, old(refs)@) == Ok::<
                Decoded<ValueView>,
                Failure,
            >(Decoded { value: v.view(), next: next as int, refs: final(refs)@ }) && pos < next
                <= input.len(),
            Err(e) => spec_value(input@, pos as int, old(refs)@) == Err::<
                Decoded<ValueView>,
                Failure,
            >(e@),
        },
    decreases input.len() - body, 2nat,
{
    match read_float_run(input, body, count) {
        Some(bits) => {
            let table = Table::FloatArray(bits);
            refs.add_table_ref(copy_table(&table));
            Ok((Value::Table(table), body + 9 * count))
        },
        None => {
            match parse_values(input, body, count, refs) {
                Ok((values, next)) => {
                    let table = Table::Array(values);
                    refs.add_table_ref(copy_table(&table));
                    Ok((Value::Table(table), next))
                },
                Err(e) => Err(error_within(e, ParseErrorKind::Array, pos)),
            }
        },
    }
}

/// Decodes the keyed table of `count` entries whose tag byte is at `pos` and
/// whose entries start at `body`.
fn parse_table<'a>(
    input: &'a [u8],
    pos: usize,
    body: usize,
    count: usize,
    refs: &mut RefState<'a>,
) -> (r: Result<(Value<'a>, usize), DeserializationError>)
    requires
        pos < body <= input.len(),
        spec_header(input@, pos as int) == Ok::<(Header, int), Failure>(
            (Header::Table { count }, body as int),
        ),
    ensures
        match r {
            Ok((v, next)) => spec_value(input@, pos as int, old(refs)@) == Ok::<
                Decoded<ValueView>,
                Failure,
            >(Decoded { value: v.view(), next: next as int, refs: final(refs)@ }) && pos < next
                <= input.len(),
            Err(e) => spec_value(input@, pos as int, old(refs)@) == Err::<
                Decoded<ValueView>,
                Failure,
            >(e@),
        },
    decreases input.len() - body, 2nat,
{
    match parse_entries(input, body, count, refs) {
        Ok((entries, next)) => {
            let table = Table::Named(entries);
            refs.add_table_ref(copy_table(&table));
            Ok((Value::Table(table), next))
        },
        Err(e) => Err(error_within(e, ParseErrorKind::Table, pos)),
    }
}

/// Decodes the mixed table whose tag byte is at `pos`: `array_count` items
/// from `body` on, then `keyed_count` entries.
fn parse_mixed<'a>(
    input: &'a [u8],
    pos: usize,
    body: usize,
    array_count: usize,
    keyed_count: usize,
    refs: &mut RefState<'a>,
) -> (r: Result<(Value<'a>, usize), DeserializationError>)
    requires
        pos < body <= input.len(),
        spec_header(input@, pos as int) == Ok::<(Header, int), Failure>(
            (Header::Mixed { array_count, keyed_count }, body as int),
        ),
    ensures
        match r {
            Ok((v, next)) => spec_value(input@, pos as int, old(refs)@) == Ok::<
                Decoded<ValueView>,
                Failure,
            >(Decoded { value: v.view(), next: next as int, refs: final(refs)@ }) && pos < next
                <= input.len(),
            Err(e) => spec_value(input@, pos as int, old(refs)@) == Err::<
                Decoded<ValueView>,
                Failure,
            >(e@),
        },
    decreases input.len() - body, 2nat,
{
    let (array, middle) = match parse_values(input, body, array_count, refs) {
        Ok(done) => done,
        Err(e) => {
            return Err(error_within(e, ParseErrorKind::Mixed, pos));
        },
    };
    match parse_entries(input, middle, keyed_count, refs) {
        Ok((named, next)) => {
            let table = Table::MixedTable { array, named };
            refs.add_table_ref(copy_table(&table));
            Ok((Value::Table(table), next))
        },
        Err(e) => Err(error_within(e, ParseErrorKind::Mixed, pos)),
    }
}

/// Decodes `count` values that stand one after the other from `pos` on.
pub fn parse_values<'a>(input: &'a [u8], pos: usize, count: usize, refs: &mut RefState<'a>) -> (r:
    Result<(Vec<Value<'a>>, usize), DeserializationError>)
    requires
        pos <= input.len(),
    ensures
        match r {
            Ok((values, next)) => spec_values(input@, pos as int, count as int, old(refs)@)
                == Ok::<Decoded<Seq<ValueView>>, Failure>(
                Decoded { value: values_view(values@), next: next as int, refs: final(refs)@ },
            ) && pos <= next <= input.len(),
            Err(e) => spec_values(input@, pos as int, count as int, old(refs)@) == Err::<
                Decoded<Seq<ValueView>>,
                Failure,
            >(e@),
        },
    decreases input.len() - pos, 1nat,
{
    let mut out: Vec<Value<'a>> = Vec::new();
    let mut cur: usize = pos;
    let mut i: usize = 0;
    let ghost start = refs@;
    while i < count
        invariant
            i <= count,
            pos <= cur <= input.len(),
            start == old(refs)@,
            spec_values(input@, pos as int, count as int, start) == prepend(
                values_view(out@),
                spec_values(input@, cur as int, count - i, refs@),
            ),
        decreases count - i,
    {
        let ghost before = refs@;
        match parse_value(input, cur, refs) {
            Err(e) => {
                return Err(e);
            },
            Ok((v, next)) => {
                proof {
                    let rest = spec_values(input@, next as int, count - i - 1, refs@);
                    assert(spec_values(input@, cur as int, count - i, before) == prepend(
                        seq![v.view()],
                        rest,
                    ));
                    lemma_prepend_push(values_view(out@), v.view(), rest);
                    lemma_values_view_push(out@, v);
                }
                out.push(v);
                cur = next;
                i += 1;
            },
        }
    }
    proof {
        lemma_prepend_done(values_view(out@), cur as int, refs@);
    }
    Ok((out, cur))
}

/// Decodes `count` entries that stand one after the other from `pos` on.
pub fn parse_entries<'a>(input: &'a [u8], pos: usize, count: usize, refs: &mut RefState<'a>) -> (r:
    Result<(Vec<(Cow<'a, [u8]>, Value<'a>)>, usize), DeserializationError>)
    requires
        pos <= input.len(),
    ensures
        match r {
            Ok((entries, next)) => spec_entries(input@, pos as int, count as int, old(refs)@)
                == Ok::<Decoded<Seq<(Seq<u8>, ValueView)>>, Failure>(
                Decoded { value: entries_view(entries@), next: next as int, refs: final(refs)@ },
            ) && pos <= next <= input.len(),
            Err(e) => spec_entries(input@, pos as int, count as int, old(refs)@) == Err::<
                Decoded<Seq<(Seq<u8>, ValueView)>>,
                Failure,
            >(e@),
        },
    decreases input.len() - pos, 1nat,
{
    let mut out: Vec<(Cow<'a, [u8]>, Value<'a>)> = Vec::new();
    let mut cur: usize = pos;
    let mut i: usize = 0;
    let ghost start = refs@;
    while i < count
        invariant
            i <= count,
            pos <= cur <= input.len(),
            start == old(refs)@,
            spec_entries(input@, pos as int, count as int, start) == prepend(
                entries_view(out@),
                spec_entries(input@, cur as int, count - i, refs@),
            ),
        decreases count - i,
    {
        let ghost before = refs@;
        let (raw_key, middle) = match parse_value(input, cur, refs) {
            Ok(done) => done,
            Err(e) => {
                return Err(e);
            },
        };
        let key = match coerce_key(raw_key) {
            Ok(key) => key,
            Err(e) => {
                return Err(e);
            },
        };
        match parse_value(input, middle, refs) {
            Err(e) => {
                return Err(e);
            },
            Ok((v, next)) => {
                proof {
                    let rest = spec_entries(input@, next as int, count - i - 1, refs@);
                    assert(spec_entries(input@, cur as int, count - i, before) == prepend(
                        seq![(key@, v.view())],
                        rest,
                    ));
                    lemma_prepend_push(entries_view(out@), (key@, v.view()), rest);
                    lemma_entries_view_push(out@, key, v);
                }
                out.push((key, v));
                cur = next;
                i += 1;
            },
        }
    }
    proof {
        lemma_prepend_done(entries_view(out@), cur as int, refs@);
    }
    Ok((out, cur))
}

/// Decodes a byte stream: the version byte, then one value.
pub fn deserialize<'a>(input: &'a [u8]) -> (r: Result<Value<'a>, DeserializationError>)
    ensures
        match r {
            Ok(v) => spec_deserialize(input@) == Ok::<ValueView, Failure>(v.view()),
            Err(e) => spec_deserialize(input@) == Err::<ValueView, Failure>(e@),
        },
{
    if input.len() == 0 {
        return Err(eof_error(0));
    }
    if input[0] > DESERIALIZATION_VERSION {
        return Err(DeserializationError::UnsupportedVersion(input[0]));
    }
    let mut refs = RefState::new();
    match parse_value(input, 1, &mut refs) {
        Ok((v, _)) => Ok(v),
        Err(e) => Err(e),
    }
}

/// The body of a value starts behind its tag byte, inside the input or at
/// its end.
pub proof fn lemma_header_advances(b: Seq<u8>, pos: int)
    requires
        spec_header(b, pos) is Ok,
    ensures
        pos < spec_header(b, pos)->Ok_0.1 <= b.len(),
{
}

/// A value takes at least its tag byte, and ends inside the input.
pub proof fn lemma_value_advances(b: Seq<u8>, pos: int, refs: RefTables)
    requires
        spec_value(b, pos, refs) is Ok,
    ensures
        pos < spec_value(b, pos, refs)->Ok_0.next <= b.len(),
    decreases b.len() - pos, 0nat,
{
    let (h, body) = spec_header(b, pos)->Ok_0;
    match h {
        Header::Array { count } => {
            if !is_float_run(b, body, count as int) {
                lemma_values_advance(b, body, count as int, refs);
            } else if count > 0 {
                assert(float_at(b, body, count - 1));
            }
        },
        Header::Table { count } => {
            lemma_entries_advance(b, body, count as int, refs);
        },
        Header::Mixed { array_count, keyed_count } => {
            lemma_values_advance(b, body, array_count as int, refs);
            let a = spec_values(b, body, array_count as int, refs)->Ok_0;
            lemma_entries_advance(b, a.next, keyed_count as int, a.refs);
        },
        _ => {},
    }
}

/// A run of values ends at or behind its start, inside the input.
pub proof fn lemma_values_advance(b: Seq<u8>, pos: int, count: int, refs: RefTables)
    requires
        0 <= pos <= b.len(),
        spec_values(b, pos, count, refs) is Ok,
    ensures
        pos <= spec_values(b, pos, count, refs)->Ok_0.next <= b.len(),
    decreases b.len() - pos, count + 1,
{
    if count > 0 {
        let first = spec_value(b, pos, refs)->Ok_0;
        lemma_values_advance(b, first.next, count - 1, first.refs);
    }
}

/// A run of entries ends at or behind its start, inside the input.
pub proof fn lemma_entries_advance(b: Seq<u8>, pos: int, count: int, refs: RefTables)
    requires
        0 <= pos <= b.len(),
        spec_entries(b, pos, count, refs) is Ok,
    ensures
        pos <= spec_entries(b, pos, count, refs)->Ok_0.next <= b.len(),
    decreases b.len() - pos, count + 1,
{
    if count > 0 {
        let k = spec_value(b, pos, refs)->Ok_0;
        let v = spec_value(b, k.next, k.refs)->Ok_0;
        lemma_entries_advance(b, v.next, count - 1, v.refs);
    }
}

/// Decoding is a function of the bytes: two values that the same stream
/// decodes to are the same value.
pub proof fn lemma_decoding_is_determined<'a, 'b>(input: Seq<u8>, first: Value<'a>, second: Value<'b>)
    requires
        spec_deserialize(input) == Ok::<ValueView, Failure>(first.view()),
        spec_deserialize(input) == Ok::<ValueView, Failure>(second.view()),
    ensures
        first.view() == second.view(),
{
}

/// A reference stands for the string or table that was decoded at its
/// position: the value it gives is that of the entry, and the known strings
/// and tables stay as they are.
pub proof fn lemma_reference_gives_the_entry(b: Seq<u8>, pos: int, refs: RefTables)
    requires
        spec_header(b, pos) is Ok,
        pos < spec_header(b, pos)->Ok_0.1 <= b.len(),
    ensures
        match spec_header(b, pos)->Ok_0.0 {
            Header::StringRef { index } => if 1 <= index <= refs.strings.len() {
                spec_value(b, pos, refs) == Ok::<Decoded<ValueView>, Failure>(
                    Decoded {
                        value: ValueView::String(refs.strings[index - 1]),
                        next: spec_header(b, pos)->Ok_0.1,
                        refs,
                    },
                )
            } else {
                spec_value(b, pos, refs) == Err::<Decoded<ValueView>, Failure>(
                    Failure::MissingRef(index),
                )
            },
            Header::TableRef { index } => if 1 <= index <= refs.tables.len() {
                spec_value(b, pos, refs) == Ok::<Decoded<ValueView>, Failure>(
                    Decoded {
                        value: ValueView::Table(refs.tables[index - 1]),
                        next: spec_header(b, pos)->Ok_0.1,
                        refs,
                    },
                )
            } else {
                spec_value(b, pos, refs) == Err::<Decoded<ValueView>, Failure>(
                    Failure::MissingRef(index),
                )
            },
            _ => true,
        },
{
}

/// The recording that a byte stream decodes to.
pub open spec fn spec_from_bytes(b: Seq<u8>) -> Result<ParsedRecordingView, Failure> {
    match spec_deserialize(b) {
        Err(e) => Err(e),
        Ok(v) => match spec_parsed_recording(v) {
            Ok(p) => Ok(p),
            Err(e) => Err(Failure::SavedVariablesError(e)),
        },
    }
}

/// Decodes a byte stream and reads the value as a recording. The recording
/// owns all it holds.
pub fn from_bytes<'a>(input: &[u8]) -> (r: Result<ParsedRecording<'a>, DeserializationError>)
    ensures
        match r {
            Ok(p) => spec_from_bytes(input@) == Ok::<ParsedRecordingView, Failure>(p@),
            Err(e) => spec_from_bytes(input@) == Err::<ParsedRecordingView, Failure>(e@),
        },
{
    let v = deserialize(input)?;
    match parsed_recording(&v) {
        Ok(p) => Ok(p),
        Err(e) => Err(DeserializationError::SavedVariablesError(e)),
    }
}

/// What comes of a printable blob: the byte that is no printable digit,
/// the refusal of the inflater, or what the inflated bytes decode to.
pub open spec fn blob_outcome<'a>(
    blob: Seq<u8>,
    r: Result<ParsedRecording<'a>, DeserializationError>,
) -> bool {
    if !all_printable(blob) {
        exists|k: int|
            first_invalid(blob, k) && r == Err::<ParsedRecording<'a>, DeserializationError>(
                DeserializationError::DecompressionError(
                    DecompressionError::InvalidPrintByte(#[trigger] blob[k]),
                ),
            )
    } else {
        match inflated(spec_decode_for_print(blob)) {
            None => r matches Err(
                DeserializationError::DecompressionError(DecompressionError::DeflateError(_)),
            ),
            Some(bytes) => match r {
                Ok(p) => spec_from_bytes(bytes) == Ok::<ParsedRecordingView, Failure>(p@),
                Err(e) => spec_from_bytes(bytes) == Err::<ParsedRecordingView, Failure>(e@),
            },
        }
    }
}

/// Opens a printable blob, decodes the bytes in it and reads the value as a
/// recording.
pub fn from_print_bytes<'a>(input: &[u8]) -> (r: Result<ParsedRecording<'a>, DeserializationError>)
    ensures
        blob_outcome(input@, r),
{
    match decompress_bytes(input) {
        Ok(bytes) => from_bytes(bytes.as_slice()),
        Err(e) => {
            proof {
                match e {
                    DecompressionError::InvalidPrintByte(b) => {
                        let k = choose|k: int| first_invalid(input@, k) && b == #[trigger] input@[k];
                        assert(input@.subrange(0, k).len() == k);
                        assert(spec_decode_byte(input@[k]) is None);
                        assert(!all_printable(input@));
                    },
                    DecompressionError::DeflateError(_) => {},
                    DecompressionError::InvalidText => {},
                }
            }
            Err(DeserializationError::DecompressionError(e))
        },
    }
}

/// Opens a printable blob, given as text, decodes the bytes in it and
/// reads the value as a recording.
pub fn from_str<'a>(input: &str) -> (r: Result<ParsedRecording<'a>, DeserializationError>)
    ensures
        blob_outcome(input.spec_bytes(), r),
{
    from_print_bytes(input.as_bytes())
}

} // verus!
