//! From value trees to typed records: how a field is looked up, what a
//! field of each primitive type accepts, and which failure is reported.

use crate::float::{float_from_int, int_to_float};
use crate::savedvariables::{ParseError, ValueKind};
use crate::value::{find_entry, named_view, Table, TableView, Value, ValueView};
use std::borrow::Cow;
use vstd::prelude::*;
use vstd::string::StringSliceAdditionalSpecFns;

verus! {

/// The kind of a value.
pub open spec fn kind_of(v: ValueView) -> ValueKind {
    match v {
        ValueView::Nil => ValueKind::Nil,
        ValueView::Bool(_) => ValueKind::Bool,
        ValueView::Int(_) => ValueKind::Int,
        ValueView::Float(_) => ValueKind::Float,
        ValueView::String(_) => ValueKind::String,
        ValueView::Table(TableView::Named(_)) => ValueKind::Named,
        ValueView::Table(TableView::MixedTable { .. }) => ValueKind::Mixed,
        ValueView::Table(_) => ValueKind::Array,
    }
}

/// The kind of a value.
pub fn value_kind(v: &Value) -> (r: ValueKind)
    ensures
        r == kind_of(v.view()),
{
    match v {
        Value::Nil => ValueKind::Nil,
        Value::Bool(_) => ValueKind::Bool,
        Value::Int(_) => ValueKind::Int,
        Value::Float(_) => ValueKind::Float,
        Value::String(_) => ValueKind::String,
        Value::Table(Table::Named(_)) => ValueKind::Named,
        Value::Table(Table::MixedTable { .. }) => ValueKind::Mixed,
        Value::Table(_) => ValueKind::Array,
    }
}

/// The failure of a value that stands alone, as the failure of a field of
/// the record `name`.
pub open spec fn in_record(e: ParseError, name: &'static str) -> ParseError {
    match e {
        ParseError::InvalidPrimitive { expected, actual } => ParseError::BadType {
            name,
            expected,
            actual,
        },
        _ => e,
    }
}

/// The failure of a value that stands alone, as the failure of a field of
/// the record `name`.
pub fn error_in_record(e: ParseError, name: &'static str) -> (r: ParseError)
    ensures
        r == in_record(e, name),
{
    match e {
        ParseError::InvalidPrimitive { expected, actual } => ParseError::BadType {
            name,
            expected,
            actual,
        },
        other => other,
    }
}

/// A boolean accepts a boolean only.
pub open spec fn spec_bool(v: ValueView) -> Result<bool, ParseError> {
    match v {
        ValueView::Bool(b) => Ok(b),
        _ => Err(ParseError::InvalidPrimitive { expected: ValueKind::Bool, actual: kind_of(v) }),
    }
}

/// A signed integer accepts an integer only.
pub open spec fn spec_int(v: ValueView) -> Result<i64, ParseError> {
    match v {
        ValueView::Int(i) => Ok(i),
        _ => Err(ParseError::InvalidPrimitive { expected: ValueKind::Int, actual: kind_of(v) }),
    }
}

/// An unsigned integer accepts an integer that is not negative.
pub open spec fn spec_unsigned(v: ValueView) -> Result<u64, ParseError> {
    match v {
        ValueView::Int(i) => if i >= 0 {
            Ok(i as u64)
        } else {
            Err(ParseError::SignCast)
        },
        _ => Err(ParseError::InvalidPrimitive { expected: ValueKind::Int, actual: kind_of(v) }),
    }
}

/// A float accepts a float, or an integer, which is widened.
pub open spec fn spec_float(v: ValueView) -> Result<u64, ParseError> {
    match v {
        ValueView::Float(bits) => Ok(bits),
        ValueView::Int(i) => Ok(int_to_float(i)),
        _ => Err(ParseError::InvalidPrimitive { expected: ValueKind::Float, actual: kind_of(v) }),
    }
}

/// A string accepts a string only.
pub open spec fn spec_text(v: ValueView) -> Result<Seq<u8>, ParseError> {
    match v {
        ValueView::String(s) => Ok(s),
        _ => Err(ParseError::InvalidPrimitive { expected: ValueKind::String, actual: kind_of(v) }),
    }
}

/// An optional value is absent where `nil` stands.
pub open spec fn spec_optional(v: ValueView) -> Option<ValueView> {
    match v {
        ValueView::Nil => None,
        _ => Some(v),
    }
}

/// Reads a boolean.
pub fn expect_bool(v: &Value) -> (r: Result<bool, ParseError>)
    ensures
        r == spec_bool(v.view()),
{
    match v {
        Value::Bool(b) => Ok(*b),
        _ => Err(ParseError::InvalidPrimitive { expected: ValueKind::Bool, actual: value_kind(v) }),
    }
}

/// Reads a signed integer.
pub fn expect_int(v: &Value) -> (r: Result<i64, ParseError>)
    ensures
        r == spec_int(v.view()),
{
    match v {
        Value::Int(i) => Ok(*i),
        _ => Err(ParseError::InvalidPrimitive { expected: ValueKind::Int, actual: value_kind(v) }),
    }
}

/// Reads an unsigned integer.
pub fn expect_unsigned(v: &Value) -> (r: Result<u64, ParseError>)
    ensures
        r == spec_unsigned(v.view()),
{
    match v {
        Value::Int(i) => {
            if *i >= 0 {
                Ok(*i as u64)
            } else {
                Err(ParseError::SignCast)
            }
        },
        _ => Err(ParseError::InvalidPrimitive { expected: ValueKind::Int, actual: value_kind(v) }),
    }
}

/// Reads a float, as its bits; an integer is widened.
pub fn expect_float(v: &Value) -> (r: Result<u64, ParseError>)
    ensures
        r == spec_float(v.view()),
{
    match v {
        Value::Float(bits) => Ok(*bits),
        Value::Int(i) => Ok(float_from_int(*i)),
        _ => Err(
            ParseError::InvalidPrimitive { expected: ValueKind::Float, actual: value_kind(v) },
        ),
    }
}

/// Reads a string. The bytes stay where the value has them.
pub fn expect_text<'b, 'a>(v: &'b Value<'a>) -> (r: Result<&'b Cow<'a, [u8]>, ParseError>)
    ensures
        match r {
            Ok(s) => spec_text(v.view()) == Ok::<Seq<u8>, ParseError>(s@) && *v == Value::String(
                *s,
            ),
            Err(e) => spec_text(v.view()) == Err::<Seq<u8>, ParseError>(e),
        },
{
    match v {
        Value::String(s) => Ok(s),
        _ => Err(
            ParseError::InvalidPrimitive { expected: ValueKind::String, actual: value_kind(v) },
        ),
    }
}

/// The value itself, unless it is `nil`.
pub fn optional<'b, 'a>(v: &'b Value<'a>) -> (r: Option<&'b Value<'a>>)
    ensures
        match r {
            Some(inner) => spec_optional(v.view()) == Some(inner.view()) && inner == v,
            None => spec_optional(v.view()) is None,
        },
{
    match v {
        Value::Nil => None,
        _ => Some(v),
    }
}

/// The fields of a record: the entries of a keyed table.
pub open spec fn spec_fields(v: ValueView, name: &'static str) -> Result<
    Map<Seq<u8>, ValueView>,
    ParseError,
> {
    match v {
        ValueView::Table(TableView::Named(m)) => Ok(m),
        ValueView::Table(TableView::MixedTable { .. }) => Err(ParseError::MixedTable),
        _ => Err(ParseError::BadType { name, expected: ValueKind::Named, actual: kind_of(v) }),
    }
}

/// The entries of the keyed table that holds the fields of the record
/// `name`.
pub fn expect_fields<'b, 'a>(v: &'b Value<'a>, name: &'static str) -> (r: Result<
    &'b Vec<(Cow<'a, [u8]>, Value<'a>)>,
    ParseError,
>)
    ensures
        match r {
            Ok(entries) => spec_fields(v.view(), name) == Ok::<Map<Seq<u8>, ValueView>, ParseError>(
                named_view(entries@),
            ) && *v == Value::Table(Table::Named(*entries)),
            Err(e) => spec_fields(v.view(), name) == Err::<Map<Seq<u8>, ValueView>, ParseError>(e),
        },
{
    match v {
        Value::Table(Table::Named(entries)) => Ok(entries),
        Value::Table(Table::MixedTable { .. }) => Err(ParseError::MixedTable),
        _ => Err(ParseError::BadType { name, expected: ValueKind::Named, actual: value_kind(v) }),
    }
}

/// The field `key` of the record `name`, which must be there.
pub open spec fn spec_required(m: Map<Seq<u8>, ValueView>, name: &'static str, key: &'static str)
    -> Result<ValueView, ParseError> {
    if m.contains_key(key.spec_bytes()) {
        Ok(m[key.spec_bytes()])
    } else {
        Err(ParseError::MissingKey { name, key })
    }
}

/// The field `key`, where it is there and holds more than `nil`.
pub open spec fn spec_present(m: Map<Seq<u8>, ValueView>, key: &'static str) -> Option<ValueView> {
    if m.contains_key(key.spec_bytes()) {
        spec_optional(m[key.spec_bytes()])
    } else {
        None
    }
}

/// Looks up the field `key` of the record `name`, which must be there.
pub fn required<'b, 'a>(
    entries: &'b Vec<(Cow<'a, [u8]>, Value<'a>)>,
    name: &'static str,
    key: &'static str,
) -> (r: Result<&'b Value<'a>, ParseError>)
    ensures
        match r {
            Ok(v) => spec_required(named_view(entries@), name, key) == Ok::<ValueView, ParseError>(
                v.view(),
            ),
            Err(e) => spec_required(named_view(entries@), name, key) == Err::<
                ValueView,
                ParseError,
            >(e),
        },
{
    match find_entry(entries, key.as_bytes()) {
        Some(v) => Ok(v),
        None => Err(ParseError::MissingKey { name, key }),
    }
}

/// Looks up the field `key`, which may be absent or `nil`.
pub fn present<'b, 'a>(entries: &'b Vec<(Cow<'a, [u8]>, Value<'a>)>, key: &'static str) -> (r:
    Option<&'b Value<'a>>)
    ensures
        match r {
            Some(v) => spec_present(named_view(entries@), key) == Some(v.view()),
            None => spec_present(named_view(entries@), key) is None,
        },
{
    match find_entry(entries, key.as_bytes()) {
        Some(v) => optional(v),
        None => None,
    }
}

/// An outcome for a value that stands alone, as the outcome for a field of
/// the record `name`.
pub open spec fn lift<T>(r: Result<T, ParseError>, name: &'static str) -> Result<T, ParseError> {
    match r {
        Ok(x) => Ok(x),
        Err(e) => Err(in_record(e, name)),
    }
}

/// The unsigned integer under `key`, which must be there.
pub open spec fn spec_field_unsigned(
    m: Map<Seq<u8>, ValueView>,
    name: &'static str,
    key: &'static str,
) -> Result<u64, ParseError> {
    match spec_required(m, name, key) {
        Ok(v) => lift(spec_unsigned(v), name),
        Err(e) => Err(e),
    }
}

/// The signed integer under `key`, which must be there.
pub open spec fn spec_field_int(m: Map<Seq<u8>, ValueView>, name: &'static str, key: &'static str)
    -> Result<i64, ParseError> {
    match spec_required(m, name, key) {
        Ok(v) => lift(spec_int(v), name),
        Err(e) => Err(e),
    }
}

/// The float under `key`, which must be there.
pub open spec fn spec_field_float(
    m: Map<Seq<u8>, ValueView>,
    name: &'static str,
    key: &'static str,
) -> Result<u64, ParseError> {
    match spec_required(m, name, key) {
        Ok(v) => lift(spec_float(v), name),
        Err(e) => Err(e),
    }
}

/// The boolean under `key`, which must be there.
pub open spec fn spec_field_bool(m: Map<Seq<u8>, ValueView>, name: &'static str, key: &'static str)
    -> Result<bool, ParseError> {
    match spec_required(m, name, key) {
        Ok(v) => lift(spec_bool(v), name),
        Err(e) => Err(e),
    }
}

/// The string under `key`, which must be there.
pub open spec fn spec_field_text(m: Map<Seq<u8>, ValueView>, name: &'static str, key: &'static str)
    -> Result<Seq<u8>, ParseError> {
    match spec_required(m, name, key) {
        Ok(v) => lift(spec_text(v), name),
        Err(e) => Err(e),
    }
}

/// The float under `key`, if the field is there and holds more than `nil`.
pub open spec fn spec_field_opt_float(
    m: Map<Seq<u8>, ValueView>,
    name: &'static str,
    key: &'static str,
) -> Result<Option<u64>, ParseError> {
    match spec_present(m, key) {
        Some(v) => match spec_float(v) {
            Ok(x) => Ok(Some(x)),
            Err(e) => Err(in_record(e, name)),
        },
        None => Ok(None),
    }
}

/// The boolean under `key`, if the field is there and holds more than
/// `nil`.
pub open spec fn spec_field_opt_bool(
    m: Map<Seq<u8>, ValueView>,
    name: &'static str,
    key: &'static str,
) -> Result<Option<bool>, ParseError> {
    match spec_present(m, key) {
        Some(v) => match spec_bool(v) {
            Ok(x) => Ok(Some(x)),
            Err(e) => Err(in_record(e, name)),
        },
        None => Ok(None),
    }
}

/// Reads the unsigned integer under `key`.
pub fn field_unsigned(
    entries: &Vec<(Cow<'_, [u8]>, Value<'_>)>,
    name: &'static str,
    key: &'static str,
) -> (r: Result<u64, ParseError>)
    ensures
        r == spec_field_unsigned(named_view(entries@), name, key),
{
    match required(entries, name, key) {
        Ok(v) => match expect_unsigned(v) {
            Ok(x) => Ok(x),
            Err(e) => Err(error_in_record(e, name)),
        },
        Err(e) => Err(e),
    }
}

/// Reads the signed integer under `key`.
pub fn field_int(entries: &Vec<(Cow<'_, [u8]>, Value<'_>)>, name: &'static str, key: &'static str)
    -> (r: Result<i64, ParseError>)
    ensures
        r == spec_field_int(named_view(entries@), name, key),
{
    match required(entries, name, key) {
        Ok(v) => match expect_int(v) {
            Ok(x) => Ok(x),
            Err(e) => Err(error_in_record(e, name)),
        },
        Err(e) => Err(e),
    }
}

/// Reads the float under `key`.
pub fn field_float(entries: &Vec<(Cow<'_, [u8]>, Value<'_>)>, name: &'static str, key: &'static str)
    -> (r: Result<u64, ParseError>)
    ensures
        r == spec_field_float(named_view(entries@), name, key),
{
    match required(entries, name, key) {
        Ok(v) => match expect_float(v) {
            Ok(x) => Ok(x),
            Err(e) => Err(error_in_record(e, name)),
        },
        Err(e) => Err(e),
    }
}

/// Reads the boolean under `key`.
pub fn field_bool(entries: &Vec<(Cow<'_, [u8]>, Value<'_>)>, name: &'static str, key: &'static str)
    -> (r: Result<bool, ParseError>)
    ensures
        r == spec_field_bool(named_view(entries@), name, key),
{
    match required(entries, name, key) {
        Ok(v) => match expect_bool(v) {
            Ok(x) => Ok(x),
            Err(e) => Err(error_in_record(e, name)),
        },
        Err(e) => Err(e),
    }
}

/// Reads the string under `key`.
pub fn field_text<'b, 'a>(
    entries: &'b Vec<(Cow<'a, [u8]>, Value<'a>)>,
    name: &'static str,
    key: &'static str,
) -> (r: Result<&'b Cow<'a, [u8]>, ParseError>)
    ensures
        match r {
            Ok(s) => spec_field_text(named_view(entries@), name, key) == Ok::<
                Seq<u8>,
                ParseError,
            >(s@),
            Err(e) => spec_field_text(named_view(entries@), name, key) == Err::<
                Seq<u8>,
                ParseError,
            >(e),
        },
{
    match required(entries, name, key) {
        Ok(v) => match expect_text(v) {
            Ok(x) => Ok(x),
            Err(e) => Err(error_in_record(e, name)),
        },
        Err(e) => Err(e),
    }
}

/// Reads the optional float under `key`.
pub fn field_opt_float(
    entries: &Vec<(Cow<'_, [u8]>, Value<'_>)>,
    name: &'static str,
    key: &'static str,
) -> (r: Result<Option<u64>, ParseError>)
    ensures
        r == spec_field_opt_float(named_view(entries@), name, key),
{
    match present(entries, key) {
        Some(v) => match expect_float(v) {
            Ok(x) => Ok(Some(x)),
            Err(e) => Err(error_in_record(e, name)),
        },
        None => Ok(None),
    }
}

/// Reads the optional boolean under `key`.
pub fn field_opt_bool(
    entries: &Vec<(Cow<'_, [u8]>, Value<'_>)>,
    name: &'static str,
    key: &'static str,
) -> (r: Result<Option<bool>, ParseError>)
    ensures
        r == spec_field_opt_bool(named_view(entries@), name, key),
{
    match present(entries, key) {
        Some(v) => match expect_bool(v) {
            Ok(x) => Ok(Some(x)),
            Err(e) => Err(error_in_record(e, name)),
        },
        None => Ok(None),
    }
}

} // verus!
