//! Floating-point numbers as bit patterns. The library itself never computes
//! with them: it carries the sixty-four bits of an IEEE-754 binary64 number,
//! and leaves the conversions to and from text to the crates that do them.

use vstd::prelude::*;

verus! {

/// The sign bit of a binary64 bit pattern.
pub const SIGN_BIT: u64 = 0x8000_0000_0000_0000;

/// What `nom`'s decimal float parser makes of the start of a text: how many
/// bytes it takes as the number, and the bit pattern of the number they
/// spell; nothing where the text does not start with a number.
pub uninterp spec fn double_literal(text: Seq<u8>) -> Option<(int, u64)>;

/// The text that the standard formatting of floating-point numbers gives
/// for the number with the given bit pattern.
pub uninterp spec fn float_display(bits: u64) -> Seq<u8>;

/// The bit pattern of the floating-point number nearest to an integer.
pub uninterp spec fn int_to_float(v: i64) -> u64;

/// The bit pattern of the number with the opposite sign.
pub open spec fn spec_negate(bits: u64) -> u64 {
    if bits >= SIGN_BIT {
        (bits - SIGN_BIT) as u64
    } else {
        (bits + SIGN_BIT) as u64
    }
}

/// Calls `nom::number::complete::double` on `text` and hands back the number
/// of bytes it consumed, measured with `nom::Offset`, and the bits of the
/// number it returned. The parser takes a non-empty prefix of its input or
/// fails; which prefix, and which number, is what `double_literal` names.
#[verifier::external_body]
pub(crate) fn parse_double(text: &[u8]) -> (r: Option<(usize, u64)>)
    ensures
        match r {
            Some((n, bits)) => double_literal(text@) == Some((n as int, bits)) && 0 < n
                <= text@.len(),
            None => double_literal(text@) is None,
        },
{
    match nom::number::complete::double::<&[u8], nom::error::Error<&[u8]>>(text) {
        Ok((rest, v)) => Some((nom::Offset::offset(text, rest), v.to_bits())),
        Err(_) => None,
    }
}

/// Formats the number with the given bits as the standard library's
/// `to_string` does. The bits become a number through
/// `nom::number::complete::be_f64`, which succeeds on any eight bytes.
#[verifier::external_body]
pub(crate) fn format_float(bits: u64) -> (r: Option<Vec<u8>>)
    ensures
        r is Some,
        r->0@ == float_display(bits),
{
    match nom::number::complete::be_f64::<&[u8], nom::error::Error<&[u8]>>(&bits.to_be_bytes()) {
        Ok((_, v)) => Some(v.to_string().into_bytes()),
        Err(_) => None,
    }
}

/// Converts an integer with `num_traits::ToPrimitive::to_f64`, which for a
/// signed 64-bit integer always gives a number, and hands back its bits.
#[verifier::external_body]
pub(crate) fn widen_int(v: i64) -> (r: Option<u64>)
    ensures
        r == Some(int_to_float(v)),
{
    num_traits::cast::ToPrimitive::to_f64(&v).map(|x| x.to_bits())
}

/// Flips the sign of a number given by its bits.
pub fn negate_bits(bits: u64) -> (r: u64)
    ensures
        r == spec_negate(bits),
{
    if bits >= SIGN_BIT {
        bits - SIGN_BIT
    } else {
        bits + SIGN_BIT
    }
}

/// The text of a number given by its bits.
pub fn float_text(bits: u64) -> (r: Vec<u8>)
    ensures
        r@ == float_display(bits),
{
    match format_float(bits) {
        Some(text) => text,
        None => Vec::new(),
    }
}

/// The bits of the floating-point number nearest to an integer.
pub fn float_from_int(v: i64) -> (r: u64)
    ensures
        r == int_to_float(v),
{
    match widen_int(v) {
        Some(bits) => bits,
        None => 0,
    }
}

} // verus!
