//! The printable envelope: sixty-four printable characters carry six bits
//! each, least significant digit first, around a raw DEFLATE stream.

use crate::value::utf8_text;
use vstd::prelude::*;
use vstd::string::StringSliceAdditionalSpecFns;
use vstd::utf8::{encode_utf8, valid_utf8};

verus! {

/// `std::io::Error`, the error that the inflater hands back: it is carried
/// through as it is, and nothing is known of what it holds.
#[verifier::external_type_specification]
#[verifier::external_body]
pub struct ExIoError(std::io::Error);

/// The character that stands for the digit zero.
pub const SPECIAL_ZERO: u8 = 97;

/// Why a printable blob could not be turned back into bytes.
#[derive(Debug)]
pub enum DecompressionError {
    /// A byte that is none of the sixty-four printable digits.
    InvalidPrintByte(u8),
    /// The inflater rejected the decoded bytes.
    DeflateError(std::io::Error),
    /// The inflated bytes are asked for as text and are not valid UTF-8.
    InvalidText,
}

/// The six-bit digit that a printable byte stands for, if it stands for one.
///
/// Lower-case letters are 0..=25, upper-case letters 26..=51, decimal digits
/// 52..=61, and the two round brackets 62 and 63.
pub open spec fn spec_decode_byte(b: u8) -> Option<u8> {
    if 97 <= b <= 122 {
        Some((b - 97) as u8)
    } else if 65 <= b <= 90 {
        Some((b - 65 + 26) as u8)
    } else if 48 <= b <= 57 {
        Some((b - 48 + 52) as u8)
    } else if b == 40 {
        Some(62u8)
    } else if b == 41 {
        Some(63u8)
    } else {
        None
    }
}

/// The printable byte that stands for a six-bit digit.
pub open spec fn spec_encode_digit(d: int) -> u8 {
    if 0 <= d <= 25 {
        (d + 97) as u8
    } else if d <= 51 {
        (d - 26 + 65) as u8
    } else if d <= 61 {
        (d - 52 + 48) as u8
    } else if d == 62 {
        40u8
    } else {
        41u8
    }
}

/// Every byte of `s` is a printable digit.
pub open spec fn all_printable(s: Seq<u8>) -> bool {
    forall|i: int| 0 <= i < s.len() ==> (#[trigger] spec_decode_byte(s[i])) is Some
}

/// The digit at position `i` of a printable sequence; zero beyond its end.
pub open spec fn digit_at(s: Seq<u8>, i: int) -> int {
    if 0 <= i < s.len() && spec_decode_byte(s[i]) is Some {
        spec_decode_byte(s[i])->0 as int
    } else {
        0
    }
}

/// Four to the power `r`, for the three offsets inside a group.
pub open spec fn pow4(r: int) -> int {
    if r <= 0 {
        1
    } else if r == 1 {
        4
    } else if r == 2 {
        16
    } else {
        64
    }
}

/// Byte `j` of the little-endian bit stream that the digits of `s` spell out:
/// the high bits of one digit joined with the low bits of the next.
pub open spec fn decoded_byte(s: Seq<u8>, j: int) -> u8 {
    let g = j / 3;
    let r = j % 3;
    (digit_at(s, 4 * g + r) / pow4(r) + (digit_at(s, 4 * g + r + 1) % pow4(r + 1)) * pow4(3 - r)) as u8
}

/// The bytes that a printable sequence decodes to: six bits per character,
/// whole bytes only, so three bytes for every four characters.
pub open spec fn spec_decode_for_print(s: Seq<u8>) -> Seq<u8> {
    Seq::new(((s.len() * 3) / 4) as nat, |j: int| decoded_byte(s, j))
}

/// The byte at position `i` of a byte sequence; zero beyond its end.
pub open spec fn byte_at(b: Seq<u8>, i: int) -> int {
    if 0 <= i < b.len() {
        b[i] as int
    } else {
        0
    }
}

/// Digit `i` of the little-endian bit stream that the bytes `b` spell out.
pub open spec fn encoded_digit(b: Seq<u8>, i: int) -> int {
    let g = i / 4;
    let r = i % 4;
    if r == 0 {
        byte_at(b, 3 * g) % 64
    } else if r == 1 {
        byte_at(b, 3 * g) / 64 + (byte_at(b, 3 * g + 1) % 16) * 4
    } else if r == 2 {
        byte_at(b, 3 * g + 1) / 16 + (byte_at(b, 3 * g + 2) % 4) * 16
    } else {
        byte_at(b, 3 * g + 2) / 4
    }
}

/// The printable form of a byte sequence: as many characters as it takes to
/// hold eight bits per byte at six bits per character.
pub open spec fn spec_encode_for_print(b: Seq<u8>) -> Seq<u8> {
    Seq::new(((b.len() * 8 + 5) / 6) as nat, |i: int| spec_encode_digit(encoded_digit(b, i)))
}

/// Decodes one printable byte to its six-bit digit.
pub fn decode_byte(b: u8) -> (r: Result<u8, DecompressionError>)
    ensures
        match r {
            Ok(d) => spec_decode_byte(b) == Some(d) && d < 64,
            Err(e) => spec_decode_byte(b) is None && e == DecompressionError::InvalidPrintByte(b),
        },
{
    if b == SPECIAL_ZERO {
        Ok(0)
    } else if 98 <= b && b <= 122 {
        Ok(b - 97)
    } else if 65 <= b && b <= 90 {
        Ok(b - 65 + 26)
    } else if 48 <= b && b <= 57 {
        Ok(b - 48 + 52)
    } else if b == 40 {
        Ok(62)
    } else if b == 41 {
        Ok(63)
    } else {
        Err(DecompressionError::InvalidPrintByte(b))
    }
}

/// Position `k` holds the first byte of `s` that is no printable digit.
pub open spec fn first_invalid(s: Seq<u8>, k: int) -> bool {
    &&& 0 <= k < s.len()
    &&& spec_decode_byte(s[k]) is None
    &&& all_printable(s.subrange(0, k))
}

proof fn lemma_group_bytes(d0: u32, d1: u32, d2: u32, d3: u32)
    requires
        d0 < 64,
        d1 < 64,
        d2 < 64,
        d3 < 64,
    ensures
        ({
            let cache = d0 + d1 * 64 + d2 * 4096 + d3 * 262144;
            let b1 = cache % 256;
            let rest = (cache - b1) / 256;
            let b2 = rest % 256;
            let b3 = (rest - b2) / 256;
            &&& b1 == d0 + (d1 % 4) * 64
            &&& b2 == d1 / 4 + (d2 % 16) * 16
            &&& b3 == d2 / 16 + d3 * 4
            &&& 0 <= b3 < 256
        }),
{
    let low = d0 + (d1 % 4) * 64;
    let mid = d1 / 4 + (d2 % 16) * 16;
    let high = d2 / 16 + d3 * 4;
    assert(d1 == (d1 / 4) * 4 + d1 % 4);
    assert(d2 == (d2 / 16) * 16 + d2 % 16);
    let cache = d0 + d1 * 64 + d2 * 4096 + d3 * 262144;
    assert(cache == low + 256 * (mid + 256 * high));
    assert(0 <= low < 256);
    assert(0 <= mid < 256);
    assert(0 <= high < 256);
    vstd::arithmetic::div_mod::lemma_fundamental_div_mod_converse(
        cache as int,
        256,
        (mid + 256 * high) as int,
        low as int,
    );
    vstd::arithmetic::div_mod::lemma_fundamental_div_mod_converse(
        (mid + 256 * high) as int,
        256,
        high as int,
        mid as int,
    );
}

proof fn lemma_tail_byte(r: int, p: int, d: int)
    requires
        1 <= r <= 3,
        0 <= p < 64,
        0 <= d < 64,
    ensures
        ({
            let cache = p / pow4(r - 1) + d * pow4(4 - r);
            let b = p / pow4(r - 1) + (d % pow4(r)) * pow4(4 - r);
            &&& 0 <= b < 256
            &&& cache % 256 == b
            &&& (cache - b) / 256 == d / pow4(r)
            &&& r == 3 ==> d / pow4(r) == 0
        }),
{
    let q = d / pow4(r);
    let m = d % pow4(r);
    let high = p / pow4(r - 1);
    assert(d == q * pow4(r) + m);
    let cache = high + d * pow4(4 - r);
    let b = high + m * pow4(4 - r);
    if r == 1 {
        assert(cache == b + 256 * q);
    } else if r == 2 {
        assert(cache == b + 256 * q);
    } else {
        assert(cache == b + 256 * q);
    }
    vstd::arithmetic::div_mod::lemma_fundamental_div_mod_converse(cache, 256, q, b);
}

/// Decodes a printable blob into the bytes it carries.
///
/// The groups of four characters in front of the last four characters give
/// three bytes each. The characters after them are taken one at a time, six
/// bits each, and a byte leaves whenever eight bits are there; bits left
/// over at the end are dropped. The first byte that is no printable digit
/// is reported.
pub fn decode_print_bytes(input: &[u8]) -> (r: Result<Vec<u8>, DecompressionError>)
    ensures
        match r {
            Ok(v) => all_printable(input@) && v@ == spec_decode_for_print(input@),
            Err(e) => exists|k: int|
                first_invalid(input@, k) && e == DecompressionError::InvalidPrintByte(
                    #[trigger] input@[k],
                ),
        },
{
    let ghost s = input@;
    let len = input.len();
    let split: usize = if len >= 4 {
        len - 4 - len % 4
    } else {
        0
    };
    let mut result: Vec<u8> = Vec::new();
    let mut i: usize = 0;
    while i < split
        invariant
            s == input@,
            len == s.len(),
            split <= len,
            split % 4 == 0,
            i % 4 == 0,
            i <= split,
            all_printable(s.subrange(0, i as int)),
            result.len() == (i / 4) * 3,
            forall|j: int| 0 <= j < result.len() ==> result[j] == decoded_byte(s, j),
        decreases split - i,
    {
        let mut n: usize = 0;
        let mut digits: [u8; 4] = [0, 0, 0, 0];
        while n < 4
            invariant
                s == input@,
                    i + 4 <= s.len(),
                s.len() <= usize::MAX,
                n <= 4,
                all_printable(s.subrange(0, i + n)),
                forall|k: int| 0 <= k < n ==> digits[k] as int == digit_at(s, i + k) && digits[k] < 64,
            decreases 4 - n,
        {
            match decode_byte(input[i + n]) {
                Ok(d) => {
                    digits[n] = d;
                },
                Err(e) => {
                    proof {
                        assert(first_invalid(s, (i + n) as int));
                    }
                    return Err(e);
                },
            }
            proof {
                assert forall|k: int| 0 <= k < i + n + 1 implies (#[trigger] spec_decode_byte(
                    s.subrange(0, i + n + 1)[k],
                )) is Some by {
                    if k < i + n {
                        assert(s.subrange(0, i + n)[k] == s[k]);
                    }
                }
            }
            n += 1;
        }
        let mut cache: usize = digits[0] as usize + digits[1] as usize * 64 + digits[2] as usize
            * 4096 + digits[3] as usize * 262144;
        proof {
            lemma_group_bytes(
                digits[0] as u32,
                digits[1] as u32,
                digits[2] as u32,
                digits[3] as u32,
            );
        }
        let b1 = cache % 256;
        cache = (cache - b1) / 256;
        let b2 = cache % 256;
        let b3 = (cache - b2) / 256;
        let ghost g = (i / 4) as int;
        let ghost before = result@;
        proof {
            assert(i == 4 * g);
            assert(result.len() == 3 * g);
            assert((3 * g) / 3 == g && (3 * g) % 3 == 0);
            assert((3 * g + 1) / 3 == g && (3 * g + 1) % 3 == 1);
            assert((3 * g + 2) / 3 == g && (3 * g + 2) % 3 == 2);
            assert(digits[0] as int == digit_at(s, 4 * g));
            assert(digits[1] as int == digit_at(s, 4 * g + 1));
            assert(digits[2] as int == digit_at(s, 4 * g + 2));
            assert(digits[3] as int == digit_at(s, 4 * g + 3));
            assert(b1 as u8 == decoded_byte(s, 3 * g));
            assert(b2 as u8 == decoded_byte(s, 3 * g + 1));
            assert(digit_at(s, 4 * g + 3) % 64 == digit_at(s, 4 * g + 3));
            assert(b3 as u8 == decoded_byte(s, 3 * g + 2));
        }
        result.push(b1 as u8);
        result.push(b2 as u8);
        result.push(b3 as u8);
        proof {
            assert forall|j: int| 0 <= j < result.len() implies result[j] == decoded_byte(
                s,
                j,
            ) by {
                if j < 3 * g {
                    assert(result[j] == before[j]);
                }
            }
        }
        i += 4;
    }
    let mut cache: u64 = 0;
    let mut cache_bitlen: u32 = 0;
    let mut weight: u64 = 1;
    while i < len
        invariant
            s == input@,
            len == s.len(),
            i <= len,
            all_printable(s.subrange(0, i as int)),
            result.len() == (i * 3) / 4,
            forall|j: int| 0 <= j < result.len() ==> result[j] == decoded_byte(s, j),
            i % 4 == 0 ==> cache_bitlen == 0 && weight == 1 && cache == 0,
            i % 4 == 1 ==> cache_bitlen == 6 && weight == 64 && cache == digit_at(s, i - 1),
            i % 4 == 2 ==> cache_bitlen == 4 && weight == 16 && cache == digit_at(s, i - 1) / 4,
            i % 4 == 3 ==> cache_bitlen == 2 && weight == 4 && cache == digit_at(s, i - 1) / 16,
        decreases len - i,
    {
        let d = match decode_byte(input[i]) {
            Ok(d) => d,
            Err(e) => {
                proof {
                    assert(first_invalid(s, i as int));
                }
                return Err(e);
            },
        };
        proof {
            assert forall|k: int| 0 <= k < i + 1 implies (#[trigger] spec_decode_byte(
                s.subrange(0, i + 1)[k],
            )) is Some by {
                if k < i {
                    assert(s.subrange(0, i as int)[k] == s[k]);
                }
            }
            assert(d as int == digit_at(s, i as int));
        }
        let ghost g = (i / 4) as int;
        let ghost r = (i % 4) as int;
        proof {
            assert(i == 4 * g + r);
            if r >= 1 {
                lemma_tail_byte(r, digit_at(s, i - 1), d as int);
                assert(cache == digit_at(s, i - 1) / pow4(r - 1));
                assert(weight == pow4(4 - r));
            }
        }
        cache = cache + d as u64 * weight;
        cache_bitlen = cache_bitlen + 6;
        if cache_bitlen >= 8 {
            let b = cache % 256;
            proof {
                assert(result.len() == 3 * g + r - 1);
                let j = 3 * g + r - 1;
                assert(j / 3 == g && j % 3 == r - 1);
                assert(4 * g + (r - 1) == i - 1);
                assert(b as u8 == decoded_byte(s, j));
            }
            result.push(b as u8);
            cache = (cache - b) / 256;
            cache_bitlen = cache_bitlen - 8;
            weight = weight / 4;
        } else {
            weight = weight * 64;
        }
        i += 1;
    }
    proof {
        assert(s.subrange(0, len as int) =~= s);
        assert(result@ =~= spec_decode_for_print(s));
    }
    Ok(result)
}

/// Decodes a printable blob, given as text, into the bytes it carries.
pub fn decode_for_print(input: &str) -> (r: Result<Vec<u8>, DecompressionError>)
    ensures
        match r {
            Ok(v) => all_printable(input.spec_bytes()) && v@ == spec_decode_for_print(
                input.spec_bytes(),
            ),
            Err(e) => exists|k: int|
                first_invalid(input.spec_bytes(), k) && e == DecompressionError::InvalidPrintByte(
                    #[trigger] input.spec_bytes()[k],
                ),
        },
{
    decode_print_bytes(input.as_bytes())
}

/// What a raw DEFLATE inflater makes of a byte sequence: the inflated bytes,
/// or nothing where it rejects the stream.
pub uninterp spec fn inflated(data: Seq<u8>) -> Option<Seq<u8>>;

/// Runs `flate2::write::DeflateDecoder` over `data`: the bytes are written to
/// a decoder that collects its output in a vector, and the decoder is then
/// finished. The contract only gives the outcome its name: the inflater is a
/// function of the bytes it is fed.
#[verifier::external_body]
fn inflate(data: &[u8]) -> (r: Result<Vec<u8>, std::io::Error>)
    ensures
        match r {
            Ok(v) => inflated(data@) == Some(v@),
            Err(_) => inflated(data@) is None,
        },
{
    let mut decoder = flate2::write::DeflateDecoder::new(Vec::new());
    std::io::Write::write_all(&mut decoder, data)?;
    decoder.finish()
}

/// Decodes a printable blob and inflates the bytes it carries.
pub fn decompress_bytes(input: &[u8]) -> (r: Result<Vec<u8>, DecompressionError>)
    ensures
        match r {
            Ok(v) => all_printable(input@) && inflated(spec_decode_for_print(input@)) == Some(v@),
            Err(DecompressionError::InvalidPrintByte(b)) => exists|k: int|
                first_invalid(input@, k) && b == #[trigger] input@[k],
            Err(DecompressionError::DeflateError(_)) => all_printable(input@) && inflated(
                spec_decode_for_print(input@),
            ) is None,
            Err(DecompressionError::InvalidText) => false,
        },
{
    let decoded = match decode_print_bytes(input) {
        Ok(decoded) => decoded,
        Err(e) => {
            return Err(e);
        },
    };
    match inflate(decoded.as_slice()) {
        Ok(buffer) => Ok(buffer),
        Err(e) => Err(DecompressionError::DeflateError(e)),
    }
}

/// Decodes a printable blob, given as text, and inflates the bytes it
/// carries.
pub fn decompress(input: &str) -> (r: Result<Vec<u8>, DecompressionError>)
    ensures
        match r {
            Ok(v) => all_printable(input.spec_bytes()) && inflated(
                spec_decode_for_print(input.spec_bytes()),
            ) == Some(v@),
            Err(DecompressionError::InvalidPrintByte(b)) => exists|k: int|
                first_invalid(input.spec_bytes(), k) && b == #[trigger] input.spec_bytes()[k],
            Err(DecompressionError::DeflateError(_)) => all_printable(input.spec_bytes())
                && inflated(spec_decode_for_print(input.spec_bytes())) is None,
            Err(DecompressionError::InvalidText) => false,
        },
{
    decompress_bytes(input.as_bytes())
}

/// Decodes a printable blob, inflates the bytes it carries and hands them
/// back as text, which they must be.
pub fn decompress_string(input: &str) -> (r: Result<String, DecompressionError>)
    ensures
        match r {
            Ok(text) => all_printable(input.spec_bytes()) && inflated(
                spec_decode_for_print(input.spec_bytes()),
            ) == Some(encode_utf8(text@)),
            Err(DecompressionError::InvalidPrintByte(b)) => exists|k: int|
                first_invalid(input.spec_bytes(), k) && b == #[trigger] input.spec_bytes()[k],
            Err(DecompressionError::DeflateError(_)) => all_printable(input.spec_bytes())
                && inflated(spec_decode_for_print(input.spec_bytes())) is None,
            Err(DecompressionError::InvalidText) => all_printable(input.spec_bytes()) && match inflated(
                spec_decode_for_print(input.spec_bytes()),
            ) {
                Some(bytes) => !valid_utf8(bytes),
                None => false,
            },
        },
{
    let bytes = decompress(input)?;
    match utf8_text(bytes.as_slice()) {
        Some(text) => Ok(text.to_owned()),
        None => Err(DecompressionError::InvalidText),
    }
}

/// A byte that is a printable digit is the only byte that stands for its digit.
pub proof fn lemma_digit_round_trip(b: u8)
    requires
        spec_decode_byte(b) is Some,
    ensures
        0 <= spec_decode_byte(b)->0 < 64,
        spec_encode_digit(spec_decode_byte(b)->0 as int) == b,
{
}

/// Decoding a printable blob and encoding the bytes again gives the blob
/// back, whenever the blob is made of whole groups of four printable
/// characters. (With one to three characters more the last bits are dropped
/// by the decoder, and the blob need not come back.)
pub proof fn lemma_decode_then_encode(s: Seq<u8>)
    requires
        all_printable(s),
        s.len() % 4 == 0,
    ensures
        spec_encode_for_print(spec_decode_for_print(s)) == s,
{
    let b = spec_decode_for_print(s);
    let m = (s.len() / 4) as int;
    assert(s.len() == 4 * m);
    assert(b.len() == 3 * m);
    let e = spec_encode_for_print(b);
    assert(e.len() == 4 * m);
    assert forall|i: int| 0 <= i < e.len() implies e[i] == s[i] by {
        let g = i / 4;
        let r = i % 4;
        assert(i == 4 * g + r);
        assert(0 <= g < m);
        assert((3 * g) / 3 == g && (3 * g) % 3 == 0);
        assert((3 * g + 1) / 3 == g && (3 * g + 1) % 3 == 1);
        assert((3 * g + 2) / 3 == g && (3 * g + 2) % 3 == 2);
        let d0 = digit_at(s, 4 * g);
        let d1 = digit_at(s, 4 * g + 1);
        let d2 = digit_at(s, 4 * g + 2);
        let d3 = digit_at(s, 4 * g + 3);
        lemma_digit_round_trip(s[4 * g]);
        lemma_digit_round_trip(s[4 * g + 1]);
        lemma_digit_round_trip(s[4 * g + 2]);
        lemma_digit_round_trip(s[4 * g + 3]);
        let b0 = d0 + (d1 % 4) * 64;
        let b1 = d1 / 4 + (d2 % 16) * 16;
        let b2 = d2 / 16 + (d3 % 64) * 4;
        assert(b[3 * g] == decoded_byte(s, 3 * g));
        assert(b[3 * g + 1] == decoded_byte(s, 3 * g + 1));
        assert(b[3 * g + 2] == decoded_byte(s, 3 * g + 2));
        assert(0 <= b0 < 256 && 0 <= b1 < 256 && 0 <= b2 < 256);
        assert(decoded_byte(s, 3 * g) == b0 as u8);
        assert(decoded_byte(s, 3 * g + 1) == b1 as u8);
        assert(decoded_byte(s, 3 * g + 2) == b2 as u8);
        assert(byte_at(b, 3 * g) == b0);
        assert(byte_at(b, 3 * g + 1) == b1);
        assert(byte_at(b, 3 * g + 2) == b2);
        vstd::arithmetic::div_mod::lemma_fundamental_div_mod_converse(b0, 64, d1 % 4, d0);
        vstd::arithmetic::div_mod::lemma_fundamental_div_mod_converse(b1, 16, d2 % 16, d1 / 4);
        vstd::arithmetic::div_mod::lemma_fundamental_div_mod_converse(b2, 4, d3 % 64, d2 / 16);
        assert(encoded_digit(b, i) == digit_at(s, i));
    }
    assert(e =~= s);
}

} // verus!
