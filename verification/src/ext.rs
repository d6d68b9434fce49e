//! The interface to the outside text crates: UTF-8 validation of stored
//! bytes and lexical parsing of stored number text.  Each wrapper states
//! exactly what the call returns; everything around the calls is verified
//! against these contracts.

use vstd::prelude::*;

use bstr::ByteSlice;
use vstd::string::StringSliceAdditionalSpecFns;
use vstd::utf8::valid_utf8;

verus! {

/// Whether a byte is a decimal digit.
pub open spec fn spec_is_digit(b: u8) -> bool {
    0x30 <= b <= 0x39
}

/// Whether a text consists of decimal digits only.
pub open spec fn spec_all_digits(s: Seq<u8>) -> bool {
    forall|i: int| 0 <= i < s.len() ==> spec_is_digit(#[trigger] s[i])
}

/// The value of a run of decimal digits.
pub open spec fn spec_digits_value(s: Seq<u8>) -> int
    decreases s.len(),
{
    if s.len() == 0 {
        0
    } else {
        spec_digits_value(s.drop_last()) * 10 + (s.last() - 0x30)
    }
}

/// The complete parse of a decimal integer: an optional `+` sign (or `-` for
/// signed types), then at least one digit and nothing else, with the value
/// required to lie between `min` and `max`.
pub open spec fn spec_parse_int(s: Seq<u8>, signed: bool, min: int, max: int) -> Option<int> {
    let neg = signed && s.len() > 0 && s[0] == 0x2d;
    let body = if s.len() > 0 && (s[0] == 0x2b || (signed && s[0] == 0x2d)) {
        s.drop_first()
    } else {
        s
    };
    if body.len() > 0 && spec_all_digits(body) {
        let v = if neg {
            -spec_digits_value(body)
        } else {
            spec_digits_value(body)
        };
        if min <= v && v <= max {
            Some(v)
        } else {
            None::<int>
        }
    } else {
        None::<int>
    }
}

/// Relies on `bstr::ByteSlice::to_str`: it succeeds exactly when the bytes
/// are valid UTF-8, and the returned text views those same bytes.
#[verifier::external_body]
pub(crate) fn bytes_to_str(bytes: &[u8]) -> (r: Option<&str>)
    ensures
        r is Some <==> valid_utf8(bytes@),
        (r matches Some(t) ==> t.spec_bytes() == bytes@),
{
    bytes.to_str().ok()
}

/// Relies on `lexical_core::parse::<u8>`: the whole byte string is parsed as
/// an optionally `+`-signed run of decimal digits; any other byte, an empty
/// run, or a value above the type's maximum is an error.
#[verifier::external_body]
pub(crate) fn parse_u8(bytes: &[u8]) -> (r: Option<u8>)
    ensures
        (match spec_parse_int(bytes@, false, 0, u8::MAX as int) {
            Some(v) => r == Some(v as u8),
            None => r is None,
        }),
{
    lexical_core::parse::<u8>(bytes).ok()
}

/// Relies on `lexical_core::parse::<u16>`, as for the other unsigned widths.
#[verifier::external_body]
pub(crate) fn parse_u16(bytes: &[u8]) -> (r: Option<u16>)
    ensures
        (match spec_parse_int(bytes@, false, 0, u16::MAX as int) {
            Some(v) => r == Some(v as u16),
            None => r is None,
        }),
{
    lexical_core::parse::<u16>(bytes).ok()
}

/// Relies on `lexical_core::parse::<u32>`, as for the other unsigned widths.
#[verifier::external_body]
pub(crate) fn parse_u32(bytes: &[u8]) -> (r: Option<u32>)
    ensures
        (match spec_parse_int(bytes@, false, 0, u32::MAX as int) {
            Some(v) => r == Some(v as u32),
            None => r is None,
        }),
{
    lexical_core::parse::<u32>(bytes).ok()
}

/// Relies on `lexical_core::parse::<u64>`, as for the other unsigned widths.
#[verifier::external_body]
pub(crate) fn parse_u64(bytes: &[u8]) -> (r: Option<u64>)
    ensures
        (match spec_parse_int(bytes@, false, 0, u64::MAX as int) {
            Some(v) => r == Some(v as u64),
            None => r is None,
        }),
{
    lexical_core::parse::<u64>(bytes).ok()
}

/// Relies on `lexical_core::parse::<u128>`, as for the other unsigned widths.
#[verifier::external_body]
pub(crate) fn parse_u128(bytes: &[u8]) -> (r: Option<u128>)
    ensures
        (match spec_parse_int(bytes@, false, 0, u128::MAX as int) {
            Some(v) => r == Some(v as u128),
            None => r is None,
        }),
{
    lexical_core::parse::<u128>(bytes).ok()
}

/// Relies on `lexical_core::parse::<i8>`: the whole byte string is parsed as
/// an optionally `+`- or `-`-signed run of decimal digits; any other byte,
/// an empty run, or a value outside the type's range is an error.
#[verifier::external_body]
pub(crate) fn parse_i8(bytes: &[u8]) -> (r: Option<i8>)
    ensures
        (match spec_parse_int(bytes@, true, i8::MIN as int, i8::MAX as int) {
            Some(v) => r == Some(v as i8),
            None => r is None,
        }),
{
    lexical_core::parse::<i8>(bytes).ok()
}

/// Relies on `lexical_core::parse::<i16>`, as for the other signed widths.
#[verifier::external_body]
pub(crate) fn parse_i16(bytes: &[u8]) -> (r: Option<i16>)
    ensures
        (match spec_parse_int(bytes@, true, i16::MIN as int, i16::MAX as int) {
            Some(v) => r == Some(v as i16),
            None => r is None,
        }),
{
    lexical_core::parse::<i16>(bytes).ok()
}

/// Relies on `lexical_core::parse::<i32>`, as for the other signed widths.
#[verifier::external_body]
pub(crate) fn parse_i32(bytes: &[u8]) -> (r: Option<i32>)
    ensures
        (match spec_parse_int(bytes@, true, i32::MIN as int, i32::MAX as int) {
            Some(v) => r == Some(v as i32),
            None => r is None,
        }),
{
    lexical_core::parse::<i32>(bytes).ok()
}

/// Relies on `lexical_core::parse::<i64>`, as for the other signed widths.
#[verifier::external_body]
pub(crate) fn parse_i64(bytes: &[u8]) -> (r: Option<i64>)
    ensures
        (match spec_parse_int(bytes@, true, i64::MIN as int, i64::MAX as int) {
            Some(v) => r == Some(v as i64),
            None => r is None,
        }),
{
    lexical_core::parse::<i64>(bytes).ok()
}

/// Relies on `lexical_core::parse::<i128>`, as for the other signed widths.
#[verifier::external_body]
pub(crate) fn parse_i128(bytes: &[u8]) -> (r: Option<i128>)
    ensures
        (match spec_parse_int(bytes@, true, i128::MIN as int, i128::MAX as int) {
            Some(v) => r == Some(v as i128),
            None => r is None,
        }),
{
    lexical_core::parse::<i128>(bytes).ok()
}

} // verus!
