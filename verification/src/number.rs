//! Decimal numbers as `FromStr` reads them for unsigned integer types.
use vstd::prelude::*;

use crate::text::{digits_end, digits_value, lemma_digits_end_bounds, scan_digits};

verus! {

/// Why a decimal number could not be parsed.
#[derive(Debug, Copy, Clone, PartialEq, Eq, Structural)]
pub enum IntErrorKind {
    /// The text is empty.
    Empty,
    /// The text holds something other than an optional leading `+` and digits.
    InvalidDigit,
    /// The number does not fit into the target type.
    PosOverflow,
}

impl IntErrorKind {
    /// The description std gives of the error.
    pub fn message(&self) -> (r: &'static str)
        ensures
            r@ == spec_int_error_message(*self),
    {
        match self {
            IntErrorKind::Empty => "cannot parse integer from empty string",
            IntErrorKind::InvalidDigit => "invalid digit found in string",
            IntErrorKind::PosOverflow => "number too large to fit in target type",
        }
    }
}

/// The message that describes an integer parse error of this kind.
pub open spec fn spec_int_error_message(k: IntErrorKind) -> Seq<char> {
    match k {
        IntErrorKind::Empty => "cannot parse integer from empty string"@,
        IntErrorKind::InvalidDigit => "invalid digit found in string"@,
        IntErrorKind::PosOverflow => "number too large to fit in target type"@,
    }
}

/// An unsigned number up to `max` as `FromStr` reads it: an optional `+`
/// followed by digits only; the first failure in reading order decides the
/// error.
pub open spec fn spec_parse_unsigned(s: Seq<u8>, max: nat) -> Result<nat, IntErrorKind> {
    if s.len() == 0 {
        Err(IntErrorKind::Empty)
    } else if (s[0] == 43u8 || s[0] == 45u8) && s.len() == 1 {
        Err(IntErrorKind::InvalidDigit)
    } else {
        let d: int = if s[0] == 43u8 {
            1
        } else {
            0
        };
        let e = digits_end(s, d);
        if digits_value(s, d, e) > max {
            Err(IntErrorKind::PosOverflow)
        } else if e < s.len() {
            Err(IntErrorKind::InvalidDigit)
        } else {
            Ok(digits_value(s, d, e))
        }
    }
}

/// `u32::from_str` on UTF-8 bytes.
pub open spec fn spec_parse_u32(s: Seq<u8>) -> Result<u32, IntErrorKind> {
    match spec_parse_unsigned(s, u32::MAX as nat) {
        Ok(v) => Ok(v as u32),
        Err(e) => Err(e),
    }
}

/// `u8::from_str` on UTF-8 bytes.
pub open spec fn spec_parse_u8(s: Seq<u8>) -> Result<u8, IntErrorKind> {
    match spec_parse_unsigned(s, u8::MAX as nat) {
        Ok(v) => Ok(v as u8),
        Err(e) => Err(e),
    }
}

/// Parse an unsigned decimal number up to `max`.
pub fn parse_unsigned(s: &[u8], max: u32) -> (r: Result<u32, IntErrorKind>)
    ensures
        match r {
            Ok(v) => spec_parse_unsigned(s@, max as nat) == Ok::<nat, IntErrorKind>(v as nat),
            Err(e) => spec_parse_unsigned(s@, max as nat) == Err::<nat, IntErrorKind>(e),
        },
{
    if s.len() == 0 {
        return Err(IntErrorKind::Empty);
    }
    if (s[0] == 43u8 || s[0] == 45u8) && s.len() == 1 {
        return Err(IntErrorKind::InvalidDigit);
    }
    let d: usize = if s[0] == 43u8 {
        1
    } else {
        0
    };
    proof {
        lemma_digits_end_bounds(s@, d as int);
    }
    match scan_digits(s, d, max as u64) {
        None => Err(IntErrorKind::PosOverflow),
        Some((e, v)) => {
            if e < s.len() {
                Err(IntErrorKind::InvalidDigit)
            } else {
                Ok(v as u32)
            }
        },
    }
}

/// Parse a decimal `u32` from UTF-8 bytes.
pub fn parse_u32(s: &[u8]) -> (r: Result<u32, IntErrorKind>)
    ensures
        r == spec_parse_u32(s@),
{
    parse_unsigned(s, u32::MAX)
}

/// Parse a decimal `u8` from UTF-8 bytes.
pub fn parse_u8(s: &[u8]) -> (r: Result<u8, IntErrorKind>)
    ensures
        r == spec_parse_u8(s@),
{
    match parse_unsigned(s, 255) {
        Ok(v) => Ok(v as u8),
        Err(e) => Err(e),
    }
}

} // verus!
