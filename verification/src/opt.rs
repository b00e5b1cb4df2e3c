//! Option values of the resampling program's older command line.
use vstd::prelude::*;

use crate::compression::Compression;
use crate::make_partition::is_power_of_two as spec_is_power_of_two;
use crate::make_partition::u32_is_power_of_two;
use crate::number::{parse_u32, spec_int_error_message, spec_parse_u32};
use crate::opt_common::{
    ascii_lowercase, compression_result, is_ascii_text, parse_compr_with, regex_named_pair,
    setting_captures, spec_compression_from_captures, ParseCompressionErr,
};
use crate::text::{concat_str, str_eq};
use vstd::string::StringSliceAdditionalSpecFns;

verus! {

/// Pattern of a compression setting: an algorithm name of letters and
/// digits (such as `bzip2` or `lz4`), optionally followed by `_` and a level.
pub const COMPRESSION_PATTERN: &'static str = crate::opt_common::COMPRESSION_PATTERN;

/// How cell seeds are chosen.
#[derive(Debug, Copy, Clone, PartialEq, Eq, Structural)]
pub enum Strategy {
    /// Any event with negative weight.
    Next,
    /// The event with the lowest weight.
    MostNegative,
    /// The event with negative weight closest to zero.
    LeastNegative,
}

/// A seed strategy that is not known.
#[derive(Debug, Clone)]
pub struct UnknownStrategy(pub String);

impl UnknownStrategy {
    /// The error message.
    pub fn message(&self) -> (r: String)
        ensures
            r@ == "Unknown strategy: "@ + self.0@,
    {
        concat_str("Unknown strategy: ", self.0.as_str())
    }
}

/// The seed strategy a setting names.
pub open spec fn spec_strategy(s: Seq<char>) -> Option<Strategy> {
    if s == "Any"@ || s == "any"@ {
        Some(Strategy::Next)
    } else if s == "MostNegative"@ || s == "most_negative"@ {
        Some(Strategy::MostNegative)
    } else if s == "LeastNegative"@ || s == "least_negative"@ {
        Some(Strategy::LeastNegative)
    } else {
        None
    }
}

/// Read a seed strategy.
pub fn parse_strategy(s: &str) -> (r: Result<Strategy, UnknownStrategy>)
    ensures
        match spec_strategy(s@) {
            Some(st) => r == Ok::<Strategy, UnknownStrategy>(st),
            None => r matches Err(e) && e.0@ == s@,
        },
{
    if str_eq(s, "Any") || str_eq(s, "any") {
        Ok(Strategy::Next)
    } else if str_eq(s, "MostNegative") || str_eq(s, "most_negative") {
        Ok(Strategy::MostNegative)
    } else if str_eq(s, "LeastNegative") || str_eq(s, "least_negative") {
        Ok(Strategy::LeastNegative)
    } else {
        Err(UnknownStrategy(s.to_owned()))
    }
}

/// Read a compression setting such as `gzip` or `zstd_5`; a setting with
/// characters outside ASCII is refused.
pub fn parse_compr(s: &str) -> (r: Result<Compression, ParseCompressionErr>)
    ensures
        compression_result(
            s@,
            spec_compression_from_captures(
                regex_named_pair(COMPRESSION_PATTERN@, ascii_lowercase(s@), "algo"@, "lvl"@),
            ),
            r,
        ),
        is_ascii_text(s@) ==> compression_result(
            s@,
            spec_compression_from_captures(setting_captures(ascii_lowercase(s@))),
            r,
        ),
        !is_ascii_text(s@) ==> r is Err,
{
    parse_compr_with(COMPRESSION_PATTERN, s)
}

/// Check that a number of partitions is a power of two.
///
/// Errors are the messages of `u32::from_str` or "has to be a power of two".
pub fn is_power_of_two(s: &str) -> (r: Result<(), String>)
    ensures
        match spec_parse_u32(s.spec_bytes()) {
            Ok(n) => if spec_is_power_of_two(n as nat) {
                r is Ok
            } else {
                r matches Err(msg) && msg@ == "has to be a power of two"@
            },
            Err(k) => r matches Err(msg) && msg@ == spec_int_error_message(k),
        },
{
    match parse_u32(s.as_bytes()) {
        Ok(n) => {
            if u32_is_power_of_two(n) {
                Ok(())
            } else {
                Err("has to be a power of two".to_owned())
            }
        },
        Err(k) => Err(k.message().to_owned()),
    }
}

} // verus!
