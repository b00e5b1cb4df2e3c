//! Option values of the resampling program: seed strategies and weight
//! signs.
use vstd::prelude::*;

use crate::text::{concat_str, str_eq};

verus! {

/// How cell seeds are chosen.
#[derive(Debug, Copy, Clone, PartialEq, Eq, Structural)]
pub enum Strategy {
    /// Any seed.
    Next,
    /// Seeds with the largest absolute weight first.
    LargestAbsWeightFirst,
    /// Seeds with the weight closest to zero first.
    SmallestAbsWeightFirst,
}

/// Which events can be cell seeds.
#[derive(Debug, Copy, Clone, PartialEq, Eq, Structural)]
pub enum WeightSign {
    All,
    Negative,
    Positive,
}

/// A seed strategy that is not known.
#[derive(Debug, Clone)]
pub struct UnknownStrategy(pub String);

impl UnknownStrategy {
    /// The error message.
    pub fn message(&self) -> (r: String)
        ensures
            r@ == "Unknown strategy: '"@ + self.0@ + "'"@,
    {
        let m = concat_str("Unknown strategy: '", self.0.as_str());
        concat_str(m.as_str(), "'")
    }
}

/// A weight sign that is not known.
#[derive(Debug, Clone)]
pub struct UnknownWeightSign(pub String);

impl UnknownWeightSign {
    /// The error message.
    pub fn message(&self) -> (r: String)
        ensures
            r@ == "Unknown weight sign: '"@ + self.0@ + "'"@,
    {
        let m = concat_str("Unknown weight sign: '", self.0.as_str());
        concat_str(m.as_str(), "'")
    }
}

/// The seed strategy a setting names.
pub open spec fn spec_strategy(s: Seq<char>) -> Option<Strategy> {
    if s == "Any"@ || s == "any"@ {
        Some(Strategy::Next)
    } else if s == "LargestAbsWeightFirst"@ || s == "largest_abs_weight_first"@ || s
        == "MostNegative"@ || s == "most_negative"@ {
        Some(Strategy::LargestAbsWeightFirst)
    } else if s == "SmallestAbsWeightFirst"@ || s == "smallest_abs_weight_first"@ || s
        == "LeastNegative"@ || s == "least_negative"@ {
        Some(Strategy::SmallestAbsWeightFirst)
    } else {
        None
    }
}

/// The weight sign a setting names.
pub open spec fn spec_weight_sign(s: Seq<char>) -> Option<WeightSign> {
    if s == "All"@ || s == "all"@ {
        Some(WeightSign::All)
    } else if s == "Negative"@ || s == "negative"@ {
        Some(WeightSign::Negative)
    } else if s == "Positive"@ || s == "positive"@ {
        Some(WeightSign::Positive)
    } else {
        None
    }
}

/// Read a seed strategy.
pub fn parse_strategy(s: &str) -> (r: Result<Strategy, UnknownStrategy>)
    ensures
        match spec_strategy(s@) {
            Some(st) => r == Ok::<Strategy, UnknownStrategy>(st),
            None => r matches Err(e) && e.0@ == s@,
        },
{
    if str_eq(s, "Any") || str_eq(s, "any") {
        Ok(Strategy::Next)
    } else if str_eq(s, "LargestAbsWeightFirst") || str_eq(s, "largest_abs_weight_first")
        || str_eq(s, "MostNegative") || str_eq(s, "most_negative") {
        Ok(Strategy::LargestAbsWeightFirst)
    } else if str_eq(s, "SmallestAbsWeightFirst") || str_eq(s, "smallest_abs_weight_first")
        || str_eq(s, "LeastNegative") || str_eq(s, "least_negative") {
        Ok(Strategy::SmallestAbsWeightFirst)
    } else {
        Err(UnknownStrategy(s.to_owned()))
    }
}

/// Read a weight sign.
pub fn parse_weight_sign(s: &str) -> (r: Result<WeightSign, UnknownWeightSign>)
    ensures
        match spec_weight_sign(s@) {
            Some(w) => r == Ok::<WeightSign, UnknownWeightSign>(w),
            None => r matches Err(e) && e.0@ == s@,
        },
{
    if str_eq(s, "All") || str_eq(s, "all") {
        Ok(WeightSign::All)
    } else if str_eq(s, "Negative") || str_eq(s, "negative") {
        Ok(WeightSign::Negative)
    } else if str_eq(s, "Positive") || str_eq(s, "positive") {
        Ok(WeightSign::Positive)
    } else {
        Err(UnknownWeightSign(s.to_owned()))
    }
}

} // verus!
