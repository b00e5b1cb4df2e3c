//! The W boson reconstruction option.
use vstd::prelude::*;

use crate::cluster::WReconstruction;
use crate::text::{concat_str, str_eq};

verus! {

/// The W reconstruction a setting names.
pub open spec fn spec_w_reconstruction(s: Seq<char>) -> Option<WReconstruction> {
    if s == "none"@ {
        Some(WReconstruction::NoReconstruction)
    } else if s == "by-mass"@ || s == "m"@ {
        Some(WReconstruction::ByMass)
    } else if s == "by-transverse-mass"@ || s == "mT"@ {
        Some(WReconstruction::ByTransverseMass)
    } else {
        None
    }
}

/// Read the `--reconstruct-W` setting.
pub fn parse_w_reconstruction(s: &str) -> (r: Result<WReconstruction, String>)
    ensures
        match spec_w_reconstruction(s@) {
            Some(w) => r == Ok::<WReconstruction, String>(w),
            None => r matches Err(msg) && msg@ == "Value '"@ + s@
                + "' not supported for --reconstruct-w"@,
        },
{
    if str_eq(s, "none") {
        Ok(WReconstruction::NoReconstruction)
    } else if str_eq(s, "by-mass") || str_eq(s, "m") {
        Ok(WReconstruction::ByMass)
    } else if str_eq(s, "by-transverse-mass") || str_eq(s, "mT") {
        Ok(WReconstruction::ByTransverseMass)
    } else {
        let m = concat_str("Value '", s);
        Err(concat_str(m.as_str(), "' not supported for --reconstruct-w"))
    }
}

} // verus!
