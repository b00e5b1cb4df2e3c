//! Reader for a single ROOT ntuple event file.
use vstd::prelude::*;

use crate::text::concat_str;

verus! {

/// Reader for a single ROOT ntuple event file, around the reader `R` that
/// the ntuple library opened for it.
pub struct Reader<R>(pub R);

/// The message for a file that could not be opened as ntuple file; `file`
/// is the file name as `{:?}` shows it.
pub fn create_error(file: &str) -> (r: String)
    ensures
        r@ == "Failed to create ntuple reader for "@ + file@,
{
    concat_str("Failed to create ntuple reader for ", file)
}

impl<R> Reader<R> {
    /// Construct a reader for the ROOT ntuple file `file` (named as `{:?}`
    /// shows it) from the outcome of opening it: the library's reader, or
    /// nothing if it could not be opened.
    pub fn new(file: &str, opened: Option<R>) -> (r: Result<Self, String>)
        ensures
            match opened {
                Some(inner) => r matches Ok(rd) && rd.0 == inner,
                None => r matches Err(msg) && msg@ == "Failed to create ntuple reader for "@
                    + file@,
            },
    {
        match opened {
            Some(inner) => Ok(Reader(inner)),
            None => Err(create_error(file)),
        }
    }
}

} // verus!
