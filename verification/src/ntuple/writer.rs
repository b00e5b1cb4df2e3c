//! Writer of events in ROOT ntuple format.
use vstd::prelude::*;

use crate::compression::Compression;

verus! {

/// The title given to the ntuple files that are written.
pub const WRITER_TITLE: &'static str = "cres ntuple";

/// Write events in ROOT ntuple format, through the writer `W` that the
/// ntuple library opened.
pub struct Writer<W>(pub W);

impl<W> Writer<W> {
    /// Construct a writer from the outcome of opening the output file with
    /// the title `WRITER_TITLE`. Compression does not apply to this format
    /// and is ignored.
    pub fn try_new(opened: Option<W>, compression: Option<Compression>) -> (r: Result<Self, String>)
        ensures
            match opened {
                Some(inner) => r matches Ok(w) && w.0 == inner,
                None => r matches Err(msg) && msg@ == "Failed to create writer"@,
            },
    {
        match opened {
            Some(inner) => Ok(Writer(inner)),
            None => Err("Failed to create writer".to_owned()),
        }
    }
}

} // verus!
