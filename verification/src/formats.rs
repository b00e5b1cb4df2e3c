//! Event file formats.
use vstd::prelude::*;

verus! {

/// Supported event file formats
#[derive(Copy, Clone, Debug, Eq, PartialEq, Structural, Hash)]
pub enum FileFormat {
    /// HepMC2 format, also known as `IO_GenEvent`
    HepMC2,
    /// Les Houches Event Format
    Lhef,
    /// BlackHat ntuples
    BlackHatNtuple,
    /// XML format used by STRIPPER
    StripperXml,
}

impl Default for FileFormat {
    fn default() -> (r: Self)
        ensures
            r == FileFormat::HepMC2,
    {
        FileFormat::HepMC2
    }
}

} // verus!
