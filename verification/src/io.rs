//! Errors and positions shared by the event record grammars.
use vstd::prelude::*;

verus! {

/// A range `start..end` of byte positions in a record.
#[derive(Debug, Copy, Clone, PartialEq, Eq, Structural)]
pub struct Span {
    pub start: usize,
    pub end: usize,
}

/// The part of a record that could not be read.
#[derive(Debug, Copy, Clone, PartialEq, Eq, Structural)]
pub enum Entry {
    StartOfRecord,
    Start,
    EntriesBeforeWeight,
    NumberOfWeights,
    EventWeight,
    CentralWeight,
    EnergyUnit,
    Barcode,
    ParticleId,
    Px,
    Py,
    Pz,
    Energy,
    Mass,
    ParticleStatus,
    LineBreak,
    Nup,
    Idrup,
    Xwgtup,
    Idup,
    Istup,
    EntriesBeforeMomentum,
    EventWeights,
    WeightNameLine,
    NumberOfWeightNames,
    WeightName,
}

/// The human-readable name of an entry.
pub open spec fn spec_description(e: Entry) -> Seq<char> {
    match e {
        Entry::StartOfRecord => "start of record"@,
        Entry::Start => "start"@,
        Entry::EntriesBeforeWeight => "entries before weight"@,
        Entry::NumberOfWeights => "number of weights entry"@,
        Entry::EventWeight => "event weight entry"@,
        Entry::CentralWeight => "central weight entry"@,
        Entry::EnergyUnit => "energy unit entry"@,
        Entry::Barcode => "barcode entry"@,
        Entry::ParticleId => "particle id entry"@,
        Entry::Px => "px entry"@,
        Entry::Py => "py entry"@,
        Entry::Pz => "pz entry"@,
        Entry::Energy => "energy entry"@,
        Entry::Mass => "mass entry"@,
        Entry::ParticleStatus => "particle status entry"@,
        Entry::LineBreak => "line break"@,
        Entry::Nup => "NUP entry"@,
        Entry::Idrup => "IDRUP entry"@,
        Entry::Xwgtup => "XWGTUP entry"@,
        Entry::Idup => "IDUP entry"@,
        Entry::Istup => "ISTUP entry"@,
        Entry::EntriesBeforeMomentum => "entries before particle momentum"@,
        Entry::EventWeights => "event weight entries"@,
        Entry::WeightNameLine => "weight name entry (line starting with 'N')"@,
        Entry::NumberOfWeightNames => "number of weight names entry"@,
        Entry::WeightName => "weight name entry"@,
    }
}

impl Entry {
    /// Human-readable name of the entry.
    pub fn description(&self) -> (r: &'static str)
        ensures
            r@ == spec_description(*self),
    {
        match self {
            Entry::StartOfRecord => "start of record",
            Entry::Start => "start",
            Entry::EntriesBeforeWeight => "entries before weight",
            Entry::NumberOfWeights => "number of weights entry",
            Entry::EventWeight => "event weight entry",
            Entry::CentralWeight => "central weight entry",
            Entry::EnergyUnit => "energy unit entry",
            Entry::Barcode => "barcode entry",
            Entry::ParticleId => "particle id entry",
            Entry::Px => "px entry",
            Entry::Py => "py entry",
            Entry::Pz => "pz entry",
            Entry::Energy => "energy entry",
            Entry::Mass => "mass entry",
            Entry::ParticleStatus => "particle status entry",
            Entry::LineBreak => "line break",
            Entry::Nup => "NUP entry",
            Entry::Idrup => "IDRUP entry",
            Entry::Xwgtup => "XWGTUP entry",
            Entry::Idup => "IDUP entry",
            Entry::Istup => "ISTUP entry",
            Entry::EntriesBeforeMomentum => "entries before particle momentum",
            Entry::EventWeights => "event weight entries",
            Entry::WeightNameLine => "weight name entry (line starting with 'N')",
            Entry::NumberOfWeightNames => "number of weight names entry",
            Entry::WeightName => "weight name entry",
        }
    }
}

/// Failure to read an event record. Each variant carries the position in
/// the record from which the offending text is reported.
#[derive(Debug, Copy, Clone, PartialEq, Eq, Structural)]
pub enum ReadError {
    /// An entry could not be parsed.
    ParseEntry(Entry, usize),
    /// A line or record starts with something unexpected.
    UnrecognisedEntry(Entry, usize),
    /// An entry holds a value that is not allowed; `value` is where it stands.
    InvalidEntry { value: Span, entry: Entry, record: usize },
    /// Something required is missing.
    FindEntry(Entry, usize),
    /// A weight name is not among the names of a record: the index of the
    /// name and the position of the record's names.
    FindWeight(usize, usize),
}

/// What became of a chunk of input handed to a record splitter.
pub enum SplitStep {
    /// More input is needed.
    Continue,
    /// A whole record was read.
    Record(Vec<u8>),
    /// The input has ended and no record is left.
    End,
}

/// What became of a chunk of input handed to a header splitter.
pub enum HeaderStep {
    /// More input is needed.
    Continue,
    /// The header is complete.
    Done(Vec<u8>),
}

/// An event record as it stands in an event file.
pub enum EventRecord {
    /// A HepMC2 record.
    HepMC(String),
    /// A Les Houches event record.
    LHEF(String),
}

/// The byte sequences one after the other.
pub open spec fn concat(s: Seq<Seq<u8>>) -> Seq<u8>
    decreases s.len(),
{
    if s.len() == 0 {
        Seq::empty()
    } else {
        concat(s.drop_last()) + s.last()
    }
}

} // verus!
