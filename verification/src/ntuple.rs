//! ROOT ntuple files: readers and writers around the handles that the
//! ntuple library opens.
pub mod reader;
pub mod writer;
