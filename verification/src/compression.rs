//! Output compression formats.
use vstd::prelude::*;

verus! {

/// Compression format
#[derive(Debug, Copy, Clone, PartialEq, Eq, Structural)]
pub enum Compression {
    /// The bzip2 format
    Bzip2,
    /// The gzip format with compression level as associated value
    Gzip(u8),
    /// The lz4 format with compression level as associated value
    Lz4(u8),
    /// The zstd format with compression level as associated value
    Zstd(u8),
}

} // verus!
