//! Recognising compressed input by its first bytes.
use vstd::prelude::*;

verus! {

/// A compression format that input can be read from.
#[derive(Debug, Copy, Clone, PartialEq, Eq, Structural)]
pub enum Decompression {
    Lz4,
    Zstd,
    Gzip,
    Bzip2,
}

/// The compression format the start of the input shows by its magic bytes,
/// or `None` for input to be read as it is; at most four bytes are never
/// taken for compressed input.
pub open spec fn spec_detect_decompression(b: Seq<u8>) -> Option<Decompression> {
    if b.len() <= 4 {
        None
    } else if b[0] == 0x04u8 && b[1] == 0x22u8 && b[2] == 0x4du8 && b[3] == 0x18u8 {
        Some(Decompression::Lz4)
    } else if b[0] == 0x28u8 && b[1] == 0xb5u8 && b[2] == 0x2fu8 && b[3] == 0xfdu8 {
        Some(Decompression::Zstd)
    } else if b[0] == 0x1fu8 && b[1] == 0x8bu8 {
        Some(Decompression::Gzip)
    } else if b[0] == 66u8 && b[1] == 90u8 && b[2] == 104u8 {
        Some(Decompression::Bzip2)
    } else {
        None
    }
}

/// Decide how to read input that starts with the buffered bytes `b`.
pub fn detect_decompression(b: &[u8]) -> (r: Option<Decompression>)
    ensures
        r == spec_detect_decompression(b@),
{
    if b.len() <= 4 {
        None
    } else if b[0] == 0x04u8 && b[1] == 0x22u8 && b[2] == 0x4du8 && b[3] == 0x18u8 {
        Some(Decompression::Lz4)
    } else if b[0] == 0x28u8 && b[1] == 0xb5u8 && b[2] == 0x2fu8 && b[3] == 0xfdu8 {
        Some(Decompression::Zstd)
    } else if b[0] == 0x1fu8 && b[1] == 0x8bu8 {
        Some(Decompression::Gzip)
    } else if b[0] == 66u8 && b[1] == 90u8 && b[2] == 104u8 {
        Some(Decompression::Bzip2)
    } else {
        None
    }
}

} // verus!
