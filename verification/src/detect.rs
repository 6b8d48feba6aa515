//! Telling the two codecs apart by the magic byte that starts a stream.

use crate::lz::{lz_encoding, LZ_MAGIC};
use crate::rle::{rle_encoding, RLE_MAGIC};
use vstd::prelude::*;

verus! {

/// A compression algorithm of this library.
#[derive(Clone, Copy, Debug, PartialEq, Eq, Structural)]
pub enum Algorithm {
    /// Run-length encoding.
    Rle,
    /// LZ77 with a sliding window.
    Lz,
}

/// Why the algorithm of a stream could not be told.
#[derive(Clone, Copy, Debug, PartialEq, Eq, Structural)]
pub enum DetectError {
    /// The stream is empty.
    EmptyInput,
    /// The stream starts with this byte, which is no codec's magic byte.
    UnknownMagic(u8),
}

/// The algorithm that the first byte of `stream` names.
pub open spec fn detected(stream: Seq<u8>) -> Result<Algorithm, DetectError> {
    if stream.len() == 0 {
        Err(DetectError::EmptyInput)
    } else if stream[0] == RLE_MAGIC {
        Ok(Algorithm::Rle)
    } else if stream[0] == LZ_MAGIC {
        Ok(Algorithm::Lz)
    } else {
        Err(DetectError::UnknownMagic(stream[0]))
    }
}

/// Tells from the first byte of `stream` which algorithm compressed it.
/// Only that byte is looked at, so the start of a stream is enough.
pub fn detect_algorithm_from_stream(stream: &[u8]) -> (algorithm: Result<Algorithm, DetectError>)
    ensures
        algorithm == detected(stream@),
{
    if stream.len() == 0 {
        Err(DetectError::EmptyInput)
    } else if stream[0] == RLE_MAGIC {
        Ok(Algorithm::Rle)
    } else if stream[0] == LZ_MAGIC {
        Ok(Algorithm::Lz)
    } else {
        Err(DetectError::UnknownMagic(stream[0]))
    }
}

/// Each codec's streams are detected as its own, whatever was compressed.
pub proof fn lemma_detects_own_streams(input: Seq<u8>)
    ensures
        detected(lz_encoding(input)) == Ok::<Algorithm, DetectError>(Algorithm::Lz),
        detected(rle_encoding(input)) == Ok::<Algorithm, DetectError>(Algorithm::Rle),
{
}

} // verus!
