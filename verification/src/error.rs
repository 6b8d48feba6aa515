//! The failures a decoder can report.

use vstd::prelude::*;

verus! {

/// Why a compressed stream was rejected.
#[derive(Clone, Copy, Debug, PartialEq, Eq, Structural)]
pub enum ErrorKind {
    /// The first byte of the stream is not the codec's magic byte.
    MagicByteMismatch,
    /// The stream ends inside a token or a pair.
    TruncatedToken,
    /// A token starts with a tag byte that names no kind of token.
    InvalidToken,
    /// A match reaches back zero bytes, or further than the history holds.
    OffsetOutOfRange,
    /// A match copies zero bytes.
    ZeroLengthMatch,
    /// A run repeats its byte zero times.
    ZeroLengthRun,
}

/// A rejected stream: what is wrong with it, and where.
#[derive(Clone, Copy, Debug, PartialEq, Eq, Structural)]
pub struct FormatError {
    /// What is wrong.
    pub kind: ErrorKind,
    /// Index in the stream of the first byte of the offending token
    /// (zero for a wrong magic byte).
    pub position: usize,
}

impl FormatError {
    /// The kind of failure.
    pub fn kind(&self) -> (k: ErrorKind)
        ensures
            k == self.kind,
    {
        self.kind
    }

    /// Where in the stream the offending token starts.
    pub fn position(&self) -> (p: usize)
        ensures
            p == self.position,
    {
        self.position
    }
}

/// What decoding a stream comes to: the bytes produced, and the error that
/// stopped it, if one did. After an error `bytes` holds what the tokens before
/// the offending one stand for.
pub struct Decoded {
    /// The bytes produced, in order.
    pub bytes: Seq<u8>,
    /// The error that ended decoding, or `None` if the stream ended cleanly.
    pub error: Option<FormatError>,
}

impl Decoded {
    /// What the decoder returns: `Ok` for a clean end, else the error.
    pub open spec fn outcome(self) -> Result<(), FormatError> {
        match self.error {
            None => Ok(()),
            Some(error) => Err(error),
        }
    }

    /// What a decoder returns that may yet be given more of the stream: a
    /// token cut off by the end of what it has seen is no error so far.
    pub open spec fn outcome_so_far(self) -> Result<(), FormatError> {
        match self.error {
            Some(error) if error.kind != ErrorKind::TruncatedToken => Err(error),
            _ => Ok(()),
        }
    }

    /// What a decoder that hands the bytes back returns: the bytes for a
    /// clean end, else the error.
    pub open spec fn into_result(self) -> Result<Seq<u8>, FormatError> {
        match self.error {
            None => Ok(self.bytes),
            Some(error) => Err(error),
        }
    }
}

} // verus!
