//! The run-length codec: a stream is the magic byte and then pairs of a byte
//! and the number of times it repeats, from 1 to `MAX_RUN_LENGTH`.
//!
//! The encoder is greedy: each run is as long as the input and the count
//! byte allow.

use crate::error::{Decoded, ErrorKind, FormatError};
use crate::rle_decoder::RleDecoder;
use crate::rle_encoder::RleEncoder;
use vstd::prelude::*;

verus! {

/// The first byte of every run-length stream.
pub const RLE_MAGIC: u8 = 0x52;

/// The longest run that the one-byte count can express.
pub const MAX_RUN_LENGTH: usize = 255;

/// Where the run that starts at `start` ends, given that it reaches `from`:
/// the first position at or after `from` that holds another byte, or lies
/// `MAX_RUN_LENGTH` beyond `start`, or is the end of the input.
pub open spec fn run_end(input: Seq<u8>, start: int, from: int) -> int
    decreases input.len() - from,
{
    if from < input.len() && from - start < MAX_RUN_LENGTH && input[from] == input[start] {
        run_end(input, start, from + 1)
    } else {
        from
    }
}

/// The length of the run that starts at `start`: the number of equal bytes
/// from there on, up to `MAX_RUN_LENGTH`.
pub open spec fn run_length(input: Seq<u8>, start: int) -> int {
    run_end(input, start, start + 1) - start
}

proof fn lemma_run_end(input: Seq<u8>, start: int, from: int)
    requires
        0 <= start < from <= input.len(),
        from - start <= MAX_RUN_LENGTH,
    ensures
        from <= run_end(input, start, from) <= input.len(),
        run_end(input, start, from) - start <= MAX_RUN_LENGTH,
        forall|i: int| from <= i < run_end(input, start, from) ==> input[i] == input[start],
        run_end(input, start, from) < input.len() && run_end(input, start, from) - start
            < MAX_RUN_LENGTH ==> input[run_end(input, start, from)] != input[start],
    decreases input.len() - from,
{
    if from < input.len() && from - start < MAX_RUN_LENGTH && input[from] == input[start] {
        lemma_run_end(input, start, from + 1);
    }
}

/// A run is between 1 and `MAX_RUN_LENGTH` bytes long, lies within the
/// input, holds one byte throughout, and ends only where it must: at the
/// end of the input, at full length, or before a different byte.
pub proof fn lemma_run_length_is_longest(input: Seq<u8>, start: int)
    requires
        0 <= start < input.len(),
    ensures
        1 <= run_length(input, start) <= MAX_RUN_LENGTH,
        start + run_length(input, start) <= input.len(),
        forall|i: int|
            start <= i < start + run_length(input, start) ==> input[i] == input[start],
        start + run_length(input, start) < input.len() && run_length(input, start)
            < MAX_RUN_LENGTH ==> input[start + run_length(input, start)] != input[start],
{
    lemma_run_end(input, start, start + 1);
}

/// The pairs that the encoder emits for the input from `position` on.
pub open spec fn encode_runs(input: Seq<u8>, position: int) -> Seq<u8>
    decreases input.len() - position,
{
    if 0 <= position < input.len() {
        proof {
            lemma_run_length_is_longest(input, position);
        }
        seq![input[position], run_length(input, position) as u8] + encode_runs(
            input,
            position + run_length(input, position),
        )
    } else {
        Seq::empty()
    }
}

/// The compressed form of `input`: the magic byte, then the pairs of its
/// runs.
pub open spec fn rle_encoding(input: Seq<u8>) -> Seq<u8> {
    seq![RLE_MAGIC] + encode_runs(input, 0)
}

/// `count` times `byte`.
pub open spec fn repeated(byte: u8, count: int) -> Seq<u8> {
    Seq::new(count as nat, |i: int| byte)
}

/// Decoding the pairs of `stream` from `position` on, after `produced` has
/// been produced: pair by pair until the stream ends, which is success, or
/// ends inside a pair, a `TruncatedToken`, or a count is zero, a
/// `ZeroLengthRun`.
pub open spec fn decode_runs(stream: Seq<u8>, position: int, produced: Seq<u8>) -> Decoded
    decreases stream.len() - position,
{
    if position >= stream.len() {
        Decoded { bytes: produced, error: None }
    } else if position + 2 > stream.len() {
        Decoded {
            bytes: produced,
            error: Some(
                FormatError { kind: ErrorKind::TruncatedToken, position: position as usize },
            ),
        }
    } else if stream[position + 1] == 0 {
        Decoded {
            bytes: produced,
            error: Some(
                FormatError { kind: ErrorKind::ZeroLengthRun, position: position as usize },
            ),
        }
    } else {
        decode_runs(
            stream,
            position + 2,
            produced + repeated(stream[position], stream[position + 1] as int),
        )
    }
}

/// What a run-length stream decodes to. An empty stream decodes to nothing;
/// any other must start with the magic byte, and its pairs follow.
pub open spec fn rle_decoding(stream: Seq<u8>) -> Decoded {
    if stream.len() == 0 {
        Decoded { bytes: Seq::empty(), error: None }
    } else if stream[0] != RLE_MAGIC {
        Decoded {
            bytes: Seq::empty(),
            error: Some(FormatError { kind: ErrorKind::MagicByteMismatch, position: 0 }),
        }
    } else {
        decode_runs(stream, 1, Seq::empty())
    }
}

/// Compresses `input` and appends the run-length stream to `output`.
///
/// The stream starts with `RLE_MAGIC`, also for an empty input, and is a
/// function of the input alone: the same input always gives the same stream.
pub fn compress_rle(input: &[u8], output: &mut Vec<u8>)
    ensures
        final(output)@ == old(output)@ + rle_encoding(input@),
        final(output)@.len() > old(output)@.len(),
        final(output)@[old(output)@.len() as int] == RLE_MAGIC,
{
    let mut encoder = RleEncoder::start(output);
    encoder.feed(input, output);
    encoder.finish(output);
}

/// Decompresses the run-length stream `input` and appends the bytes to
/// `output`.
///
/// An empty stream is the stream of nothing. Otherwise the first byte must
/// be `RLE_MAGIC`, and pairs follow until the stream ends. On an error the
/// bytes of the pairs before the offending one have been appended.
pub fn decompress_rle(input: &[u8], output: &mut Vec<u8>) -> (outcome: Result<(), FormatError>)
    ensures
        final(output)@ == old(output)@ + rle_decoding(input@).bytes,
        outcome == rle_decoding(input@).outcome(),
{
    if input.len() == 0 {
        return Ok(());
    }
    let mut decoder = RleDecoder::new();
    match decoder.feed(input, output) {
        Err(error) => Err(error),
        Ok(()) => decoder.finish(),
    }
}

/// Compresses `input` into a new run-length stream.
///
/// The stream starts with `RLE_MAGIC`, also for an empty input, and is a
/// function of the input alone: the same input always gives the same stream.
pub fn compress(input: &[u8]) -> (stream: Vec<u8>)
    ensures
        stream@ == rle_encoding(input@),
        stream@.len() >= 1,
        stream@[0] == RLE_MAGIC,
{
    let mut stream: Vec<u8> = Vec::new();
    compress_rle(input, &mut stream);
    stream
}

/// Decompresses the run-length stream `input`: the bytes it stands for, or
/// the error that makes it no run-length stream.
pub fn decompress(input: &[u8]) -> (bytes: Result<Vec<u8>, FormatError>)
    ensures
        match bytes {
            Ok(bytes) => rle_decoding(input@).into_result() == Ok::<Seq<u8>, FormatError>(bytes@),
            Err(error) => rle_decoding(input@).into_result() == Err::<Seq<u8>, FormatError>(
                error,
            ),
        },
{
    let mut bytes: Vec<u8> = Vec::new();
    match decompress_rle(input, &mut bytes) {
        Ok(()) => Ok(bytes),
        Err(error) => Err(error),
    }
}

} // verus!
