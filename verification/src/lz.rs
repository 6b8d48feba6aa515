//! The LZ77 codec: a stream is the magic byte and then tokens, each a literal
//! byte or a match that repeats bytes from the history window.
//!
//! The encoder is greedy. At each position it asks the match finder for the
//! best match of the upcoming bytes against the window; an accepted match
//! becomes a match token, anything less a literal of the next byte. The
//! decoder applies token after token, keeping the same window.

use crate::error::{Decoded, ErrorKind, FormatError};
use crate::lz_decoder::LzDecoder;
use crate::lz_encoder::LzEncoder;
use crate::matcher::{
    best_match, best_offset, lemma_best_offset_is_longest_and_nearest,
    lemma_match_length_is_longest, match_length, match_limit, Match, MAX_MATCH_LENGTH,
};
use crate::token::{parse_token, serialize, Token};
use crate::window::window_of;
use vstd::prelude::*;

verus! {

/// The first byte of every LZ77 stream.
pub const LZ_MAGIC: u8 = 0x4C;

/// The bytes the encoder looks at when it stands at `position`: the next
/// `MAX_MATCH_LENGTH` bytes of the input, or all that are left.
pub open spec fn lookahead_at(input: Seq<u8>, position: int) -> Seq<u8> {
    if input.len() - position > MAX_MATCH_LENGTH {
        input.subrange(position, position + MAX_MATCH_LENGTH)
    } else {
        input.subrange(position, input.len() as int)
    }
}

/// The best match for what follows `position`, against the window of what
/// precedes it.
pub open spec fn best_match_at(input: Seq<u8>, position: int) -> Match {
    best_match(window_of(input.take(position)), lookahead_at(input, position))
}

/// The token that the encoder emits at `position`: a match token for the
/// best match there if that is accepted, else a literal of the byte there.
pub open spec fn next_token(input: Seq<u8>, position: int) -> Token {
    let found = best_match_at(input, position);
    if found.is_accepted() {
        Token::Match { offset: found.offset as u8, length: found.length as u8 }
    } else {
        Token::Literal(input[position])
    }
}

/// The best match at a position of the input lies within the window behind
/// it and within the input ahead of it, and is described by the match
/// finder's measures.
pub proof fn lemma_best_match_at_fits(input: Seq<u8>, position: int)
    requires
        0 <= position <= input.len(),
    ensures
        best_match_at(input, position).offset <= window_of(input.take(position)).len(),
        window_of(input.take(position)).len() <= position,
        best_match_at(input, position).length <= match_limit(lookahead_at(input, position)),
        match_limit(lookahead_at(input, position)) <= input.len() - position,
        best_match_at(input, position).length <= MAX_MATCH_LENGTH,
        best_match_at(input, position).offset == best_offset(
            window_of(input.take(position)),
            lookahead_at(input, position),
            window_of(input.take(position)).len() as int,
        ),
        best_match_at(input, position).offset >= 1 ==> best_match_at(input, position).length
            == match_length(
            window_of(input.take(position)),
            lookahead_at(input, position),
            best_match_at(input, position).offset as int,
        ),
        best_match_at(input, position).offset == 0 ==> best_match_at(input, position).length == 0,
{
    let history = window_of(input.take(position));
    let lookahead = lookahead_at(input, position);
    if history.len() >= 1 {
        lemma_best_offset_is_longest_and_nearest(history, lookahead, history.len() as int);
    }
    lemma_match_length_is_longest(
        history,
        lookahead,
        best_offset(history, lookahead, history.len() as int),
    );
}

/// The token emitted at a position of the input stands for at least one
/// byte and for no more than are left.
pub proof fn lemma_next_token_fits(input: Seq<u8>, position: int)
    requires
        0 <= position < input.len(),
    ensures
        1 <= next_token(input, position).decoded_len(),
        position + next_token(input, position).decoded_len() <= input.len(),
        best_match_at(input, position).is_accepted() ==> next_token(input, position).decoded_len()
            == best_match_at(input, position).length,
{
    lemma_best_match_at_fits(input, position);
}

/// The tokens that the encoder emits for the input from `position` on: the
/// token at `position`, then the tokens from where that one ends.
pub open spec fn tokenize(input: Seq<u8>, position: int) -> Seq<Token>
    decreases input.len() - position,
{
    if 0 <= position < input.len() {
        proof {
            lemma_next_token_fits(input, position);
        }
        seq![next_token(input, position)] + tokenize(
            input,
            position + next_token(input, position).decoded_len(),
        )
    } else {
        Seq::empty()
    }
}

/// The compressed form of `input`: the magic byte, then the tokens of the
/// whole input.
pub open spec fn lz_encoding(input: Seq<u8>) -> Seq<u8> {
    seq![LZ_MAGIC] + serialize(tokenize(input, 0))
}

/// `history` extended by a match: `length` times, the byte that stands
/// `offset` places before the end is appended. Each appended byte is part of
/// the history for the next, so a match longer than its offset repeats what
/// it has itself produced.
pub open spec fn replay(history: Seq<u8>, offset: int, length: int) -> Seq<u8>
    decreases length,
{
    if length <= 0 {
        history
    } else {
        replay(history.push(history[history.len() - offset]), offset, length - 1)
    }
}

/// `history` extended by what `token` stands for, or why the token cannot
/// be applied: a match with offset zero or with an offset beyond the window
/// is an `OffsetOutOfRange`, one with length zero a `ZeroLengthMatch`. A
/// zero offset or length is reported before an offset beyond the window.
pub open spec fn apply_token(history: Seq<u8>, token: Token) -> Result<Seq<u8>, ErrorKind> {
    match token {
        Token::Literal(byte) => Ok(history.push(byte)),
        Token::Match { offset, length } => {
            if offset == 0 {
                Err(ErrorKind::OffsetOutOfRange)
            } else if length == 0 {
                Err(ErrorKind::ZeroLengthMatch)
            } else if offset > window_of(history).len() {
                Err(ErrorKind::OffsetOutOfRange)
            } else {
                Ok(replay(history, offset as int, length as int))
            }
        },
    }
}

/// Decoding the tokens of `stream` from `position` on, after `history` has
/// been produced: token by token until the stream ends, which is success, or
/// a token cannot be read or applied.
pub open spec fn decode_tokens(stream: Seq<u8>, position: int, history: Seq<u8>) -> Decoded
    decreases stream.len() - position,
{
    match parse_token(stream, position) {
        Err(error) => Decoded { bytes: history, error: Some(error) },
        Ok(None) => Decoded { bytes: history, error: None },
        Ok(Some(token)) => match apply_token(history, token) {
            Err(kind) => Decoded {
                bytes: history,
                error: Some(FormatError { kind, position: position as usize }),
            },
            Ok(longer) => decode_tokens(stream, position + token.encoded_len(), longer),
        },
    }
}

/// What an LZ77 stream decodes to. An empty stream decodes to nothing; any
/// other must start with the magic byte, and its tokens follow.
pub open spec fn lz_decoding(stream: Seq<u8>) -> Decoded {
    if stream.len() == 0 {
        Decoded { bytes: Seq::empty(), error: None }
    } else if stream[0] != LZ_MAGIC {
        Decoded {
            bytes: Seq::empty(),
            error: Some(FormatError { kind: ErrorKind::MagicByteMismatch, position: 0 }),
        }
    } else {
        decode_tokens(stream, 1, Seq::empty())
    }
}

/// Compresses `input` and appends the LZ77 stream to `output`.
///
/// The stream starts with `LZ_MAGIC`, also for an empty input, and is a
/// function of the input alone: the same input always gives the same stream.
pub fn compress_lz(input: &[u8], output: &mut Vec<u8>)
    ensures
        final(output)@ == old(output)@ + lz_encoding(input@),
        final(output)@.len() > old(output)@.len(),
        final(output)@[old(output)@.len() as int] == LZ_MAGIC,
{
    let mut encoder = LzEncoder::start(output);
    encoder.feed(input, output);
    encoder.finish(output);
}

/// Decompresses the LZ77 stream `input` and appends the bytes to `output`.
///
/// An empty stream is the stream of nothing. Otherwise the first byte must
/// be `LZ_MAGIC`, and tokens follow until the stream ends. On an error the
/// bytes of the tokens before the offending one have been appended.
pub fn decompress_lz(input: &[u8], output: &mut Vec<u8>) -> (outcome: Result<(), FormatError>)
    ensures
        final(output)@ == old(output)@ + lz_decoding(input@).bytes,
        outcome == lz_decoding(input@).outcome(),
{
    if input.len() == 0 {
        return Ok(());
    }
    let mut decoder = LzDecoder::new();
    match decoder.feed(input, output) {
        Err(error) => Err(error),
        Ok(()) => decoder.finish(),
    }
}

/// Compresses `input` into a new LZ77 stream.
///
/// The stream starts with `LZ_MAGIC`, also for an empty input, and is a
/// function of the input alone: the same input always gives the same stream.
pub fn compress(input: &[u8]) -> (stream: Vec<u8>)
    ensures
        stream@ == lz_encoding(input@),
        stream@.len() >= 1,
        stream@[0] == LZ_MAGIC,
{
    let mut stream: Vec<u8> = Vec::new();
    compress_lz(input, &mut stream);
    stream
}

/// Decompresses the LZ77 stream `input`: the bytes it stands for, or the
/// error that makes it no LZ77 stream.
pub fn decompress(input: &[u8]) -> (bytes: Result<Vec<u8>, FormatError>)
    ensures
        match bytes {
            Ok(bytes) => lz_decoding(input@).into_result() == Ok::<Seq<u8>, FormatError>(bytes@),
            Err(error) => lz_decoding(input@).into_result() == Err::<Seq<u8>, FormatError>(error),
        },
{
    let mut bytes: Vec<u8> = Vec::new();
    match decompress_lz(input, &mut bytes) {
        Ok(()) => Ok(bytes),
        Err(error) => Err(error),
    }
}

} // verus!
