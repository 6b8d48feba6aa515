//! What holds of the LZ77 codec as a whole: decoding undoes encoding, and
//! every match the encoder emits is one the decoder accepts.

use crate::error::{Decoded, ErrorKind};
use crate::lz::{
    apply_token, best_match_at, decode_tokens, lemma_best_match_at_fits, lookahead_at,
    lz_decoding, lz_encoding, next_token, replay, tokenize,
};
use crate::matcher::{lemma_match_length_is_longest, MIN_MATCH_LENGTH};
use crate::token::{lemma_parse_written, serialize, Token};
use crate::window::{window_of, WINDOW_SIZE};
use vstd::prelude::*;

verus! {

/// Where the `length` bytes of `input` from `position` on each repeat the
/// byte `offset` places before them, a match of that offset and length,
/// applied to the input before `position`, produces exactly those bytes.
pub proof fn lemma_replay_repeats(input: Seq<u8>, position: int, offset: int, length: int)
    requires
        1 <= offset <= position,
        0 <= length,
        position + length <= input.len(),
        forall|i: int|
            position <= i < position + length ==> #[trigger] input[i] == input[i - offset],
    ensures
        replay(input.take(position), offset, length) == input.take(position + length),
    decreases length,
{
    if length > 0 {
        let history = input.take(position);
        assert(history.push(history[history.len() - offset]) =~= input.take(position + 1));
        lemma_replay_repeats(input, position + 1, offset, length - 1);
    }
}

/// Whether the decoder accepts `token` once `produced` bytes have been
/// produced: a match reaches back at least one byte and no further than the
/// window then holds, and covers at least `MIN_MATCH_LENGTH` bytes.
pub open spec fn is_valid_at(token: Token, produced: int) -> bool {
    match token {
        Token::Literal(_) => true,
        Token::Match { offset, length } => {
            &&& 1 <= offset
            &&& offset <= produced
            &&& offset <= WINDOW_SIZE
            &&& length >= MIN_MATCH_LENGTH
        },
    }
}

/// Whether each of `tokens` is valid at its place, the first of them coming
/// after `produced` bytes.
pub open spec fn all_valid(tokens: Seq<Token>, produced: int) -> bool
    decreases tokens.len(),
{
    tokens.len() == 0 || (is_valid_at(tokens[0], produced) && all_valid(
        tokens.skip(1),
        produced + tokens[0].decoded_len(),
    ))
}

/// One step of the encoder, seen from the decoder: the token emitted at
/// `position` is valid there, stands for at least one byte, and applied to
/// the input before `position` gives the input up to where the encoder goes
/// on.
pub proof fn lemma_next_token_applies(input: Seq<u8>, position: int)
    requires
        0 <= position < input.len(),
    ensures
        1 <= next_token(input, position).decoded_len(),
        position + next_token(input, position).decoded_len() <= input.len(),
        is_valid_at(next_token(input, position), position),
        apply_token(input.take(position), next_token(input, position)) == Ok::<
            Seq<u8>,
            ErrorKind,
        >(input.take(position + next_token(input, position).decoded_len())),
{
    let found = best_match_at(input, position);
    let history = window_of(input.take(position));
    let lookahead = lookahead_at(input, position);
    lemma_best_match_at_fits(input, position);
    if found.is_accepted() {
        let offset = found.offset as int;
        let length = found.length as int;
        lemma_match_length_is_longest(history, lookahead, offset);
        assert forall|i: int| position <= i < position + length implies #[trigger] input[i]
            == input[i - offset] by {
            let k = i - position;
            assert(lookahead[k] == input[i]);
        }
        lemma_replay_repeats(input, position, offset, length);
    } else {
        assert(input.take(position).push(input[position]) =~= input.take(position + 1));
    }
}

/// Every match that the encoder emits is valid where it stands: its offset
/// is at least 1 and at most the number of bytes then in the window, and its
/// length at least `MIN_MATCH_LENGTH`.
pub proof fn lemma_emitted_tokens_are_valid(input: Seq<u8>, position: int)
    requires
        0 <= position <= input.len(),
    ensures
        all_valid(tokenize(input, position), position),
    decreases input.len() - position,
{
    if position < input.len() {
        let token = next_token(input, position);
        let rest = tokenize(input, position + token.decoded_len());
        lemma_next_token_applies(input, position);
        lemma_emitted_tokens_are_valid(input, position + token.decoded_len());
        assert((seq![token] + rest).skip(1) =~= rest);
    }
}

/// Decoding what the encoder emits from `position` on, after the input
/// before `position` has been produced, produces the whole input.
proof fn lemma_decode_encoded(input: Seq<u8>, position: int, stream: Seq<u8>, at: int)
    requires
        0 <= position <= input.len(),
        0 <= at <= stream.len(),
        stream.skip(at) == serialize(tokenize(input, position)),
    ensures
        decode_tokens(stream, at, input.take(position)) == (Decoded { bytes: input, error: None }),
    decreases input.len() - position,
{
    if position < input.len() {
        let token = next_token(input, position);
        let rest = tokenize(input, position + token.decoded_len());
        lemma_next_token_applies(input, position);
        assert((seq![token] + rest).skip(1) =~= rest);
        assert(stream.skip(at).len() == token.encoded_len() + serialize(rest).len());
        assert(stream.subrange(at, at + token.encoded_len()) =~= token.bytes()) by {
            assert forall|i: int| 0 <= i < token.encoded_len() implies stream[at + i]
                == token.bytes()[i] by {
                assert(stream.skip(at)[i] == (token.bytes() + serialize(rest))[i]);
            }
        }
        lemma_parse_written(stream, at, token);
        assert(stream.skip(at + token.encoded_len()) =~= serialize(rest)) by {
            assert forall|i: int| 0 <= i < serialize(rest).len() implies stream[at
                + token.encoded_len() + i] == serialize(rest)[i] by {
                assert(stream.skip(at)[token.encoded_len() + i] == (token.bytes() + serialize(
                    rest,
                ))[token.encoded_len() + i]);
            }
        }
        lemma_decode_encoded(
            input,
            position + token.decoded_len(),
            stream,
            at + token.encoded_len(),
        );
    } else {
        assert(stream.skip(at).len() == 0);
        assert(input.take(position) =~= input);
    }
}

/// Decompression undoes compression: the stream that any input compresses
/// to decodes without error to that input.
pub proof fn lemma_round_trip(input: Seq<u8>)
    ensures
        lz_decoding(lz_encoding(input)) == (Decoded { bytes: input, error: None }),
{
    let stream = lz_encoding(input);
    assert(stream.skip(1) =~= serialize(tokenize(input, 0)));
    assert(input.take(0) =~= Seq::<u8>::empty());
    lemma_decode_encoded(input, 0, stream, 1);
}

} // verus!
