//! What holds of the run-length codec as a whole: decoding undoes encoding.

use crate::error::Decoded;
use crate::rle::{
    decode_runs, encode_runs, lemma_run_length_is_longest, repeated, rle_decoding, rle_encoding,
    run_length,
};
use vstd::prelude::*;

verus! {

/// Decoding what the encoder emits from `position` on, after the input
/// before `position` has been produced, produces the whole input.
proof fn lemma_decode_encoded(input: Seq<u8>, position: int, stream: Seq<u8>, at: int)
    requires
        0 <= position <= input.len(),
        0 <= at <= stream.len(),
        stream.skip(at) == encode_runs(input, position),
    ensures
        decode_runs(stream, at, input.take(position)) == (Decoded { bytes: input, error: None }),
    decreases input.len() - position,
{
    if position < input.len() {
        let length = run_length(input, position);
        let rest = encode_runs(input, position + length);
        lemma_run_length_is_longest(input, position);
        let pair = seq![input[position], length as u8];
        assert(stream.skip(at).len() == 2 + rest.len());
        assert(stream[at] == input[position]) by {
            assert(stream.skip(at)[0] == (pair + rest)[0]);
        }
        assert(stream[at + 1] == length as u8) by {
            assert(stream.skip(at)[1] == (pair + rest)[1]);
        }
        assert(stream.skip(at + 2) =~= rest) by {
            assert forall|i: int| 0 <= i < rest.len() implies stream[at + 2 + i] == rest[i] by {
                assert(stream.skip(at)[2 + i] == (pair + rest)[2 + i]);
            }
        }
        assert(input.take(position) + repeated(input[position], length) =~= input.take(
            position + length,
        ));
        lemma_decode_encoded(input, position + length, stream, at + 2);
    } else {
        assert(stream.skip(at).len() == 0);
        assert(input.take(position) =~= input);
    }
}

/// Decompression undoes compression: the stream that any input compresses
/// to decodes without error to that input.
pub proof fn lemma_round_trip(input: Seq<u8>)
    ensures
        rle_decoding(rle_encoding(input)) == (Decoded { bytes: input, error: None }),
{
    let stream = rle_encoding(input);
    assert(stream.skip(1) =~= encode_runs(input, 0));
    assert(input.take(0) =~= Seq::<u8>::empty());
    lemma_decode_encoded(input, 0, stream, 1);
}

} // verus!
