//! The LZ77 encoder as a state machine: it is fed the input piece by piece
//! and hands out the tokens as soon as more input cannot change them.
//!
//! A token is settled once the lookahead at its position is full: the match
//! finder then sees the same bytes whatever follows. The encoder keeps the
//! bytes whose tokens are not settled until more input or the end comes.

use crate::buffer::append_from;
use crate::lz::{
    lemma_next_token_fits, lookahead_at, lz_encoding, next_token, tokenize, LZ_MAGIC,
};
use crate::matcher::{find_match, MAX_MATCH_LENGTH};
use crate::token::{serialize, Token};
use crate::window::{lemma_window_slides, window_of, Window};
use vstd::prelude::*;
use vstd::slice::slice_subrange;

verus! {

/// Whether the token at `position` is settled: at least `MAX_MATCH_LENGTH`
/// bytes of input follow, so the lookahead is full.
pub open spec fn is_settled(input: Seq<u8>, position: int) -> bool {
    0 <= position && input.len() - position >= MAX_MATCH_LENGTH
}

/// The tokens from `position` on that are settled, up to the first that is
/// not.
pub open spec fn settled_tokens(input: Seq<u8>, position: int) -> Seq<Token>
    decreases input.len() - position,
{
    if is_settled(input, position) {
        proof {
            lemma_next_token_fits(input, position);
        }
        seq![next_token(input, position)] + settled_tokens(
            input,
            position + next_token(input, position).decoded_len(),
        )
    } else {
        Seq::empty()
    }
}

/// Where the settled tokens from `position` on end: the position of the
/// first token that is not settled.
pub open spec fn settled_end(input: Seq<u8>, position: int) -> int
    decreases input.len() - position,
{
    if is_settled(input, position) {
        proof {
            lemma_next_token_fits(input, position);
        }
        settled_end(input, position + next_token(input, position).decoded_len())
    } else {
        position
    }
}

/// The part of the compressed form of `input` that is settled: the magic
/// byte, then the settled tokens.
pub open spec fn lz_settled(input: Seq<u8>) -> Seq<u8> {
    seq![LZ_MAGIC] + serialize(settled_tokens(input, 0))
}

/// The wire form of two sequences of tokens, one after the other, is the
/// wire form of the first and then that of the second.
pub proof fn lemma_serialize_concat(first: Seq<Token>, second: Seq<Token>)
    ensures
        serialize(first + second) == serialize(first) + serialize(second),
    decreases first.len(),
{
    if first.len() > 0 {
        lemma_serialize_concat(first.skip(1), second);
        assert((first + second).skip(1) =~= first.skip(1) + second);
    }
}

/// A settled token stays as it is when the input grows.
pub proof fn lemma_settled_token_is_final(input: Seq<u8>, longer: Seq<u8>, position: int)
    requires
        input.len() <= longer.len(),
        longer.take(input.len() as int) == input,
        is_settled(input, position),
    ensures
        is_settled(longer, position),
        next_token(longer, position) == next_token(input, position),
{
    assert forall|i: int| 0 <= i < input.len() implies #[trigger] longer[i] == input[i] by {}
    assert(longer.take(position) =~= input.take(position));
    assert(lookahead_at(longer, position) =~= lookahead_at(input, position));
}

/// The settled tokens of an input are the first settled tokens of any
/// longer input, which go on from where those end.
pub proof fn lemma_settled_tokens_grow(input: Seq<u8>, longer: Seq<u8>, position: int)
    requires
        input.len() <= longer.len(),
        longer.take(input.len() as int) == input,
        0 <= position <= input.len(),
    ensures
        position <= settled_end(input, position) <= input.len(),
        settled_tokens(longer, position) == settled_tokens(input, position) + settled_tokens(
            longer,
            settled_end(input, position),
        ),
        settled_end(longer, position) == settled_end(longer, settled_end(input, position)),
    decreases input.len() - position,
{
    if is_settled(input, position) {
        lemma_next_token_fits(input, position);
        lemma_settled_token_is_final(input, longer, position);
        lemma_settled_tokens_grow(
            input,
            longer,
            position + next_token(input, position).decoded_len(),
        );
    }
}

/// The tokens of an input are its settled tokens and then the tokens from
/// where those end.
pub proof fn lemma_tokens_after_settled(input: Seq<u8>, position: int)
    requires
        0 <= position <= input.len(),
    ensures
        position <= settled_end(input, position) <= input.len(),
        tokenize(input, position) == settled_tokens(input, position) + tokenize(
            input,
            settled_end(input, position),
        ),
    decreases input.len() - position,
{
    if is_settled(input, position) {
        lemma_next_token_fits(input, position);
        lemma_tokens_after_settled(input, position + next_token(input, position).decoded_len());
    }
}

/// The tokens that `encode_piece` emits from `position` on: all of them if
/// the input ends with the piece, else those that are settled.
spec fn tokens_ahead(input: Seq<u8>, position: int, last: bool) -> Seq<Token> {
    if last {
        tokenize(input, position)
    } else {
        settled_tokens(input, position)
    }
}

/// Where `encode_piece` stops when it starts at `position`.
spec fn end_ahead(input: Seq<u8>, position: int, last: bool) -> int {
    if last {
        input.len() as int
    } else {
        settled_end(input, position)
    }
}

/// Chooses the token for index `at` of `piece`, the part of `input` from
/// `base` on.
fn choose_token(
    window: &Window,
    piece: &[u8],
    at: usize,
    Ghost(input): Ghost<Seq<u8>>,
    Ghost(base): Ghost<int>,
) -> (token: Token)
    requires
        0 <= base,
        base + piece@.len() == input.len(),
        piece@ == input.skip(base),
        at < piece@.len(),
        window@ == window_of(input.take(base + at)),
    ensures
        token == next_token(input, base + at),
{
    let ahead = if piece.len() - at > MAX_MATCH_LENGTH {
        at + MAX_MATCH_LENGTH
    } else {
        piece.len()
    };
    let lookahead = slice_subrange(piece, at, ahead);
    assert(lookahead@ =~= lookahead_at(input, base + at));
    let found = find_match(window, lookahead);
    if found.is_accepted() {
        Token::Match { offset: found.offset as u8, length: found.length as u8 }
    } else {
        Token::Literal(piece[at])
    }
}

/// Shifts the `count` bytes of `piece` from index `at` on into the window.
fn shift_into_window(
    window: &mut Window,
    piece: &[u8],
    at: usize,
    count: usize,
    Ghost(input): Ghost<Seq<u8>>,
    Ghost(base): Ghost<int>,
)
    requires
        0 <= base,
        base + piece@.len() == input.len(),
        piece@ == input.skip(base),
        at + count <= piece@.len(),
        old(window)@ == window_of(input.take(base + at)),
    ensures
        final(window)@ == window_of(input.take(base + at + count)),
{
    let total = piece.len();
    let mut shifted: usize = 0;
    while shifted < count
        invariant
            shifted <= count,
            0 <= base,
            at + count <= total,
            piece@.len() == total,
            base + total == input.len(),
            piece@ == input.skip(base),
            window@ == window_of(input.take(base + at + shifted)),
        decreases count - shifted,
    {
        proof {
            let position = base + at + shifted;
            lemma_window_slides(input.take(position), input[position]);
        }
        window.push(piece[at + shifted]);
        shifted += 1;
    }
}

/// Encodes `piece`, the part of `input` from `base` on: all of it if `last`
/// says that the input ends with it, else as far as the tokens are settled.
/// Returns how much of the piece it has encoded.
fn encode_piece(
    window: &mut Window,
    piece: &[u8],
    last: bool,
    output: &mut Vec<u8>,
    Ghost(input): Ghost<Seq<u8>>,
    Ghost(base): Ghost<int>,
) -> (encoded: usize)
    requires
        0 <= base,
        base + piece@.len() == input.len(),
        piece@ == input.skip(base),
        old(window)@ == window_of(input.take(base)),
    ensures
        encoded <= piece@.len(),
        !last ==> piece@.len() - encoded < MAX_MATCH_LENGTH,
        base + encoded == end_ahead(input, base, last),
        final(window)@ == window_of(input.take(base + encoded)),
        final(output)@ == old(output)@ + serialize(tokens_ahead(input, base, last)),
{
    let total = piece.len();
    let mut at: usize = 0;
    while at < total && (last || total - at >= MAX_MATCH_LENGTH)
        invariant
            0 <= base,
            at <= total,
            piece@.len() == total,
            base + total == input.len(),
            piece@ == input.skip(base),
            window@ == window_of(input.take(base + at)),
            end_ahead(input, base + at, last) == end_ahead(input, base, last),
            output@ + serialize(tokens_ahead(input, base + at, last)) == old(output)@ + serialize(
                tokens_ahead(input, base, last),
            ),
        decreases total - at,
    {
        let token = choose_token(window, piece, at, Ghost(input), Ghost(base));
        let covered = token.decoded_len();
        proof {
            lemma_next_token_fits(input, base + at);
        }
        token.write(output);
        shift_into_window(window, piece, at, covered, Ghost(input), Ghost(base));
        at += covered;
        proof {
            let rest = tokens_ahead(input, base + at, last);
            assert((seq![token] + rest).skip(1) =~= rest);
        }
    }
    at
}

/// An LZ77 encoder that takes the input in pieces.
///
/// The pieces may be cut anywhere. Whatever the cuts, the bytes that `start`,
/// the calls of `feed` and `finish` append, one after the other, are the
/// compressed form of the whole input.
pub struct LzEncoder {
    window: Window,
    /// The bytes fed whose tokens are not settled.
    pending: Vec<u8>,
    fed: Ghost<Seq<u8>>,
}

impl LzEncoder {
    /// The input as far as it has been fed.
    pub closed spec fn input(&self) -> Seq<u8> {
        self.fed@
    }

    /// The number of bytes that the encoder holds back: those from the end
    /// of the settled tokens on.
    pub open spec fn spec_held(&self) -> usize {
        (self.input().len() - settled_end(self.input(), 0)) as usize
    }

    /// The number of bytes that the encoder holds back: those fed whose
    /// tokens are not settled, always fewer than `MAX_MATCH_LENGTH`.
    #[verifier::when_used_as_spec(spec_held)]
    pub fn held(&self) -> (count: usize)
        requires
            self.wf(),
        ensures
            count == self.spec_held(),
            count < MAX_MATCH_LENGTH,
    {
        self.pending.len()
    }

    /// Whether the encoder is in working order, as every encoder is.
    pub closed spec fn wf(&self) -> bool {
        &&& self.pending@.len() < MAX_MATCH_LENGTH
        &&& self.pending@.len() <= self.fed@.len()
        &&& self.pending@ == self.fed@.skip(self.fed@.len() - self.pending@.len())
        &&& self.window@ == window_of(self.fed@.take(self.fed@.len() - self.pending@.len()))
        &&& self.fed@.len() - self.pending@.len() == settled_end(self.fed@, 0)
    }

    /// Starts a stream: appends the magic byte to `output` and returns the
    /// encoder for what follows.
    pub fn start(output: &mut Vec<u8>) -> (encoder: LzEncoder)
        ensures
            encoder.wf(),
            encoder.input() == Seq::<u8>::empty(),
            encoder.held() == 0,
            final(output)@ == old(output)@ + lz_settled(encoder.input()),
            final(output)@ == old(output)@.push(LZ_MAGIC),
    {
        output.push(LZ_MAGIC);
        let encoder = LzEncoder {
            window: Window::new(),
            pending: Vec::new(),
            fed: Ghost(Seq::empty()),
        };
        assert(encoder.pending@ =~= encoder.fed@.skip(0));
        encoder
    }

    /// Takes the next piece of the input and appends to `output` the tokens
    /// that it settles: what has been written after the call is the settled
    /// part of the compressed form of all that has been fed.
    pub fn feed(&mut self, chunk: &[u8], output: &mut Vec<u8>)
        requires
            old(self).wf(),
        ensures
            final(self).wf(),
            final(self).input() == old(self).input() + chunk@,
            lz_settled(old(self).input()).is_prefix_of(lz_settled(final(self).input())),
            final(output)@ == old(output)@ + lz_settled(final(self).input()).skip(
                lz_settled(old(self).input()).len() as int,
            ),
    {
        let ghost fed = self.fed@;
        let ghost input = self.fed@ + chunk@;
        let ghost base = self.fed@.len() - self.pending@.len();
        proof {
            assert(input.take(fed.len() as int) =~= fed);
            assert(input.take(base) =~= fed.take(base));
            lemma_settled_tokens_grow(fed, input, 0);
            lemma_serialize_concat(settled_tokens(fed, 0), settled_tokens(input, base));
        }
        let mut carry: Vec<u8> = Vec::new();
        if self.pending.len() == 0 {
            assert(chunk@ =~= input.skip(base));
            let encoded = encode_piece(
                &mut self.window,
                chunk,
                false,
                output,
                Ghost(input),
                Ghost(base),
            );
            append_from(&mut carry, chunk, encoded);
            assert(carry@ =~= input.skip(base + encoded));
        } else {
            let mut work: Vec<u8> = Vec::new();
            append_from(&mut work, self.pending.as_slice(), 0);
            append_from(&mut work, chunk, 0);
            assert(work@ =~= input.skip(base));
            let encoded = encode_piece(
                &mut self.window,
                work.as_slice(),
                false,
                output,
                Ghost(input),
                Ghost(base),
            );
            append_from(&mut carry, work.as_slice(), encoded);
            assert(carry@ =~= input.skip(base + encoded));
        }
        self.pending = carry;
        self.fed = Ghost(input);
    }

    /// Ends the input: appends to `output` the tokens for the bytes that
    /// were held back, so that all that has been written is the compressed
    /// form of all that has been fed.
    pub fn finish(self, output: &mut Vec<u8>)
        requires
            self.wf(),
        ensures
            lz_settled(self.input()).is_prefix_of(lz_encoding(self.input())),
            final(output)@ == old(output)@ + lz_encoding(self.input()).skip(
                lz_settled(self.input()).len() as int,
            ),
    {
        let ghost input = self.fed@;
        let ghost base = self.fed@.len() - self.pending@.len();
        let mut window = self.window;
        proof {
            lemma_tokens_after_settled(input, 0);
            lemma_serialize_concat(settled_tokens(input, 0), tokenize(input, base));
        }
        encode_piece(
            &mut window,
            self.pending.as_slice(),
            true,
            output,
            Ghost(input),
            Ghost(base),
        );
    }
}

} // verus!
