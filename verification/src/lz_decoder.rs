//! The LZ77 decoder as a state machine: it is fed the stream piece by piece
//! and hands out the bytes as the tokens become complete.

use crate::buffer::append_from;
use crate::error::{Decoded, ErrorKind, FormatError};
use crate::lz::{apply_token, decode_tokens, lz_decoding, replay, LZ_MAGIC};
use crate::token::{parse_token, Token};
use crate::window::{lemma_window_slides, window_of, Window};
use vstd::prelude::*;
use vstd::slice::slice_subrange;

verus! {

/// Reading a token in a piece of a stream is reading it in the stream, where
/// the piece starts at `base`: the same token, or the same error at the
/// position in the stream.
proof fn lemma_parse_in_piece(stream: Seq<u8>, base: int, piece: Seq<u8>, at: int)
    requires
        0 <= base,
        0 <= at,
        base + piece.len() == stream.len(),
        piece == stream.skip(base),
    ensures
        match parse_token(piece, at) {
            Ok(token) => parse_token(stream, base + at) == Ok::<Option<Token>, FormatError>(
                token,
            ),
            Err(error) => parse_token(stream, base + at) == Err::<Option<Token>, FormatError>(
                FormatError { kind: error.kind, position: (base + at) as usize },
            ),
        },
{
}

/// Tokens that decode cleanly decode the same way with more of the stream
/// behind them: where the first `cut` bytes of `stream`, decoded from
/// `position` on after `history`, end cleanly with `produced`, decoding all
/// of `stream` from `position` comes to decoding it from `cut` after
/// `produced`.
pub proof fn lemma_decode_continues(
    stream: Seq<u8>,
    cut: int,
    position: int,
    history: Seq<u8>,
    produced: Seq<u8>,
)
    requires
        0 <= position <= cut <= stream.len(),
        decode_tokens(stream.take(cut), position, history) == (Decoded {
            bytes: produced,
            error: None,
        }),
    ensures
        decode_tokens(stream, position, history) == decode_tokens(stream, cut, produced),
    decreases cut - position,
{
    match parse_token(stream.take(cut), position) {
        Ok(Some(token)) => {
            match apply_token(history, token) {
                Ok(longer) => {
                    lemma_decode_continues(
                        stream,
                        cut,
                        position + token.encoded_len(),
                        longer,
                        produced,
                    );
                },
                Err(_) => {},
            }
        },
        _ => {},
    }
}

/// What the first `cut` bytes of `stream` decode to if they end cleanly
/// after `produced`, all of `stream` decodes to as its tokens from `cut` on
/// do after `produced`.
pub proof fn lemma_decoding_continues(stream: Seq<u8>, cut: int, produced: Seq<u8>)
    requires
        1 <= cut <= stream.len(),
        lz_decoding(stream.take(cut)) == (Decoded { bytes: produced, error: None }),
    ensures
        lz_decoding(stream) == decode_tokens(stream, cut, produced),
{
    lemma_decode_continues(stream, cut, 1, Seq::empty(), produced);
}

/// An error other than a token cut off by the end stays when the stream
/// grows: decoding the longer stream stops at the same place in the same
/// way.
pub proof fn lemma_decode_error_stays(
    stream: Seq<u8>,
    longer: Seq<u8>,
    position: int,
    history: Seq<u8>,
)
    requires
        stream.len() <= longer.len(),
        longer.take(stream.len() as int) == stream,
        0 <= position,
        decode_tokens(stream, position, history).error matches Some(error) && error.kind
            != ErrorKind::TruncatedToken,
    ensures
        decode_tokens(longer, position, history) == decode_tokens(stream, position, history),
    decreases stream.len() - position,
{
    assert forall|i: int| 0 <= i < stream.len() implies #[trigger] longer[i] == stream[i] by {}
    match parse_token(stream, position) {
        Ok(Some(token)) => {
            match apply_token(history, token) {
                Ok(further) => {
                    lemma_decode_error_stays(
                        stream,
                        longer,
                        position + token.encoded_len(),
                        further,
                    );
                },
                Err(_) => {},
            }
        },
        _ => {},
    }
}

/// An error in a stream, other than a token cut off by its end, stays when
/// the stream grows: the longer stream decodes to the same bytes and the
/// same error.
pub proof fn lemma_decoding_error_stays(stream: Seq<u8>, longer: Seq<u8>)
    requires
        stream.len() <= longer.len(),
        longer.take(stream.len() as int) == stream,
        lz_decoding(stream).error matches Some(error) && error.kind
            != ErrorKind::TruncatedToken,
    ensures
        lz_decoding(longer) == lz_decoding(stream),
{
    if stream[0] == LZ_MAGIC {
        lemma_decode_error_stays(stream, longer, 1, Seq::empty());
    }
}

/// One more token decoded: where the stream up to `cut` decodes cleanly to
/// `produced`, and the token at `cut` applies to that, the stream up to the
/// end of the token decodes cleanly to the result.
proof fn lemma_decoding_advances(stream: Seq<u8>, cut: int, produced: Seq<u8>, token: Token)
    requires
        1 <= cut <= stream.len(),
        lz_decoding(stream.take(cut)) == (Decoded { bytes: produced, error: None }),
        parse_token(stream, cut) == Ok::<Option<Token>, FormatError>(Some(token)),
        apply_token(produced, token) is Ok,
    ensures
        cut + token.encoded_len() <= stream.len(),
        lz_decoding(stream.take(cut + token.encoded_len())) == (Decoded {
            bytes: apply_token(produced, token)->Ok_0,
            error: None,
        }),
{
    let end = cut + token.encoded_len();
    let head = stream.take(end);
    assert(head.take(cut) =~= stream.take(cut));
    lemma_decoding_continues(head, cut, produced);
    let longer = apply_token(produced, token)->Ok_0;
    assert(decode_tokens(head, cut, produced) == decode_tokens(head, end, longer));
}

/// Applies `token` after `history` has been produced: appends what the
/// token stands for to `output` and to the window, or says why it cannot.
fn apply(
    token: Token,
    window: &mut Window,
    output: &mut Vec<u8>,
    Ghost(history): Ghost<Seq<u8>>,
) -> (outcome: Result<(), ErrorKind>)
    requires
        old(window)@ == window_of(history),
    ensures
        match apply_token(history, token) {
            Ok(longer) => {
                &&& outcome is Ok
                &&& final(window)@ == window_of(longer)
                &&& longer.len() >= history.len()
                &&& longer.take(history.len() as int) == history
                &&& final(output)@ == old(output)@ + longer.skip(history.len() as int)
            },
            Err(kind) => {
                &&& outcome == Err::<(), ErrorKind>(kind)
                &&& final(window)@ == old(window)@
                &&& final(output)@ == old(output)@
            },
        },
{
    match token {
        Token::Literal(byte) => {
            proof {
                lemma_window_slides(history, byte);
            }
            output.push(byte);
            window.push(byte);
            Ok(())
        },
        Token::Match { offset, length } => {
            if offset == 0 {
                return Err(ErrorKind::OffsetOutOfRange);
            }
            if length == 0 {
                return Err(ErrorKind::ZeroLengthMatch);
            }
            if offset as usize > window.len() {
                return Err(ErrorKind::OffsetOutOfRange);
            }
            let mut copied: u8 = 0;
            let ghost mut current = history;
            while copied < length
                invariant
                    copied <= length,
                    1 <= offset <= window@.len(),
                    window@ == window_of(current),
                    current.len() == history.len() + copied,
                    current.take(history.len() as int) == history,
                    output@ == old(output)@ + current.skip(history.len() as int),
                    replay(current, offset as int, length - copied) == replay(
                        history,
                        offset as int,
                        length as int,
                    ),
                decreases length - copied,
            {
                let byte = window.get(offset as usize).unwrap();
                proof {
                    lemma_window_slides(current, byte);
                    current = current.push(byte);
                }
                output.push(byte);
                window.push(byte);
                copied += 1;
            }
            Ok(())
        },
    }
}

/// Decodes the tokens of `piece`, the part of `stream` from `base` on, as
/// far as they are complete. Returns how much of the piece it has decoded
/// and what has then been produced; what is left of the piece is a token
/// that the end of the stream cuts off.
fn decode_piece(
    window: &mut Window,
    piece: &[u8],
    base: usize,
    output: &mut Vec<u8>,
    Ghost(stream): Ghost<Seq<u8>>,
    Ghost(history): Ghost<Seq<u8>>,
) -> (outcome: Result<(usize, Ghost<Seq<u8>>), FormatError>)
    requires
        1 <= base,
        base + piece@.len() == stream.len(),
        stream.len() <= usize::MAX,
        piece@ == stream.skip(base as int),
        old(window)@ == window_of(history),
        lz_decoding(stream.take(base as int)) == (Decoded { bytes: history, error: None }),
    ensures
        lz_decoding(stream).bytes.len() >= history.len(),
        lz_decoding(stream).bytes.take(history.len() as int) == history,
        final(output)@ == old(output)@ + lz_decoding(stream).bytes.skip(history.len() as int),
        match outcome {
            Ok((decoded, produced)) => {
                &&& decoded <= piece@.len()
                &&& piece@.len() - decoded <= 2
                &&& produced@ == lz_decoding(stream).bytes
                &&& final(window)@ == window_of(produced@)
                &&& lz_decoding(stream.take(base + decoded)) == (Decoded {
                    bytes: produced@,
                    error: None,
                })
                &&& lz_decoding(stream).error == if decoded == piece@.len() {
                    None
                } else {
                    Some(
                        FormatError {
                            kind: ErrorKind::TruncatedToken,
                            position: (base + decoded) as usize,
                        },
                    )
                }
            },
            Err(error) => {
                &&& lz_decoding(stream).error == Some(error)
                &&& error.kind != ErrorKind::TruncatedToken
            },
        },
{
    let total = piece.len();
    let mut at: usize = 0;
    let ghost mut produced = history;
    loop
        invariant
            1 <= base,
            at <= total,
            piece@.len() == total,
            base + total == stream.len(),
            stream.len() <= usize::MAX,
            piece@ == stream.skip(base as int),
            window@ == window_of(produced),
            produced.len() >= history.len(),
            produced.take(history.len() as int) == history,
            output@ == old(output)@ + produced.skip(history.len() as int),
            lz_decoding(stream.take(base + at)) == (Decoded { bytes: produced, error: None }),
        decreases total - at,
    {
        proof {
            lemma_parse_in_piece(stream, base as int, piece@, at as int);
            lemma_decoding_continues(stream, base + at, produced);
        }
        let token = match Token::read(piece, at) {
            Err(error) => {
                if error.kind() == ErrorKind::TruncatedToken {
                    return Ok((at, Ghost(produced)));
                }
                return Err(FormatError { kind: error.kind(), position: base + at });
            },
            Ok(None) => {
                return Ok((at, Ghost(produced)));
            },
            Ok(Some(token)) => token,
        };
        match apply(token, window, output, Ghost(produced)) {
            Err(kind) => {
                return Err(FormatError { kind, position: base + at });
            },
            Ok(()) => {
                proof {
                    let longer = apply_token(produced, token)->Ok_0;
                    lemma_decoding_advances(stream, base + at, produced, token);
                    assert(longer.take(history.len() as int) =~= history);
                    produced = longer;
                }
            },
        }
        at += token.encoded_len();
    }
}

/// An LZ77 decoder that takes the stream in pieces.
///
/// The pieces may be cut anywhere, also inside a token. After every piece
/// the decoder has handed out all bytes of the tokens that are complete;
/// `finish` tells whether the stream may end where it does. An error in the
/// stream stays: the decoder reports it for every further piece and at the
/// end, and hands out no more bytes.
pub struct LzDecoder {
    /// The error in the stream, once there is one.
    failed: Option<FormatError>,
    /// The number of bytes fed.
    fed: usize,
    window: Window,
    /// The start of a token that the end of the last piece cut off.
    carry: Vec<u8>,
    /// The number of bytes of the stream before `carry`.
    consumed: usize,
    stream: Ghost<Seq<u8>>,
    history: Ghost<Seq<u8>>,
}

impl LzDecoder {
    /// The stream as far as it has been fed.
    pub closed spec fn stream(&self) -> Seq<u8> {
        self.stream@
    }

    /// The number of bytes that the decoder holds back: those of a token
    /// that the end of the stream, as far as it has been fed, cuts off.
    pub open spec fn spec_held(&self) -> usize {
        match lz_decoding(self.stream()).error {
            Some(error) if error.kind == ErrorKind::TruncatedToken => (self.stream().len()
                - error.position) as usize,
            _ => 0,
        }
    }

    /// The number of bytes that the decoder holds back: the start of a
    /// token that the end of the last piece cut off, at most 2 bytes.
    #[verifier::when_used_as_spec(spec_held)]
    pub fn held(&self) -> (count: usize)
        requires
            self.wf(),
        ensures
            count == self.spec_held(),
            count <= 2,
    {
        match self.failed {
            Some(_) => 0,
            None => self.carry.len(),
        }
    }

    /// Whether the decoder is in working order, as every decoder is.
    pub closed spec fn wf(&self) -> bool {
        &&& self.stream@.len() == self.fed
        &&& self.carry@.len() <= 2
        &&& match self.failed {
            Some(error) => {
                &&& lz_decoding(self.stream@).error == Some(error)
                &&& error.kind != ErrorKind::TruncatedToken
            },
            None => {
                &&& self.consumed + self.carry@.len() == self.stream@.len()
                &&& self.carry@ == self.stream@.skip(self.consumed as int)
                &&& self.window@ == window_of(self.history@)
                &&& lz_decoding(self.stream@.take(self.consumed as int)) == (Decoded {
                    bytes: self.history@,
                    error: None,
                })
                &&& self.consumed == 0 ==> self.stream@.len() == 0
                &&& lz_decoding(self.stream@).bytes == self.history@
                &&& lz_decoding(self.stream@).error == if self.carry@.len() == 0 {
                    None
                } else {
                    Some(
                        FormatError {
                            kind: ErrorKind::TruncatedToken,
                            position: self.consumed,
                        },
                    )
                }
            },
        }
    }

    /// A decoder at the start of a stream.
    pub fn new() -> (decoder: LzDecoder)
        ensures
            decoder.wf(),
            decoder.stream() == Seq::<u8>::empty(),
            decoder.held() == 0,
    {
        let decoder = LzDecoder {
            failed: None,
            fed: 0,
            window: Window::new(),
            carry: Vec::new(),
            consumed: 0,
            stream: Ghost(Seq::empty()),
            history: Ghost(Seq::empty()),
        };
        assert(decoder.carry@ =~= decoder.stream@.skip(0));
        decoder
    }

    /// The number of bytes fed so far.
    pub fn fed(&self) -> (count: usize)
        requires
            self.wf(),
        ensures
            count == self.stream().len(),
    {
        self.fed
    }

    /// Takes the next piece of the stream and appends to `output` the bytes
    /// of the tokens that it completes.
    ///
    /// The result is the error in the stream as far as it has been fed, if
    /// there is one; a token cut off by the end of the piece is none. The
    /// bytes appended are those that the stream decodes to now beyond those
    /// that it decoded to before this piece. The stream must not grow
    /// beyond `usize::MAX` bytes, so that positions in it can be told.
    pub fn feed(&mut self, chunk: &[u8], output: &mut Vec<u8>) -> (outcome: Result<
        (),
        FormatError,
    >)
        requires
            old(self).wf(),
            old(self).stream().len() + chunk@.len() <= usize::MAX,
        ensures
            lz_decoding(old(self).stream()).bytes.is_prefix_of(
                lz_decoding(old(self).stream() + chunk@).bytes,
            ),
            final(output)@ == old(output)@ + lz_decoding(old(self).stream() + chunk@).bytes.skip(
                lz_decoding(old(self).stream()).bytes.len() as int,
            ),
            outcome == lz_decoding(old(self).stream() + chunk@).outcome_so_far(),
            final(self).wf(),
            final(self).stream() == old(self).stream() + chunk@,
    {
        let ghost stream = self.stream@ + chunk@;
        let ghost history = lz_decoding(self.stream@).bytes;
        assert(stream.take(self.stream@.len() as int) =~= self.stream@);
        self.fed = self.fed + chunk.len();
        self.stream = Ghost(stream);
        match self.failed {
            Some(error) => {
                proof {
                    lemma_decoding_error_stays(old(self).stream@, stream);
                }
                return Err(error);
            },
            None => {},
        }
        if self.consumed == 0 {
            if chunk.len() == 0 {
                return Ok(());
            }
            if chunk[0] != LZ_MAGIC {
                let error = FormatError { kind: ErrorKind::MagicByteMismatch, position: 0 };
                self.failed = Some(error);
                return Err(error);
            }
            let tokens = slice_subrange(chunk, 1, chunk.len());
            self.advance(tokens, 1, output, Ghost(stream), Ghost(history))
        } else {
            let base = self.consumed;
            assert(stream.take(base as int) =~= old(self).stream@.take(base as int));
            if self.carry.len() == 0 {
                assert(chunk@ =~= stream.skip(base as int));
                self.advance(chunk, base, output, Ghost(stream), Ghost(history))
            } else {
                let mut joined: Vec<u8> = Vec::new();
                append_from(&mut joined, self.carry.as_slice(), 0);
                append_from(&mut joined, chunk, 0);
                assert(joined@ =~= stream.skip(base as int));
                self.advance(joined.as_slice(), base, output, Ghost(stream), Ghost(history))
            }
        }
    }

    /// Decodes `piece`, which is all of `stream` from `base` on, where the
    /// stream before `base` has been decoded to `history`, and keeps what is
    /// left of it.
    fn advance(
        &mut self,
        piece: &[u8],
        base: usize,
        output: &mut Vec<u8>,
        Ghost(stream): Ghost<Seq<u8>>,
        Ghost(history): Ghost<Seq<u8>>,
    ) -> (outcome: Result<(), FormatError>)
        requires
            1 <= base,
            base + piece@.len() == stream.len(),
            piece@ == stream.skip(base as int),
            old(self).failed is None,
            old(self).fed == stream.len(),
            old(self).carry@.len() <= 2,
            old(self).stream@ == stream,
            old(self).window@ == window_of(history),
            lz_decoding(stream.take(base as int)) == (Decoded { bytes: history, error: None }),
        ensures
            final(self).wf(),
            final(self).stream@ == stream,
            outcome == lz_decoding(stream).outcome_so_far(),
            lz_decoding(stream).bytes.len() >= history.len(),
            lz_decoding(stream).bytes.take(history.len() as int) == history,
            final(output)@ == old(output)@ + lz_decoding(stream).bytes.skip(history.len() as int),
    {
        match decode_piece(&mut self.window, piece, base, output, Ghost(stream), Ghost(history)) {
            Err(error) => {
                self.failed = Some(error);
                Err(error)
            },
            Ok((decoded, produced)) => {
                let mut carry: Vec<u8> = Vec::new();
                append_from(&mut carry, piece, decoded);
                assert(carry@ =~= stream.skip(base + decoded));
                self.carry = carry;
                self.consumed = base + decoded;
                self.history = produced;
                Ok(())
            },
        }
    }

    /// Ends the stream: an error if it ends inside a token.
    pub fn finish(self) -> (outcome: Result<(), FormatError>)
        requires
            self.wf(),
        ensures
            outcome == lz_decoding(self.stream()).outcome(),
    {
        match self.failed {
            Some(error) => Err(error),
            None => {
                if self.carry.len() == 0 {
                    Ok(())
                } else {
                    Err(FormatError { kind: ErrorKind::TruncatedToken, position: self.consumed })
                }
            },
        }
    }
}

} // verus!
