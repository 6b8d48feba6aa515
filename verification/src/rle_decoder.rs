//! The run-length decoder as a state machine: it is fed the stream piece by
//! piece and hands out the bytes as the pairs become complete.

use crate::error::{Decoded, ErrorKind, FormatError};
use crate::rle::{decode_runs, repeated, rle_decoding, RLE_MAGIC};
use vstd::prelude::*;

verus! {

/// Pairs that decode cleanly decode the same way with more of the stream
/// behind them: where the first `cut` bytes of `stream`, decoded from
/// `position` on after `history`, end cleanly with `produced`, decoding all
/// of `stream` from `position` comes to decoding it from `cut` after
/// `produced`.
pub proof fn lemma_decode_continues(
    stream: Seq<u8>,
    cut: int,
    position: int,
    history: Seq<u8>,
    produced: Seq<u8>,
)
    requires
        0 <= position <= cut <= stream.len(),
        decode_runs(stream.take(cut), position, history) == (Decoded {
            bytes: produced,
            error: None,
        }),
    ensures
        decode_runs(stream, position, history) == decode_runs(stream, cut, produced),
    decreases cut - position,
{
    if position + 2 <= cut && stream[position + 1] != 0 {
        lemma_decode_continues(
            stream,
            cut,
            position + 2,
            history + repeated(stream[position], stream[position + 1] as int),
            produced,
        );
    }
}

/// What the first `cut` bytes of `stream` decode to if they end cleanly
/// after `produced`, all of `stream` decodes to as its pairs from `cut` on
/// do after `produced`.
pub proof fn lemma_decoding_continues(stream: Seq<u8>, cut: int, produced: Seq<u8>)
    requires
        1 <= cut <= stream.len(),
        rle_decoding(stream.take(cut)) == (Decoded { bytes: produced, error: None }),
    ensures
        rle_decoding(stream) == decode_runs(stream, cut, produced),
{
    lemma_decode_continues(stream, cut, 1, Seq::empty(), produced);
}

/// An error other than a pair cut off by the end stays when the stream
/// grows: decoding the longer stream stops at the same place in the same
/// way.
pub proof fn lemma_decode_error_stays(
    stream: Seq<u8>,
    longer: Seq<u8>,
    position: int,
    history: Seq<u8>,
)
    requires
        stream.len() <= longer.len(),
        longer.take(stream.len() as int) == stream,
        0 <= position,
        decode_runs(stream, position, history).error matches Some(error) && error.kind
            != ErrorKind::TruncatedToken,
    ensures
        decode_runs(longer, position, history) == decode_runs(stream, position, history),
    decreases stream.len() - position,
{
    assert forall|i: int| 0 <= i < stream.len() implies #[trigger] longer[i] == stream[i] by {}
    if position + 2 <= stream.len() && stream[position + 1] != 0 {
        lemma_decode_error_stays(
            stream,
            longer,
            position + 2,
            history + repeated(stream[position], stream[position + 1] as int),
        );
    }
}

/// An error in a stream, other than a pair cut off by its end, stays when
/// the stream grows: the longer stream decodes to the same bytes and the
/// same error.
pub proof fn lemma_decoding_error_stays(stream: Seq<u8>, longer: Seq<u8>)
    requires
        stream.len() <= longer.len(),
        longer.take(stream.len() as int) == stream,
        rle_decoding(stream).error matches Some(error) && error.kind
            != ErrorKind::TruncatedToken,
    ensures
        rle_decoding(longer) == rle_decoding(stream),
{
    if stream[0] == RLE_MAGIC {
        lemma_decode_error_stays(stream, longer, 1, Seq::empty());
    }
}

/// One more pair decoded: where the stream up to `cut` decodes cleanly to
/// `produced`, and a pair with a count other than zero follows, the stream
/// up to the end of the pair decodes cleanly to `produced` and the run.
proof fn lemma_decoding_advances(stream: Seq<u8>, cut: int, produced: Seq<u8>)
    requires
        1 <= cut,
        cut + 2 <= stream.len(),
        rle_decoding(stream.take(cut)) == (Decoded { bytes: produced, error: None }),
        stream[cut + 1] != 0,
    ensures
        rle_decoding(stream.take(cut + 2)) == (Decoded {
            bytes: produced + repeated(stream[cut], stream[cut + 1] as int),
            error: None,
        }),
{
    let head = stream.take(cut + 2);
    let longer = produced + repeated(stream[cut], stream[cut + 1] as int);
    assert(head.take(cut) =~= stream.take(cut));
    lemma_decoding_continues(head, cut, produced);
    assert(decode_runs(head, cut, produced) == decode_runs(head, cut + 2, longer));
}

/// Appends `count` times `byte` to `output`.
fn push_repeated(output: &mut Vec<u8>, byte: u8, count: u8)
    ensures
        final(output)@ == old(output)@ + repeated(byte, count as int),
{
    let mut pushed: u8 = 0;
    while pushed < count
        invariant
            pushed <= count,
            output@ == old(output)@ + repeated(byte, pushed as int),
        decreases count - pushed,
    {
        output.push(byte);
        pushed += 1;
    }
}

/// The number of bytes that a decoder holds back: one for the byte of a
/// pair whose count has not come.
spec fn carried(carry: Option<u8>) -> int {
    if carry is Some {
        1
    } else {
        0
    }
}

/// A run-length decoder that takes the stream in pieces.
///
/// The pieces may be cut anywhere, also inside a pair. After every piece
/// the decoder has handed out all bytes of the pairs that are complete;
/// `finish` tells whether the stream may end where it does. An error in the
/// stream stays: the decoder reports it for every further piece and at the
/// end, and hands out no more bytes.
pub struct RleDecoder {
    /// The error in the stream, once there is one.
    failed: Option<FormatError>,
    /// The byte of a pair whose count has not come.
    carry: Option<u8>,
    /// The number of bytes fed.
    fed: usize,
    stream: Ghost<Seq<u8>>,
    produced: Ghost<Seq<u8>>,
}

impl RleDecoder {
    /// The stream as far as it has been fed.
    pub closed spec fn stream(&self) -> Seq<u8> {
        self.stream@
    }

    /// The number of bytes that the decoder holds back: those of a pair
    /// that the end of the stream, as far as it has been fed, cuts off.
    pub open spec fn spec_held(&self) -> usize {
        match rle_decoding(self.stream()).error {
            Some(error) if error.kind == ErrorKind::TruncatedToken => (self.stream().len()
                - error.position) as usize,
            _ => 0,
        }
    }

    /// The number of bytes that the decoder holds back: the byte of a pair
    /// whose count has not come, so at most 1.
    #[verifier::when_used_as_spec(spec_held)]
    pub fn held(&self) -> (count: usize)
        requires
            self.wf(),
        ensures
            count == self.spec_held(),
            count <= 1,
    {
        match self.failed {
            Some(_) => 0,
            None => match self.carry {
                Some(_) => 1,
                None => 0,
            },
        }
    }

    /// Whether the decoder is in working order, as every decoder is.
    pub closed spec fn wf(&self) -> bool {
        &&& self.stream@.len() == self.fed
        &&& match self.failed {
            Some(error) => {
                &&& rle_decoding(self.stream@).error == Some(error)
                &&& error.kind != ErrorKind::TruncatedToken
            },
            None => {
                &&& self.fed == 0 ==> self.carry is None
                &&& self.carry matches Some(byte) ==> self.fed >= 2 && self.stream@[self.fed
                    - 1] == byte
                &&& rle_decoding(self.stream@.take(self.fed - carried(self.carry))) == (Decoded {
                    bytes: self.produced@,
                    error: None,
                })
                &&& rle_decoding(self.stream@).bytes == self.produced@
                &&& rle_decoding(self.stream@).error == if self.carry is None {
                    None
                } else {
                    Some(
                        FormatError {
                            kind: ErrorKind::TruncatedToken,
                            position: (self.fed - 1) as usize,
                        },
                    )
                }
            },
        }
    }

    /// A decoder at the start of a stream.
    pub fn new() -> (decoder: RleDecoder)
        ensures
            decoder.wf(),
            decoder.stream() == Seq::<u8>::empty(),
            decoder.held() == 0,
    {
        let decoder = RleDecoder {
            failed: None,
            carry: None,
            fed: 0,
            stream: Ghost(Seq::empty()),
            produced: Ghost(Seq::empty()),
        };
        decoder
    }

    /// The number of bytes fed so far.
    pub fn fed(&self) -> (count: usize)
        requires
            self.wf(),
        ensures
            count == self.stream().len(),
    {
        self.fed
    }

    /// Takes the next piece of the stream and appends to `output` the bytes
    /// of the pairs that it completes.
    ///
    /// The result is the error in the stream as far as it has been fed, if
    /// there is one; a pair cut off by the end of the piece is none. The
    /// bytes appended are those that the stream decodes to now beyond those
    /// that it decoded to before this piece. The stream must not grow
    /// beyond `usize::MAX` bytes, so that positions in it can be told.
    pub fn feed(&mut self, chunk: &[u8], output: &mut Vec<u8>) -> (outcome: Result<
        (),
        FormatError,
    >)
        requires
            old(self).wf(),
            old(self).stream().len() + chunk@.len() <= usize::MAX,
        ensures
            rle_decoding(old(self).stream()).bytes.is_prefix_of(
                rle_decoding(old(self).stream() + chunk@).bytes,
            ),
            final(output)@ == old(output)@ + rle_decoding(
                old(self).stream() + chunk@,
            ).bytes.skip(rle_decoding(old(self).stream()).bytes.len() as int),
            outcome == rle_decoding(old(self).stream() + chunk@).outcome_so_far(),
            final(self).wf(),
            final(self).stream() == old(self).stream() + chunk@,
    {
        let ghost stream = self.stream@ + chunk@;
        let ghost history = rle_decoding(self.stream@).bytes;
        let ghost mut produced = history;
        let start = self.fed;
        let total = chunk.len();
        let mut carry = self.carry;
        let mut at: usize = 0;
        assert(stream.take(start as int) =~= self.stream@);
        self.fed = start + total;
        self.stream = Ghost(stream);
        match self.failed {
            Some(error) => {
                proof {
                    lemma_decoding_error_stays(old(self).stream@, stream);
                }
                return Err(error);
            },
            None => {},
        }
        assert(stream.take(start - carried(carry)) =~= old(self).stream@.take(
            start - carried(carry),
        ));
        if start == 0 {
            if total == 0 {
                return Ok(());
            }
            if chunk[0] != RLE_MAGIC {
                let error = FormatError { kind: ErrorKind::MagicByteMismatch, position: 0 };
                self.failed = Some(error);
                return Err(error);
            }
            at = 1;
        }
        while at < total
            invariant
                at <= total,
                chunk@.len() == total,
                start + total == stream.len(),
                stream.len() <= usize::MAX,
                stream.skip(start as int) == chunk@,
                stream == old(self).stream() + chunk@,
                history == rle_decoding(old(self).stream()).bytes,
                self.stream@ == stream,
                self.fed == start + total,
                self.failed is None,
                start + at >= 1,
                carry matches Some(byte) ==> start + at >= 2 && stream[start + at - 1] == byte,
                rle_decoding(stream.take(start + at - carried(carry))) == (Decoded {
                    bytes: produced,
                    error: None,
                }),
                produced.len() >= history.len(),
                produced.take(history.len() as int) == history,
                output@ == old(output)@ + produced.skip(history.len() as int),
            decreases total - at,
        {
            let byte = chunk[at];
            assert(byte == stream[start + at]);
            match carry {
                None => {
                    carry = Some(byte);
                },
                Some(value) => {
                    let begin = start + at - 1;
                    proof {
                        lemma_decoding_continues(stream, begin as int, produced);
                    }
                    if byte == 0 {
                        let error = FormatError {
                            kind: ErrorKind::ZeroLengthRun,
                            position: begin,
                        };
                        self.failed = Some(error);
                        return Err(error);
                    }
                    push_repeated(output, value, byte);
                    proof {
                        lemma_decoding_advances(stream, begin as int, produced);
                        produced = produced + repeated(value, byte as int);
                    }
                    carry = None;
                },
            }
            at += 1;
        }
        proof {
            lemma_decoding_continues(stream, start + at - carried(carry), produced);
        }
        self.carry = carry;
        self.produced = Ghost(produced);
        Ok(())
    }

    /// Ends the stream: an error if it ends inside a pair.
    pub fn finish(self) -> (outcome: Result<(), FormatError>)
        requires
            self.wf(),
        ensures
            outcome == rle_decoding(self.stream()).outcome(),
    {
        match self.failed {
            Some(error) => Err(error),
            None => match self.carry {
                None => Ok(()),
                Some(_) => Err(
                    FormatError { kind: ErrorKind::TruncatedToken, position: self.fed - 1 },
                ),
            },
        }
    }
}

} // verus!
