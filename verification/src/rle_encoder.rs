//! The run-length encoder as a state machine: it is fed the input piece by
//! piece and hands out the pair of a run as soon as the run is over.
//!
//! A run is settled once a byte follows it in the input: more input cannot
//! change it then. The encoder holds the last run back until another byte or
//! the end comes.

use crate::rle::{
    encode_runs, lemma_run_length_is_longest, rle_encoding, run_end, run_length, MAX_RUN_LENGTH,
    RLE_MAGIC,
};
use vstd::prelude::*;

verus! {

/// Whether the run that starts at `position` is settled: a byte follows it.
pub open spec fn is_settled(input: Seq<u8>, position: int) -> bool {
    0 <= position < input.len() && position + run_length(input, position) < input.len()
}

/// The pairs of the runs from `position` on that are settled, up to the
/// first that is not.
pub open spec fn settled_runs(input: Seq<u8>, position: int) -> Seq<u8>
    decreases input.len() - position,
{
    if is_settled(input, position) {
        proof {
            lemma_run_length_is_longest(input, position);
        }
        seq![input[position], run_length(input, position) as u8] + settled_runs(
            input,
            position + run_length(input, position),
        )
    } else {
        Seq::empty()
    }
}

/// Where the settled runs from `position` on end: the start of the first
/// run that is not settled.
pub open spec fn settled_end(input: Seq<u8>, position: int) -> int
    decreases input.len() - position,
{
    if is_settled(input, position) {
        proof {
            lemma_run_length_is_longest(input, position);
        }
        settled_end(input, position + run_length(input, position))
    } else {
        position
    }
}

/// The part of the compressed form of `input` that is settled: the magic
/// byte, then the pairs of the settled runs.
pub open spec fn rle_settled(input: Seq<u8>) -> Seq<u8> {
    seq![RLE_MAGIC] + settled_runs(input, 0)
}

/// A run that has been followed from its second byte up to `to` ends where
/// the run followed from `to` ends: up to `to` it holds one byte and is no
/// longer than a run may be.
proof fn lemma_run_follows(input: Seq<u8>, start: int, from: int, to: int)
    requires
        0 <= start < from <= to <= input.len(),
        to - start <= MAX_RUN_LENGTH,
        forall|i: int| start <= i < to ==> input[i] == input[start],
    ensures
        run_end(input, start, from) == run_end(input, start, to),
    decreases to - from,
{
    if from < to {
        lemma_run_follows(input, start, from + 1, to);
    }
}

/// Following a run that ends before the input does comes to the same in any
/// longer input.
proof fn lemma_run_end_is_final(input: Seq<u8>, longer: Seq<u8>, start: int, from: int)
    requires
        input.len() <= longer.len(),
        longer.take(input.len() as int) == input,
        0 <= start < from <= input.len(),
        run_end(input, start, from) < input.len(),
    ensures
        run_end(longer, start, from) == run_end(input, start, from),
    decreases input.len() - from,
{
    if from < input.len() && from - start < MAX_RUN_LENGTH && input[from] == input[start] {
        lemma_run_end_is_final(input, longer, start, from + 1);
    }
}

/// A settled run stays as it is when the input grows.
pub proof fn lemma_settled_run_is_final(input: Seq<u8>, longer: Seq<u8>, position: int)
    requires
        input.len() <= longer.len(),
        longer.take(input.len() as int) == input,
        is_settled(input, position),
    ensures
        is_settled(longer, position),
        longer[position] == input[position],
        run_length(longer, position) == run_length(input, position),
{
    lemma_run_end_is_final(input, longer, position, position + 1);
}

/// The settled runs of an input are the first settled runs of any longer
/// input, which go on from where those end.
pub proof fn lemma_settled_runs_grow(input: Seq<u8>, longer: Seq<u8>, position: int)
    requires
        input.len() <= longer.len(),
        longer.take(input.len() as int) == input,
        0 <= position <= input.len(),
    ensures
        position <= settled_end(input, position) <= input.len(),
        settled_runs(longer, position) == settled_runs(input, position) + settled_runs(
            longer,
            settled_end(input, position),
        ),
        settled_end(longer, position) == settled_end(longer, settled_end(input, position)),
    decreases input.len() - position,
{
    if is_settled(input, position) {
        lemma_run_length_is_longest(input, position);
        lemma_settled_run_is_final(input, longer, position);
        lemma_settled_runs_grow(input, longer, position + run_length(input, position));
    }
}

/// The pairs of an input are the pairs of its settled runs and then the
/// pairs from where those end.
pub proof fn lemma_runs_after_settled(input: Seq<u8>, position: int)
    requires
        0 <= position <= input.len(),
    ensures
        position <= settled_end(input, position) <= input.len(),
        encode_runs(input, position) == settled_runs(input, position) + encode_runs(
            input,
            settled_end(input, position),
        ),
    decreases input.len() - position,
{
    if is_settled(input, position) {
        lemma_run_length_is_longest(input, position);
        lemma_runs_after_settled(input, position + run_length(input, position));
    }
}

/// A run-length encoder that takes the input in pieces.
///
/// The pieces may be cut anywhere. Whatever the cuts, the bytes that `start`,
/// the calls of `feed` and `finish` append, one after the other, are the
/// compressed form of the whole input.
pub struct RleEncoder {
    /// The byte of the run that is held back.
    current: u8,
    /// The length of the run that is held back; zero before the first byte.
    count: u8,
    fed: Ghost<Seq<u8>>,
}

impl RleEncoder {
    /// The input as far as it has been fed.
    pub closed spec fn input(&self) -> Seq<u8> {
        self.fed@
    }

    /// The number of bytes that the encoder holds back: those from the end
    /// of the settled runs on.
    pub open spec fn spec_held(&self) -> usize {
        (self.input().len() - settled_end(self.input(), 0)) as usize
    }

    /// The number of bytes that the encoder holds back: the length of the
    /// last run, which it keeps as a byte and a count.
    #[verifier::when_used_as_spec(spec_held)]
    pub fn held(&self) -> (count: usize)
        requires
            self.wf(),
        ensures
            count == self.spec_held(),
            count <= MAX_RUN_LENGTH,
    {
        self.count as usize
    }

    /// Whether the encoder is in working order, as every encoder is.
    pub closed spec fn wf(&self) -> bool {
        &&& self.count <= self.fed@.len()
        &&& self.count == 0 <==> self.fed@.len() == 0
        &&& self.fed@.len() - self.count == settled_end(self.fed@, 0)
        &&& self.count >= 1 ==> {
            &&& self.fed@[self.fed@.len() - self.count] == self.current
            &&& run_length(self.fed@, self.fed@.len() - self.count) == self.count
        }
    }

    /// Starts a stream: appends the magic byte to `output` and returns the
    /// encoder for what follows.
    pub fn start(output: &mut Vec<u8>) -> (encoder: RleEncoder)
        ensures
            encoder.wf(),
            encoder.input() == Seq::<u8>::empty(),
            encoder.held() == 0,
            final(output)@ == old(output)@ + rle_settled(encoder.input()),
            final(output)@ == old(output)@.push(RLE_MAGIC),
    {
        output.push(RLE_MAGIC);
        let encoder = RleEncoder { current: 0, count: 0, fed: Ghost(Seq::empty()) };
        encoder
    }

    /// Takes the next piece of the input and appends to `output` the pairs
    /// of the runs that it settles: what has been written after the call is
    /// the settled part of the compressed form of all that has been fed.
    pub fn feed(&mut self, chunk: &[u8], output: &mut Vec<u8>)
        requires
            old(self).wf(),
        ensures
            final(self).wf(),
            final(self).input() == old(self).input() + chunk@,
            rle_settled(old(self).input()).is_prefix_of(rle_settled(final(self).input())),
            final(output)@ == old(output)@ + rle_settled(final(self).input()).skip(
                rle_settled(old(self).input()).len() as int,
            ),
    {
        let ghost fed = self.fed@;
        let ghost input = self.fed@ + chunk@;
        let ghost base = fed.len() as int;
        let ghost held = fed.len() - self.count;
        let total = chunk.len();
        let mut current = self.current;
        let mut count = self.count;
        let mut at: usize = 0;
        proof {
            assert(input.take(fed.len() as int) =~= fed);
            lemma_settled_runs_grow(fed, input, 0);
            if count >= 1 {
                lemma_run_length_is_longest(fed, held);
                assert forall|i: int| held <= i < base implies input[i] == input[held] by {}
                lemma_run_follows(input, held, held + 1, base);
            }
        }
        while at < total
            invariant
                at <= total,
                chunk@.len() == total,
                base + total == input.len(),
                input.skip(base) == chunk@,
                0 <= held <= base,
                count <= base + at,
                count <= MAX_RUN_LENGTH,
                count == 0 <==> base + at == 0,
                count >= 1 ==> {
                    &&& input[base + at - count] == current
                    &&& run_end(input, base + at - count, base + at) == run_end(
                        input,
                        base + at - count,
                        base + at - count + 1,
                    )
                },
                settled_end(input, base + at - count) == settled_end(input, held),
                output@ + settled_runs(input, base + at - count) == old(output)@ + settled_runs(
                    input,
                    held,
                ),
            decreases total - at,
        {
            let byte = chunk[at];
            assert(byte == input[base + at]);
            if count == 0 {
                current = byte;
                count = 1;
            } else if byte == current && count < 255 {
                count += 1;
            } else {
                output.push(current);
                output.push(count);
                current = byte;
                count = 1;
            }
            at += 1;
        }
        self.current = current;
        self.count = count;
        self.fed = Ghost(input);
    }

    /// Ends the input: appends to `output` the pair of the run that was
    /// held back, so that all that has been written is the compressed form
    /// of all that has been fed.
    pub fn finish(self, output: &mut Vec<u8>)
        requires
            self.wf(),
        ensures
            rle_settled(self.input()).is_prefix_of(rle_encoding(self.input())),
            final(output)@ == old(output)@ + rle_encoding(self.input()).skip(
                rle_settled(self.input()).len() as int,
            ),
    {
        proof {
            lemma_runs_after_settled(self.fed@, 0);
        }
        if self.count > 0 {
            output.push(self.current);
            output.push(self.count);
        }
        assert(encode_runs(self.fed@, self.fed@.len() as int) =~= Seq::<u8>::empty());
    }
}

} // verus!
