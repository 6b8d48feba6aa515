//! The history window: the most recent bytes of a stream, which a match may
//! refer back to. Encoder and decoder each keep one and push the same bytes
//! into it in the same order.

use std::collections::VecDeque;
use vstd::prelude::*;

verus! {

/// The number of bytes the history window holds.
pub const WINDOW_SIZE: usize = 20;

/// The farthest distance back that the one-byte offset field of a match can
/// express.
pub const MAX_OFFSET: usize = 255;

/// The part of `history` that is still in the window once all of it has been
/// pushed: its last `WINDOW_SIZE` bytes, or all of it while it is shorter.
pub open spec fn window_of(history: Seq<u8>) -> Seq<u8> {
    if history.len() <= WINDOW_SIZE {
        history
    } else {
        history.subrange(history.len() - WINDOW_SIZE, history.len() as int)
    }
}

/// Pushing a byte into the window of a history gives the window of the
/// history extended by that byte: what has been evicted never matters again.
pub proof fn lemma_window_slides(history: Seq<u8>, byte: u8)
    ensures
        window_of(window_of(history).push(byte)) == window_of(history.push(byte)),
{
}

/// A bounded first-in, first-out buffer of the most recent bytes.
pub struct Window {
    bytes: VecDeque<u8>,
}

impl View for Window {
    type V = Seq<u8>;

    /// The bytes in the window, oldest first.
    closed spec fn view(&self) -> Seq<u8> {
        self.bytes@
    }
}

impl Window {
    #[verifier::type_invariant]
    spec fn within_capacity(self) -> bool {
        self.bytes@.len() <= WINDOW_SIZE
    }

    /// An empty window.
    pub fn new() -> (window: Window)
        ensures
            window@ == Seq::<u8>::empty(),
    {
        Window { bytes: VecDeque::with_capacity(WINDOW_SIZE) }
    }

    /// The number of bytes in the window, never more than `WINDOW_SIZE`.
    pub fn len(&self) -> (n: usize)
        ensures
            n == self@.len(),
            n <= WINDOW_SIZE,
    {
        proof {
            use_type_invariant(self);
        }
        self.bytes.len()
    }

    /// Appends `byte` as the newest byte; at capacity the oldest byte leaves.
    pub fn push(&mut self, byte: u8)
        ensures
            final(self)@ == window_of(old(self)@.push(byte)),
    {
        proof {
            use_type_invariant(&*self);
        }
        // The deque is taken out while it changes, so that the window itself
        // is within its capacity at every moment.
        let mut bytes: VecDeque<u8> = VecDeque::new();
        std::mem::swap(&mut self.bytes, &mut bytes);
        if bytes.len() >= WINDOW_SIZE {
            bytes.pop_front();
        }
        bytes.push_back(byte);
        std::mem::swap(&mut self.bytes, &mut bytes);
    }

    /// The byte `distance` back from the end of the window (1 is the newest),
    /// or `None` where there is no such byte: `distance` is zero, exceeds the
    /// number of bytes held, or exceeds `MAX_OFFSET`.
    pub fn get(&self, distance: usize) -> (byte: Option<u8>)
        ensures
            byte == if 1 <= distance <= self@.len() && distance <= MAX_OFFSET {
                Some(self@[self@.len() - distance])
            } else {
                None
            },
    {
        let held = self.bytes.len();
        if distance == 0 || distance > held || distance > MAX_OFFSET {
            None
        } else {
            Some(self.bytes[held - distance])
        }
    }
}

} // verus!
