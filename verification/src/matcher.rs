//! The match finder: the longest stretch of upcoming input that repeats what
//! stands a fixed distance back.
//!
//! A match at distance `offset` copies, byte by byte, what stands `offset`
//! bytes before each position it writes. While it is shorter than `offset`
//! it reads the history only; beyond that it reads bytes that it has written
//! itself, which are bytes of the lookahead.

use crate::window::{Window, MAX_OFFSET, WINDOW_SIZE};
use vstd::prelude::*;

verus! {

/// The shortest match worth a match token.
pub const MIN_MATCH_LENGTH: usize = 3;

/// The longest match that the one-byte length field can express.
pub const MAX_MATCH_LENGTH: usize = 255;

/// What the match finder returns: how far back the match starts and how many
/// bytes it covers. A length of zero means that nothing matches.
#[derive(Clone, Copy, Debug, PartialEq, Eq, Structural)]
pub struct Match {
    /// Distance back from the end of the history, 1 being its newest byte.
    pub offset: usize,
    /// Number of bytes of the lookahead that the match covers.
    pub length: usize,
}

impl Match {
    /// Whether the match is worth a match token: at least `MIN_MATCH_LENGTH`
    /// bytes long, with an offset from 1 to `MAX_OFFSET`, which the offset
    /// field can hold.
    pub open spec fn spec_is_accepted(self) -> bool {
        self.length >= MIN_MATCH_LENGTH && 1 <= self.offset <= MAX_OFFSET
    }

    /// Whether the match is worth a match token: at least `MIN_MATCH_LENGTH`
    /// bytes long, with an offset from 1 to `MAX_OFFSET`, which the offset
    /// field can hold.
    #[verifier::when_used_as_spec(spec_is_accepted)]
    pub fn is_accepted(self) -> (accepted: bool)
        ensures
            accepted == self.spec_is_accepted(),
    {
        self.length >= MIN_MATCH_LENGTH && 1 <= self.offset && self.offset <= MAX_OFFSET
    }
}

/// The most bytes a match against `lookahead` can cover: all of it, up to
/// `MAX_MATCH_LENGTH`.
pub open spec fn match_limit(lookahead: Seq<u8>) -> int {
    if lookahead.len() <= MAX_MATCH_LENGTH {
        lookahead.len() as int
    } else {
        MAX_MATCH_LENGTH as int
    }
}

/// The byte that a match at distance `offset` produces for position `k` of
/// the lookahead: the byte `offset` places before it, in the history or,
/// from `k == offset` on, in the lookahead itself.
pub open spec fn copied_byte(history: Seq<u8>, lookahead: Seq<u8>, offset: int, k: int) -> u8 {
    if k < offset {
        history[history.len() - offset + k]
    } else {
        lookahead[k - offset]
    }
}

/// The first position at or after `from`, below the limit, where a match at
/// distance `offset` would produce a wrong byte; the limit if there is none.
pub open spec fn agreement_end(history: Seq<u8>, lookahead: Seq<u8>, offset: int, from: int) -> int
    decreases match_limit(lookahead) - from,
{
    if from < match_limit(lookahead) && copied_byte(history, lookahead, offset, from)
        == lookahead[from] {
        agreement_end(history, lookahead, offset, from + 1)
    } else {
        from
    }
}

/// The number of bytes of `lookahead` that a match at distance `offset`
/// reproduces.
pub open spec fn match_length(history: Seq<u8>, lookahead: Seq<u8>, offset: int) -> int {
    agreement_end(history, lookahead, offset, 0)
}

/// Among the distances `1..=reach`, the one with the longest match; of
/// several with the longest match, the nearest. Zero when `reach` is zero.
pub open spec fn best_offset(history: Seq<u8>, lookahead: Seq<u8>, reach: int) -> int
    decreases reach,
{
    if reach <= 0 {
        0
    } else if reach == 1 {
        1
    } else {
        let nearer = best_offset(history, lookahead, reach - 1);
        if match_length(history, lookahead, reach) > match_length(history, lookahead, nearer) {
            reach
        } else {
            nearer
        }
    }
}

/// The best match for `lookahead` in `history`: the longest, and of several
/// longest the most recent. With an empty history it is offset 0, length 0.
pub open spec fn best_match(history: Seq<u8>, lookahead: Seq<u8>) -> Match {
    let offset = best_offset(history, lookahead, history.len() as int);
    Match {
        offset: offset as usize,
        length: if offset == 0 {
            0
        } else {
            match_length(history, lookahead, offset) as usize
        },
    }
}

proof fn lemma_agreement_end(history: Seq<u8>, lookahead: Seq<u8>, offset: int, from: int)
    requires
        0 <= from <= match_limit(lookahead),
    ensures
        from <= agreement_end(history, lookahead, offset, from) <= match_limit(lookahead),
        forall|k: int|
            from <= k < agreement_end(history, lookahead, offset, from) ==> copied_byte(
                history,
                lookahead,
                offset,
                k,
            ) == lookahead[k],
        agreement_end(history, lookahead, offset, from) < match_limit(lookahead) ==> copied_byte(
            history,
            lookahead,
            offset,
            agreement_end(history, lookahead, offset, from),
        ) != lookahead[agreement_end(history, lookahead, offset, from)],
    decreases match_limit(lookahead) - from,
{
    if from < match_limit(lookahead) && copied_byte(history, lookahead, offset, from)
        == lookahead[from] {
        lemma_agreement_end(history, lookahead, offset, from + 1);
    }
}

/// A match length is the length of the longest agreement: every byte below
/// it is reproduced, and the match stops at the limit or at a byte that is
/// not.
pub proof fn lemma_match_length_is_longest(history: Seq<u8>, lookahead: Seq<u8>, offset: int)
    ensures
        0 <= match_length(history, lookahead, offset) <= match_limit(lookahead),
        forall|k: int|
            0 <= k < match_length(history, lookahead, offset) ==> copied_byte(
                history,
                lookahead,
                offset,
                k,
            ) == lookahead[k],
        match_length(history, lookahead, offset) < match_limit(lookahead) ==> copied_byte(
            history,
            lookahead,
            offset,
            match_length(history, lookahead, offset),
        ) != lookahead[match_length(history, lookahead, offset)],
{
    lemma_agreement_end(history, lookahead, offset, 0);
}

/// The best offset within a reach of at least one lies within it, no
/// distance within the reach has a longer match, and no nearer distance has
/// one as long.
pub proof fn lemma_best_offset_is_longest_and_nearest(
    history: Seq<u8>,
    lookahead: Seq<u8>,
    reach: int,
)
    requires
        reach >= 1,
    ensures
        1 <= best_offset(history, lookahead, reach) <= reach,
        forall|other: int|
            1 <= other <= reach ==> #[trigger] match_length(history, lookahead, other)
                <= match_length(history, lookahead, best_offset(history, lookahead, reach)),
        forall|other: int|
            1 <= other < best_offset(history, lookahead, reach) ==> #[trigger] match_length(
                history,
                lookahead,
                other,
            ) < match_length(history, lookahead, best_offset(history, lookahead, reach)),
    decreases reach,
{
    if reach > 1 {
        lemma_best_offset_is_longest_and_nearest(history, lookahead, reach - 1);
    }
}

/// Measures the match at distance `offset`.
fn measure(window: &Window, lookahead: &[u8], offset: usize) -> (length: usize)
    requires
        1 <= offset <= window@.len(),
    ensures
        length == match_length(window@, lookahead@, offset as int),
{
    let held = window.len();
    let limit = if lookahead.len() <= MAX_MATCH_LENGTH {
        lookahead.len()
    } else {
        MAX_MATCH_LENGTH
    };
    let mut length: usize = 0;
    let mut agrees = true;
    while agrees && length < limit
        invariant
            0 <= length <= limit,
            limit == match_limit(lookahead@),
            1 <= offset <= held,
            held == window@.len(),
            held <= WINDOW_SIZE,
            agreement_end(window@, lookahead@, offset as int, length as int) == match_length(
                window@,
                lookahead@,
                offset as int,
            ),
            !agrees ==> length < limit && copied_byte(
                window@,
                lookahead@,
                offset as int,
                length as int,
            ) != lookahead@[length as int],
        decreases limit - length + if agrees { 1int } else { 0int },
    {
        let source = if length < offset {
            window.get(offset - length).unwrap()
        } else {
            lookahead[length - offset]
        };
        if source == lookahead[length] {
            length += 1;
        } else {
            agrees = false;
        }
    }
    length
}

/// Finds the best match for `lookahead` in the window: the longest stretch
/// of the lookahead, up to `MAX_MATCH_LENGTH` bytes, that a copy from some
/// distance back reproduces. Of several distances with the longest match it
/// returns the smallest.
pub fn find_match(window: &Window, lookahead: &[u8]) -> (found: Match)
    ensures
        found == best_match(window@, lookahead@),
{
    let held = window.len();
    let mut found = Match { offset: 0, length: 0 };
    let mut offset: usize = 1;
    while offset <= held
        invariant
            1 <= offset <= held + 1,
            held == window@.len(),
            held <= WINDOW_SIZE,
            found.offset == best_offset(window@, lookahead@, offset - 1),
            offset > 1 ==> 1 <= found.offset < offset,
            found.length == if found.offset == 0 {
                0
            } else {
                match_length(window@, lookahead@, found.offset as int)
            },
        decreases held + 1 - offset,
    {
        let length = measure(window, lookahead, offset);
        if offset == 1 || length > found.length {
            found = Match { offset, length };
        }
        offset += 1;
    }
    found
}

} // verus!
