//! The token codec: tokens and their wire form.
//!
//! A stream is a sequence of tokens. Each starts with a tag byte. A literal
//! is the tag 0 and the byte itself; a match is the tag 1, the offset and the
//! length, one byte each.

use crate::error::{ErrorKind, FormatError};
use vstd::prelude::*;

verus! {

/// The tag byte that starts a literal token.
pub const LITERAL_TAG: u8 = 0;

/// The tag byte that starts a match token.
pub const MATCH_TAG: u8 = 1;

/// One unit of a compressed stream.
#[derive(Clone, Copy, Debug, PartialEq, Eq, Structural)]
pub enum Token {
    /// One byte, as it is.
    Literal(u8),
    /// `length` bytes, each a copy of the byte `offset` places before it.
    Match { offset: u8, length: u8 },
}

impl Token {
    /// The wire form of the token.
    pub open spec fn bytes(self) -> Seq<u8> {
        match self {
            Token::Literal(byte) => seq![LITERAL_TAG, byte],
            Token::Match { offset, length } => seq![MATCH_TAG, offset, length],
        }
    }

    /// The number of bytes in the wire form.
    pub open spec fn spec_encoded_len(self) -> usize {
        match self {
            Token::Literal(_) => 2,
            Token::Match { .. } => 3,
        }
    }

    /// The number of bytes in the wire form.
    #[verifier::when_used_as_spec(spec_encoded_len)]
    pub fn encoded_len(self) -> (n: usize)
        ensures
            n == self.spec_encoded_len(),
            n == self.bytes().len(),
    {
        match self {
            Token::Literal(_) => 2,
            Token::Match { .. } => 3,
        }
    }

    /// The number of bytes that the token stands for.
    pub open spec fn spec_decoded_len(self) -> usize {
        match self {
            Token::Literal(_) => 1,
            Token::Match { length, .. } => length as usize,
        }
    }

    /// The number of bytes that the token stands for.
    #[verifier::when_used_as_spec(spec_decoded_len)]
    pub fn decoded_len(self) -> (n: usize)
        ensures
            n == self.spec_decoded_len(),
    {
        match self {
            Token::Literal(_) => 1,
            Token::Match { length, .. } => length as usize,
        }
    }

    /// Appends the wire form of the token to `output`.
    pub fn write(self, output: &mut Vec<u8>)
        ensures
            final(output)@ == old(output)@ + self.bytes(),
    {
        match self {
            Token::Literal(byte) => {
                output.push(LITERAL_TAG);
                output.push(byte);
            },
            Token::Match { offset, length } => {
                output.push(MATCH_TAG);
                output.push(offset);
                output.push(length);
            },
        }
    }

    /// Reads the token that starts at `position` of `stream`.
    ///
    /// At the end of the stream there is no token, which is not an error. A
    /// tag other than 0 and 1 is an `InvalidToken`; a stream that ends before
    /// the token does is a `TruncatedToken`. Either error carries `position`.
    pub fn read(stream: &[u8], position: usize) -> (token: Result<Option<Token>, FormatError>)
        ensures
            token == parse_token(stream@, position as int),
    {
        if position >= stream.len() {
            return Ok(None);
        }
        let left = stream.len() - position;
        let tag = stream[position];
        if tag == LITERAL_TAG {
            if left < 2 {
                Err(FormatError { kind: ErrorKind::TruncatedToken, position })
            } else {
                Ok(Some(Token::Literal(stream[position + 1])))
            }
        } else if tag == MATCH_TAG {
            if left < 3 {
                Err(FormatError { kind: ErrorKind::TruncatedToken, position })
            } else {
                let offset = stream[position + 1];
                let length = stream[position + 2];
                Ok(Some(Token::Match { offset, length }))
            }
        } else {
            Err(FormatError { kind: ErrorKind::InvalidToken, position })
        }
    }
}

/// The token that starts at `position` of `stream`: `Ok(None)` at or past the
/// end of the stream, an error where the tag is unknown or the stream ends
/// inside the token.
pub open spec fn parse_token(stream: Seq<u8>, position: int) -> Result<Option<Token>, FormatError> {
    if position >= stream.len() {
        Ok(None)
    } else if stream[position] == LITERAL_TAG {
        if position + 2 <= stream.len() {
            Ok(Some(Token::Literal(stream[position + 1])))
        } else {
            Err(FormatError { kind: ErrorKind::TruncatedToken, position: position as usize })
        }
    } else if stream[position] == MATCH_TAG {
        if position + 3 <= stream.len() {
            Ok(
                Some(
                    Token::Match { offset: stream[position + 1], length: stream[position + 2] },
                ),
            )
        } else {
            Err(FormatError { kind: ErrorKind::TruncatedToken, position: position as usize })
        }
    } else {
        Err(FormatError { kind: ErrorKind::InvalidToken, position: position as usize })
    }
}

/// The wire form of a sequence of tokens: their wire forms, one after the
/// other.
pub open spec fn serialize(tokens: Seq<Token>) -> Seq<u8>
    decreases tokens.len(),
{
    if tokens.len() == 0 {
        Seq::empty()
    } else {
        tokens[0].bytes() + serialize(tokens.skip(1))
    }
}

/// A token that was written is the token that is read: where the wire form
/// of `token` stands at `position` of `stream`, parsing there gives `token`.
pub proof fn lemma_parse_written(stream: Seq<u8>, position: int, token: Token)
    requires
        0 <= position,
        position + token.encoded_len() <= stream.len(),
        stream.subrange(position, position + token.encoded_len()) == token.bytes(),
    ensures
        parse_token(stream, position) == Ok::<Option<Token>, FormatError>(Some(token)),
{
    let written = stream.subrange(position, position + token.encoded_len());
    assert(written[0] == stream[position]);
    assert(written[1] == stream[position + 1]);
    if token is Match {
        assert(written[2] == stream[position + 2]);
    }
}

} // verus!
