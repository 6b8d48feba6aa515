//! Byte-stream compression with two codecs: LZ77 over a sliding history
//! window, and run-length encoding.
//!
//! Each codec turns a sequence of bytes into a stream that starts with the
//! codec's magic byte, and turns such a stream back into the bytes. What a
//! codec produces is stated by a function on sequences (`lz_encoding`,
//! `lz_decoding`, `rle_encoding`, `rle_decoding`); the executable functions
//! are proved to compute it, and decoding is proved to undo encoding.
//!
//! Input that is at hand as a whole goes through the functions of [`lz`] and
//! [`rle`]. Input that comes piece by piece goes through an encoder or a
//! decoder, a state machine that keeps no more than the history window and
//! the bytes it cannot yet decide on; however the input is cut, the result
//! is that of the whole.
//!
//! The parts of the LZ77 codec are modules of their own: the history
//! [`window`], the [`matcher`] that searches it, and the [`token`]s of the
//! wire format.

mod buffer;
pub mod detect;
pub mod error;
pub mod lz;
pub mod lz_decoder;
pub mod lz_encoder;
pub mod lz_laws;
pub mod matcher;
pub mod rle;
pub mod rle_decoder;
pub mod rle_encoder;
pub mod rle_laws;
pub mod token;
pub mod window;
