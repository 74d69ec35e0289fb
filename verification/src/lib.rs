//! A minimal LZ77-family compressor/decompressor.
//!
//! The encoder turns a byte sequence into a sequence of tokens, each either a
//! literal byte or a back-reference (length, distance) into the output
//! produced so far; the decoder replays the tokens to reconstruct the
//! original bytes. The match search, the encode loop and the decode loop are
//! verified: encoding any input yields a token sequence that decodes back to
//! that input.

pub mod codec;
pub mod model;
pub mod token;

pub use codec::LZ77Algorithm;
pub use token::LZ77Error;
pub use token::LZ77Token;
