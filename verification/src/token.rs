//! The token vocabulary of the codec and its error type.

use vstd::prelude::*;

verus! {

/// Largest match length a single token can carry: lengths are capped to an
/// 8-bit range, so a longer run is covered by several tokens.
pub const MAX_MATCH_LENGTH: u8 = 255;

/// Largest backward distance a match token can carry: the match search only
/// scans a window of this many bytes before the cursor, so every distance it
/// reports is representable.
pub const MAX_MATCH_DISTANCE: u8 = 255;

/// One encoded unit: either a literal byte or a back-reference copy
/// instruction.
///
/// A literal carries `length == 0`, `distance == 0` and the byte to emit in
/// `char`. A match carries `length >= 1` and `distance >= 1`; its `char`
/// field is unused and set to zero by the encoder. The decoder tells the two
/// apart by `length` alone and rejects a nonzero `length` paired with a
/// `distance` that is zero or reaches back before the start of the output.
#[derive(Debug, Clone, Copy, PartialEq, Eq, Structural)]
pub struct LZ77Token {
    pub length: usize,
    pub distance: usize,
    pub char: u8,
}

/// The literal token that emits byte `b`.
pub open spec fn literal_token(b: u8) -> LZ77Token {
    LZ77Token { length: 0, distance: 0, char: b }
}

/// The match token that copies `length` bytes starting `distance` bytes
/// before the current end of the output.
pub open spec fn match_token(distance: u8, length: u8) -> LZ77Token {
    LZ77Token { length: length as usize, distance: distance as usize, char: 0 }
}

/// What decoding can report instead of a byte sequence.
#[derive(Debug, Clone, Copy, PartialEq, Eq, Structural)]
pub enum LZ77Error {
    /// A match token reaches back past the start of the output produced so
    /// far, or carries a nonzero length with a zero distance.
    InvalidBackReference,
}

} // verus!
