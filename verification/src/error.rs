use vstd::prelude::*;

verus! {

/// Why an encoding or decoding call failed.
#[derive(Debug, Clone, Copy, PartialEq, Eq, Structural)]
pub enum Error {
    /// The encoded text ends in the middle of a group (one significant
    /// character left over).
    UnexpectedEof,
    /// A byte of the encoded text is neither a character of the alphabet nor
    /// whitespace.
    InvalidCharacter(u8),
    /// The output buffer cannot hold the result.
    OutputBufferTooSmall,
}

} // verus!
