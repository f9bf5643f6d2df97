//! Base85 encoding and decoding with the character set of RFC 1924.
//!
//! `encode` turns bytes into text, `decode` turns text back into bytes;
//! `encode_noalloc` and `decode_noalloc` do the same into a buffer that the
//! caller provides. While decoding, ASCII whitespace (`\n`, `\r`, `\t`, space)
//! is ignored. Decoding requires that no group sum exceeds `u32::MAX`;
//! `can_decode_without_overflow` tells whether a text meets that.

pub mod alphabet;
mod decoder;
mod encoder;
mod error;
mod lengths;
pub mod model;
mod text;

pub mod behaviour;
pub mod laws;

pub use alphabet::{generate_rfc1924_decode_table, RFC1924_ALPHABET, RFC1924_ALPHABET_LEN};
pub use decoder::{can_decode_without_overflow, decode, decode_noalloc};
pub use encoder::{encode, encode_noalloc};
pub use error::Error;
pub use lengths::{calc_decode_len, calc_encode_len};

use vstd::prelude::*;

verus! {

/// The result of the fallible operations of this crate.
pub type Result<T> = core::result::Result<T, Error>;

} // verus!
