//! The sizes of encoded and decoded data.
use vstd::prelude::*;

use crate::model::{decoded_len, encoded_len};

verus! {

/// The length of the encoding of `indata_bytes_len` bytes: the size of the
/// output buffer that encoding needs.
pub fn calc_encode_len(indata_bytes_len: usize) -> (len: usize)
    requires
        encoded_len(indata_bytes_len as nat) <= usize::MAX,
    ensures
        len == encoded_len(indata_bytes_len as nat),
{
    let chunks_num = indata_bytes_len / 4;
    let remain = indata_bytes_len - chunks_num * 4;
    if remain == 0 {
        chunks_num * 5
    } else {
        chunks_num * 5 + remain + 1
    }
}

/// The number of bytes that `indata_bytes_len` significant characters decode
/// to: the size of the output buffer that decoding needs.
pub fn calc_decode_len(indata_bytes_len: usize) -> (len: usize)
    ensures
        len == decoded_len(indata_bytes_len as nat),
        len <= indata_bytes_len,
{
    let chunks_num = indata_bytes_len / 5;
    let remain = indata_bytes_len - chunks_num * 5;
    if remain == 0 {
        chunks_num * 4
    } else {
        chunks_num * 4 + remain - 1
    }
}

} // verus!
