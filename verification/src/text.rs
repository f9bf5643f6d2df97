//! Conversions of byte buffers that the standard library performs.
use vstd::prelude::*;

verus! {

/// Views ASCII bytes as a string slice, with `core::str::from_utf8`.
/// ASCII is valid UTF-8, so `from_utf8` returns the string whose characters
/// are the bytes, one for one.
#[verifier::external_body]
pub(crate) fn ascii_str(bytes: &[u8]) -> (s: &str)
    requires
        forall|i: int| 0 <= i < bytes@.len() ==> bytes@[i] < 128,
    ensures
        s@ == bytes@.map_values(|b: u8| b as char),
{
    match core::str::from_utf8(bytes) {
        Ok(s) => s,
        Err(_) => "",
    }
}

/// The first `n` elements of a mutable slice, as a mutable slice of their
/// own (`&mut s[..n]`, the `IndexMut` of a `RangeTo`): it holds those
/// elements, and what is written through it ends up in the first `n`
/// elements of `s`, while the rest of `s` stays as it is.
#[verifier::external_body]
pub(crate) fn prefix_mut(s: &mut [u8], n: usize) -> (r: &mut [u8])
    requires
        n <= old(s)@.len(),
    ensures
        r@ == old(s)@.take(n as int),
        final(r)@.len() == n,
        final(s)@ == final(r)@ + old(s)@.skip(n as int),
{
    &mut s[..n]
}

} // verus!
