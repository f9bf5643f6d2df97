//! Encoding bytes into RFC 1924 base85 text.
use vstd::prelude::*;
use vstd::string::*;
use vstd::utf8::{encode_utf8, is_ascii_chars, is_ascii_chars_encode_utf8};

use crate::alphabet::{alphabet, byte_to_char85, lemma_alphabet_digits};
use crate::error::Error;
use crate::lengths::calc_encode_len;
use crate::model::{as_text, digit, encoded, encoded_char, encoded_len, group_value};
use crate::text::ascii_str;

verus! {

/// The UTF-8 bytes of a text made of ASCII bytes are those bytes.
proof fn lemma_ascii_text_bytes(bytes: Seq<u8>)
    requires
        forall|i: int| 0 <= i < bytes.len() ==> bytes[i] < 128,
    ensures
        encode_utf8(as_text(bytes)) == bytes,
{
    let chars = as_text(bytes);
    assert(is_ascii_chars(chars));
    is_ascii_chars_encode_utf8(chars);
    assert(encode_utf8(chars) =~= bytes);
}

/// The digits of a value below `2^32`, computed as the encoder does: the
/// first by division alone, each other one from the remainder that the
/// previous place leaves.
proof fn lemma_digits(v: nat)
    requires
        v < 4294967296,
    ensures
        v / 52200625 == digit(v, 0),
        (v % 52200625) / 614125 == digit(v, 1),
        (v % 614125) / 7225 == digit(v, 2),
        (v % 7225) / 85 == digit(v, 3),
        v % 85 == digit(v, 4),
        forall|k: int| 0 <= k < 5 ==> #[trigger] digit(v, k) < 85,
{
    let x = v as int;
    assert(v / 52200625 < 85);
    vstd::arithmetic::div_mod::lemma_mod_breakdown(x, 614125, 85);
    vstd::arithmetic::div_mod::lemma_mod_breakdown(x, 7225, 85);
    vstd::arithmetic::div_mod::lemma_mod_breakdown(x, 85, 85);
    vstd::arithmetic::div_mod::lemma_fundamental_div_mod_converse_div(
        x % 52200625,
        614125,
        (x / 614125) % 85,
        x % 614125,
    );
    vstd::arithmetic::div_mod::lemma_fundamental_div_mod_converse_div(
        x % 614125,
        7225,
        (x / 7225) % 85,
        x % 7225,
    );
    vstd::arithmetic::div_mod::lemma_fundamental_div_mod_converse_div(
        x % 7225,
        85,
        (x / 85) % 85,
        x % 85,
    );
}

/// Writes the first `count` base-85 digits of `decnum`, as characters of the
/// alphabet, at `pos` in `out`.
fn write_group(decnum: u32, out: &mut [u8], pos: usize, count: usize)
    requires
        pos + count <= old(out)@.len(),
        2 <= count <= 5,
    ensures
        final(out)@.len() == old(out)@.len(),
        forall|j: int|
            0 <= j < old(out)@.len() ==> #[trigger] final(out)@[j] == if pos <= j < pos + count {
                alphabet()[digit(decnum as nat, j - pos) as int]
            } else {
                old(out)@[j]
            },
{
    proof {
        lemma_digits(decnum as nat);
    }
    out[pos] = byte_to_char85((decnum / 52200625) as u8);
    out[pos + 1] = byte_to_char85(((decnum % 52200625) / 614125) as u8);
    if count > 2 {
        out[pos + 2] = byte_to_char85(((decnum % 614125) / 7225) as u8);
    }
    if count > 3 {
        out[pos + 3] = byte_to_char85(((decnum % 7225) / 85) as u8);
    }
    if count > 4 {
        out[pos + 4] = byte_to_char85((decnum % 85) as u8);
    }
}

/// Encodes `indata` into `out`, whose first `final_encoded_len` bytes receive
/// the encoding.
fn encode_noalloc_inner<'a>(indata: &[u8], final_encoded_len: usize, out: &'a mut [u8]) -> (res:
    Result<&'a str, Error>)
    requires
        final_encoded_len == encoded_len(indata@.len()),
    ensures
        final(out)@.len() == old(out)@.len(),
        old(out)@.len() < final_encoded_len ==> res == Err::<&str, Error>(
            Error::OutputBufferTooSmall,
        ) && final(out)@ == old(out)@,
        old(out)@.len() >= final_encoded_len ==> (res matches Ok(s) && s@ == as_text(
            encoded(indata@),
        ) && s.spec_bytes() == encoded(indata@) && final(out)@ == encoded(indata@) + old(out)@.skip(final_encoded_len as int)),
{
    if out.len() < final_encoded_len {
        return Err(Error::OutputBufferTooSmall);
    }
    let chunks_num = indata.len() / 4;
    let mut i: usize = 0;
    while i < chunks_num
        invariant
            chunks_num == indata@.len() / 4,
            i <= chunks_num,
            final_encoded_len == encoded_len(indata@.len()),
            final_encoded_len <= old(out)@.len(),
            out@.len() == old(out)@.len(),
            forall|j: int| 0 <= j < 5 * i ==> #[trigger] out@[j] == encoded_char(indata@, j),
            forall|j: int| 5 * i <= j < out@.len() ==> #[trigger] out@[j] == old(out)@[j],
        decreases chunks_num - i,
    {
        let p = 4 * i;
        let decnum = (indata[p] as u32) * 16777216 + (indata[p + 1] as u32) * 65536 + (indata[p
            + 2] as u32) * 256 + indata[p + 3] as u32;
        assert(decnum == group_value(indata@, i as int));
        write_group(decnum, out, 5 * i, 5);
        assert forall|j: int| 0 <= j < 5 * (i + 1) implies #[trigger] out@[j] == encoded_char(
            indata@,
            j,
        ) by {
            if j >= 5 * i {
                assert(j / 5 == i);
                assert(j % 5 == j - 5 * i);
            }
        }
        i = i + 1;
    }
    let remain = indata.len() - 4 * chunks_num;
    if remain > 0 {
        let p = 4 * chunks_num;
        let b: u8 = if remain > 1 {
            indata[p + 1]
        } else {
            0
        };
        let c: u8 = if remain > 2 {
            indata[p + 2]
        } else {
            0
        };
        let decnum = (indata[p] as u32) * 16777216 + (b as u32) * 65536 + (c as u32) * 256;
        assert(decnum == group_value(indata@, chunks_num as int));
        write_group(decnum, out, 5 * chunks_num, remain + 1);
        assert forall|j: int| 0 <= j < final_encoded_len implies #[trigger] out@[j]
            == encoded_char(indata@, j) by {
            if j >= 5 * chunks_num {
                assert(j / 5 == chunks_num);
                assert(j % 5 == j - 5 * chunks_num);
            }
        }
    }
    let ghost enc = encoded(indata@);
    assert(out@ =~= enc + old(out)@.skip(final_encoded_len as int));
    let encoded_part: &'a [u8] = &out[0..final_encoded_len];
    assert(encoded_part@ =~= enc);
    proof {
        lemma_alphabet_digits();
        assert forall|j: int| 0 <= j < encoded_part@.len() implies encoded_part@[j] < 128 by {
            lemma_digits(group_value(indata@, j / 5));
            assert(digit(group_value(indata@, j / 5), j % 5) < 85);
        }
    }
    let s = ascii_str(encoded_part);
    proof {
        lemma_ascii_text_bytes(enc);
    }
    Ok(s)
}

/// Encodes `indata` into `out` without allocating: the first
/// `calc_encode_len(indata.len())` bytes of `out` receive the encoding, and the
/// returned string is that part of `out`. Where `out` is shorter, nothing is
/// written and `OutputBufferTooSmall` is returned.
pub fn encode_noalloc<'a>(indata: &[u8], out: &'a mut [u8]) -> (res: Result<&'a str, Error>)
    requires
        encoded_len(indata@.len()) <= usize::MAX,
    ensures
        final(out)@.len() == old(out)@.len(),
        old(out)@.len() < encoded_len(indata@.len()) ==> res == Err::<&str, Error>(
            Error::OutputBufferTooSmall,
        ) && final(out)@ == old(out)@,
        old(out)@.len() >= encoded_len(indata@.len()) ==> (res matches Ok(s) && s@ == as_text(
            encoded(indata@),
        ) && s.spec_bytes() == encoded(indata@) && final(out)@ == encoded(indata@) + old(out)@.skip(encoded_len(indata@.len()) as int)),
{
    let final_encoded_len = calc_encode_len(indata.len());
    encode_noalloc_inner(indata, final_encoded_len, out)
}

/// The encoding of `indata`, in a newly allocated string.
pub fn encode(indata: &[u8]) -> (s: String)
    requires
        encoded_len(indata@.len()) <= usize::MAX,
    ensures
        s@ == as_text(encoded(indata@)),
        encode_utf8(s@) == encoded(indata@),
{
    let final_encoded_len = calc_encode_len(indata.len());
    let mut out: Vec<u8> = vec![0u8; final_encoded_len];
    let text = match encode_noalloc_inner(indata, final_encoded_len, out.as_mut_slice()) {
        Ok(t) => t,
        Err(_) => {
            assert(false);
            ""
        },
    };
    String::from_str(text)
}

} // verus!
