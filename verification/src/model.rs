//! The mathematical model of the encoding: what the encoding of a byte
//! sequence is, and what decoding a text gives.
use vstd::prelude::*;

use crate::alphabet::{alphabet, char85_value};
use crate::error::Error;

verus! {

/// The weight `85^(4 - k)` of the `k`-th character of a group of five.
pub open spec fn place(k: int) -> nat {
    if k == 0 {
        52200625
    } else if k == 1 {
        614125
    } else if k == 2 {
        7225
    } else if k == 3 {
        85
    } else {
        1
    }
}

/// The `k`-th base-85 digit of `v`, the most significant (`k == 0`) first.
pub open spec fn digit(v: nat, k: int) -> nat {
    (v / place(k)) % 85
}

/// Byte `i` of `data`, or zero past its end.
pub open spec fn byte_or_zero(data: Seq<u8>, i: int) -> nat {
    if 0 <= i < data.len() {
        data[i] as nat
    } else {
        0
    }
}

/// The big-endian value of the `g`-th group of four bytes of `data`, padded
/// with zero bytes at the end of the data.
pub open spec fn group_value(data: Seq<u8>, g: int) -> nat {
    byte_or_zero(data, 4 * g) * 16777216 + byte_or_zero(data, 4 * g + 1) * 65536 + byte_or_zero(
        data,
        4 * g + 2,
    ) * 256 + byte_or_zero(data, 4 * g + 3)
}

/// The length of the encoding of `n` bytes: five characters per group of
/// four bytes, and one more character than there are bytes in a last, shorter
/// group.
pub open spec fn encoded_len(n: nat) -> nat {
    5 * (n / 4) + if n % 4 == 0 {
        0
    } else {
        n % 4 + 1
    }
}

/// The number of bytes that `m` significant characters decode to: four per
/// group of five characters, and one less than there are characters in a
/// last, shorter group.
pub open spec fn decoded_len(m: nat) -> nat {
    4 * (m / 5) + if m % 5 == 0 {
        0
    } else {
        (m % 5 - 1) as nat
    }
}

/// Character `j` of the encoding of `data`.
pub open spec fn encoded_char(data: Seq<u8>, j: int) -> u8 {
    alphabet()[digit(group_value(data, j / 5), j % 5) as int]
}

/// The encoding of `data`: each group of four bytes, read as a big-endian
/// number, becomes its five base-85 digits written with the alphabet; a last
/// group of `r < 4` bytes is padded with zero bytes and only its first `r + 1`
/// digits are written.
pub open spec fn encoded(data: Seq<u8>) -> Seq<u8> {
    Seq::new(encoded_len(data.len()), |j: int| encoded_char(data, j))
}

/// The bytes of a text that holds only ASCII characters, as characters.
pub open spec fn as_text(bytes: Seq<u8>) -> Seq<char> {
    bytes.map_values(|b: u8| b as char)
}

/// The whitespace that decoding skips: tab, line feed, carriage return and
/// space.
pub open spec fn is_whitespace(c: u8) -> bool {
    c == 9 || c == 10 || c == 13 || c == 32
}

/// The characters of `text` that decoding reads: all but the whitespace.
pub open spec fn significant(text: Seq<u8>) -> Seq<u8> {
    text.filter(|c: u8| !is_whitespace(c))
}

/// What the `k`-th character of a group of significant characters
/// contributes before it is weighted: its digit value; where the group has
/// only one character, a missing second one is an unexpected end; missing
/// later characters count as the digit value 126.
pub open spec fn group_digit(grp: Seq<u8>, k: int) -> Result<nat, Error> {
    if k < grp.len() {
        match char85_value(grp[k]) {
            Some(d) => Ok(d as nat),
            None => Err(Error::InvalidCharacter(grp[k])),
        }
    } else if k == 1 {
        Err(Error::UnexpectedEof)
    } else {
        Ok(126)
    }
}

/// The value of a group, summed from its `k`-th character on onto `acc`, one
/// character after the other, each weighted by its place: the first error
/// met, or `None` where a partial sum exceeds `u32::MAX`.
pub open spec fn group_eval(grp: Seq<u8>, k: int, acc: nat) -> Option<Result<nat, Error>>
    decreases 5 - k,
{
    if k >= 5 {
        Some(Ok(acc))
    } else {
        match group_digit(grp, k) {
            Err(e) => Some(Err(e)),
            Ok(d) => {
                let s = acc + d * place(k);
                if s > u32::MAX {
                    None
                } else {
                    group_eval(grp, k + 1, s)
                }
            },
        }
    }
}

/// The four big-endian bytes of `v`.
pub open spec fn be_bytes(v: nat) -> Seq<u8> {
    seq![
        (v / 16777216 % 256) as u8,
        (v / 65536 % 256) as u8,
        (v / 256 % 256) as u8,
        (v % 256) as u8,
    ]
}

/// Decoding the significant characters `s`, group of five by group of five:
/// each group gives the four bytes of its value, a last group of `r < 5`
/// characters the first `r - 1` of them. The first group that fails decides
/// the error; `None` stands for a group whose sum overflows 32 bits.
pub open spec fn decoded(s: Seq<u8>) -> Option<Result<Seq<u8>, Error>>
    decreases s.len(),
{
    if s.len() == 0 {
        Some(Ok(Seq::empty()))
    } else if s.len() < 5 {
        match group_eval(s, 0, 0) {
            None => None,
            Some(Err(e)) => Some(Err(e)),
            Some(Ok(v)) => Some(Ok(be_bytes(v).take(s.len() - 1))),
        }
    } else {
        match group_eval(s.take(5), 0, 0) {
            None => None,
            Some(Err(e)) => Some(Err(e)),
            Some(Ok(v)) => match decoded(s.skip(5)) {
                Some(Ok(rest)) => Some(Ok(be_bytes(v) + rest)),
                other => other,
            },
        }
    }
}

/// The bytes that decoding the significant characters `s` writes before it
/// stops: those of every group up to the first one that fails, or of all the
/// groups where none fails.
pub open spec fn decoded_prefix(s: Seq<u8>) -> Seq<u8>
    decreases s.len(),
{
    if s.len() == 0 {
        Seq::empty()
    } else if s.len() < 5 {
        match group_eval(s, 0, 0) {
            Some(Ok(v)) => be_bytes(v).take(s.len() - 1),
            _ => Seq::empty(),
        }
    } else {
        match group_eval(s.take(5), 0, 0) {
            Some(Ok(v)) => be_bytes(v) + decoded_prefix(s.skip(5)),
            _ => Seq::empty(),
        }
    }
}

/// What decoding gives has the length that `decoded_len` computes.
pub proof fn lemma_decoded_len(s: Seq<u8>)
    ensures
        decoded(s) matches Some(Ok(bytes)) ==> bytes.len() == decoded_len(s.len()),
    decreases s.len(),
{
    if s.len() >= 5 {
        lemma_decoded_len(s.skip(5));
    }
}

/// Decoding `s` fails or succeeds without any 32-bit overflow.
pub open spec fn decodes_without_overflow(s: Seq<u8>) -> bool {
    decoded(s) is Some
}

} // verus!
