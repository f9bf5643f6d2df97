//! The RFC 1924 character set: digit values 0 to 84 and their characters.
use vstd::prelude::*;

use crate::error::Error;

verus! {

/// The number of characters in the alphabet.
pub const RFC1924_ALPHABET_LEN: usize = 85;

/// The characters of the alphabet, by digit value: `0`-`9`, `A`-`Z`, `a`-`z`,
/// then ``!#$%&()*+-;<=>?@^_`{|}~``.
pub const RFC1924_ALPHABET: [u8; 85] = [
    48, 49, 50, 51, 52, 53, 54, 55, 56, 57,
    65, 66, 67, 68, 69, 70, 71, 72, 73, 74, 75, 76, 77, 78, 79, 80, 81, 82, 83, 84, 85, 86, 87, 88,
    89, 90,
    97, 98, 99, 100, 101, 102, 103, 104, 105, 106, 107, 108, 109, 110, 111, 112, 113, 114, 115, 116,
    117, 118, 119, 120, 121, 122,
    33, 35, 36, 37, 38, 40, 41, 42, 43, 45, 59, 60, 61, 62, 63, 64, 94, 95, 96, 123, 124, 125, 126,
];

/// The alphabet as a sequence.
pub open spec fn alphabet() -> Seq<u8> {
    RFC1924_ALPHABET@
}

/// `d` is the digit value of the character `c`.
pub open spec fn is_digit_of(c: u8, d: int) -> bool {
    0 <= d < 85 && alphabet()[d] == c
}

/// The digit value of `c`: its position in the alphabet, if it is there.
pub open spec fn char85_value(c: u8) -> Option<u8> {
    if exists|d: int| is_digit_of(c, d) {
        Some((choose|d: int| is_digit_of(c, d)) as u8)
    } else {
        None
    }
}

/// The position of `c` in the alphabet, by ranges of ASCII codes.
spec fn position_by_range(c: u8) -> Option<u8> {
    if 48 <= c <= 57 {
        Some((c - 48) as u8)
    } else if 65 <= c <= 90 {
        Some((c - 55) as u8)
    } else if 97 <= c <= 122 {
        Some((c - 61) as u8)
    } else if c == 33 {
        Some(62)
    } else if c == 35 {
        Some(63)
    } else if c == 36 {
        Some(64)
    } else if c == 37 {
        Some(65)
    } else if c == 38 {
        Some(66)
    } else if c == 40 {
        Some(67)
    } else if c == 41 {
        Some(68)
    } else if c == 42 {
        Some(69)
    } else if c == 43 {
        Some(70)
    } else if c == 45 {
        Some(71)
    } else if c == 59 {
        Some(72)
    } else if c == 60 {
        Some(73)
    } else if c == 61 {
        Some(74)
    } else if c == 62 {
        Some(75)
    } else if c == 63 {
        Some(76)
    } else if c == 64 {
        Some(77)
    } else if c == 94 {
        Some(78)
    } else if c == 95 {
        Some(79)
    } else if c == 96 {
        Some(80)
    } else if c == 123 {
        Some(81)
    } else if c == 124 {
        Some(82)
    } else if c == 125 {
        Some(83)
    } else if c == 126 {
        Some(84)
    } else {
        None
    }
}

proof fn lemma_position_by_range_inverts_alphabet()
    ensures
        forall|i: int|
            0 <= i < 85 ==> position_by_range(#[trigger] alphabet()[i]) == Some(i as u8),
        forall|c: u8|
            #[trigger] position_by_range(c) matches Some(d) ==> d < 85 && alphabet()[d as int]
                == c,
{
}

/// The digit value of a character is found by ranges of ASCII codes.
proof fn lemma_char85_value_by_range(c: u8)
    ensures
        char85_value(c) == position_by_range(c),
{
    lemma_position_by_range_inverts_alphabet();
    if exists|d: int| is_digit_of(c, d) {
        let d = choose|d: int| is_digit_of(c, d);
        assert(position_by_range(alphabet()[d]) == Some(d as u8));
    } else {
        if let Some(d) = position_by_range(c) {
            assert(is_digit_of(c, d as int));
        }
    }
}

/// Each character of the alphabet has its position as digit value, and every
/// character of the alphabet is printable ASCII, never whitespace.
pub proof fn lemma_alphabet_digits()
    ensures
        forall|i: int| 0 <= i < 85 ==> char85_value(#[trigger] alphabet()[i]) == Some(i as u8),
        forall|i: int| 0 <= i < 85 ==> 33 <= #[trigger] alphabet()[i] <= 126,
        forall|c: u8|
            #[trigger] char85_value(c) is Some ==> is_digit_of(c, char85_value(c).unwrap() as int),
{
    lemma_position_by_range_inverts_alphabet();
    assert forall|i: int| 0 <= i < 85 implies char85_value(#[trigger] alphabet()[i]) == Some(
        i as u8,
    ) by {
        lemma_char85_value_by_range(alphabet()[i]);
    }
    assert forall|c: u8| #[trigger] char85_value(c) is Some implies is_digit_of(
        c,
        char85_value(c).unwrap() as int,
    ) by {
        lemma_char85_value_by_range(c);
    }
}

/// The character of the digit value `x85`.
pub(crate) fn byte_to_char85(x85: u8) -> (c: u8)
    requires
        x85 < 85,
    ensures
        c == alphabet()[x85 as int],
{
    RFC1924_ALPHABET[x85 as usize]
}

/// The digit value of `c`, or `InvalidCharacter(c)` where `c` is not in the
/// alphabet.
pub(crate) fn direct_char85_to_byte(c: u8) -> (res: Result<u8, Error>)
    ensures
        res == (match char85_value(c) {
            Some(d) => Ok(d),
            None => Err(Error::InvalidCharacter(c)),
        }),
{
    proof {
        lemma_char85_value_by_range(c);
    }
    if 48 <= c && c <= 57 {
        Ok(c - 48)
    } else if 65 <= c && c <= 90 {
        Ok(c - 55)
    } else if 97 <= c && c <= 122 {
        Ok(c - 61)
    } else {
        match c {
            33 => Ok(62),
            35 => Ok(63),
            36 => Ok(64),
            37 => Ok(65),
            38 => Ok(66),
            40 => Ok(67),
            41 => Ok(68),
            42 => Ok(69),
            43 => Ok(70),
            45 => Ok(71),
            59 => Ok(72),
            60 => Ok(73),
            61 => Ok(74),
            62 => Ok(75),
            63 => Ok(76),
            64 => Ok(77),
            94 => Ok(78),
            95 => Ok(79),
            96 => Ok(80),
            123 => Ok(81),
            124 => Ok(82),
            125 => Ok(83),
            126 => Ok(84),
            _ => Err(Error::InvalidCharacter(c)),
        }
    }
}

/// The digit value of `c`, or `InvalidCharacter(c)` where `c` is not in the
/// alphabet.
pub(crate) fn char85_to_byte(c: u8) -> (res: Result<u8, Error>)
    ensures
        res == (match char85_value(c) {
            Some(d) => Ok(d),
            None => Err(Error::InvalidCharacter(c)),
        }),
{
    direct_char85_to_byte(c)
}

/// The decoding table: entry `c` holds the digit value of the character `c`,
/// or `None` where `c` is not in the alphabet.
pub fn generate_rfc1924_decode_table() -> (table: [Option<u8>; 256])
    ensures
        forall|c: int| 0 <= c < 256 ==> #[trigger] table@[c] == char85_value(c as u8),
{
    let mut table: [Option<u8>; 256] = [None; 256];
    let mut i: usize = 0;
    proof {
        lemma_alphabet_digits();
    }
    while i < RFC1924_ALPHABET_LEN
        invariant
            i <= 85,
            forall|c: int|
                0 <= c < 256 ==> #[trigger] table@[c] == (if char85_value(c as u8) matches Some(
                    d,
                ) && d < i {
                    char85_value(c as u8)
                } else {
                    None
                }),
            forall|j: int| 0 <= j < 85 ==> char85_value(#[trigger] alphabet()[j]) == Some(j as u8),
            forall|c: u8|
                #[trigger] char85_value(c) is Some ==> is_digit_of(
                    c,
                    char85_value(c).unwrap() as int,
                ),
        decreases 85 - i,
    {
        let c = RFC1924_ALPHABET[i];
        table[c as usize] = Some(i as u8);
        proof {
            assert(char85_value(alphabet()[i as int]) == Some(i as u8));
            assert forall|x: int| 0 <= x < 256 implies #[trigger] table@[x] == (if char85_value(
                x as u8,
            ) matches Some(d) && d < i + 1 {
                char85_value(x as u8)
            } else {
                None
            }) by {
                if x == c as int {
                } else {
                    if let Some(d) = char85_value(x as u8) {
                        if d == i {
                            assert(is_digit_of(x as u8, d as int));
                        }
                    }
                }
            }
        }
        i = i + 1;
    }
    proof {
        assert forall|c: int| 0 <= c < 256 implies #[trigger] table@[c] == char85_value(
            c as u8,
        ) by {
            if let Some(d) = char85_value(c as u8) {
                assert(is_digit_of(c as u8, d as int));
            }
        }
    }
    table
}

} // verus!
