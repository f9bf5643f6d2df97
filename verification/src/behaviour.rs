//! What encoding and decoding do, stated directly over bytes, the alphabet
//! constant and plain arithmetic: each law pins the model that the functions'
//! contracts speak of, without going through its definitions.
use vstd::prelude::*;

use crate::alphabet::{alphabet, char85_value, lemma_alphabet_digits, RFC1924_ALPHABET};
use crate::error::Error;
use crate::model::{
    byte_or_zero, decoded, decoded_len, decoded_prefix, digit, encoded, encoded_len, group_eval,
    group_value, is_whitespace, lemma_decoded_len, place, significant,
};

verus! {

/// The encoding of `n` bytes has `ceil(5n / 4)` characters: five per whole
/// group of four bytes, `r + 1` for a last group of `r` bytes.
pub proof fn law_encoded_length(data: Seq<u8>)
    ensures
        encoded(data).len() == 5 * (data.len() / 4) + if data.len() % 4 == 0 {
            0
        } else {
            data.len() % 4 + 1
        },
        encoded(data).len() == (5 * data.len() + 3) / 4,
{
}

/// Character `j` of an encoding is the alphabet character of base-85 digit
/// `j % 5` (most significant first) of the big-endian value of bytes
/// `4 * (j / 5)` to `4 * (j / 5) + 3`, zero bytes standing in past the end.
pub proof fn law_encoded_character(data: Seq<u8>, j: int)
    requires
        0 <= j < encoded(data).len(),
    ensures
        ({
            let g = j / 5;
            let k = j % 5;
            let byte = |i: int|
                if i < data.len() {
                    data[i] as int
                } else {
                    0int
                };
            let value = byte(4 * g) * 16777216 + byte(4 * g + 1) * 65536 + byte(4 * g + 2) * 256
                + byte(4 * g + 3);
            let weight = if k == 0 {
                52200625int
            } else if k == 1 {
                614125int
            } else if k == 2 {
                7225int
            } else if k == 3 {
                85int
            } else {
                1int
            };
            encoded(data)[j] == RFC1924_ALPHABET@[(value / weight) % 85]
        }),
{
    let g = j / 5;
    let k = j % 5;
    assert(0 <= g && 4 * g < data.len());
    assert(group_value(data, g) == byte_or_zero(data, 4 * g) * 16777216 + byte_or_zero(
        data,
        4 * g + 1,
    ) * 65536 + byte_or_zero(data, 4 * g + 2) * 256 + byte_or_zero(data, 4 * g + 3));
}

/// Decoding reads every byte but tab, line feed, carriage return and space:
/// each other byte of a text is one of its significant characters, in place.
pub proof fn law_significant_characters(before: Seq<u8>, c: u8, after: Seq<u8>)
    ensures
        significant(Seq::<u8>::empty()) == Seq::<u8>::empty(),
        significant(before + seq![c] + after) == significant(before) + (if c == 9 || c == 10
            || c == 13 || c == 32 {
            Seq::<u8>::empty()
        } else {
            seq![c]
        }) + significant(after),
{
    let p = |x: u8| !is_whitespace(x);
    reveal_with_fuel(Seq::filter, 2);
    assert(Seq::<u8>::empty().filter(p) =~= Seq::<u8>::empty());
    Seq::filter_distributes_over_add(before + seq![c], after, p);
    Seq::filter_distributes_over_add(before, seq![c], p);
    assert(seq![c].drop_last() =~= Seq::<u8>::empty());
    if is_whitespace(c) {
        assert(seq![c].filter(p) =~= Seq::<u8>::empty());
    } else {
        assert(seq![c].filter(p) =~= seq![c]);
    }
}

/// Decoding one group of one to five characters of the alphabet, whose
/// digit values are `d`: the characters, weighted by `85^4` down to `1`, with
/// missing ones counted as the digit value 126, sum to a value whose
/// big-endian bytes, one fewer than there are characters, are the result. A
/// sum above `u32::MAX` is the overflow the decoder excludes; a single
/// character is an unexpected end, once its own weighted value fits.
pub proof fn law_decode_one_group(g: Seq<u8>, d: Seq<int>)
    requires
        1 <= g.len() <= 5,
        d.len() == g.len(),
        forall|k: int| 0 <= k < g.len() ==> 0 <= #[trigger] d[k] < 85 && RFC1924_ALPHABET@[d[k]] == g[k],
    ensures
        ({
            let digit_at = |k: int|
                if k < g.len() {
                    d[k]
                } else {
                    126int
                };
            let value = digit_at(0) * 52200625 + digit_at(1) * 614125 + digit_at(2) * 7225
                + digit_at(3) * 85 + digit_at(4);
            let bytes = seq![
                (value / 16777216 % 256) as u8,
                (value / 65536 % 256) as u8,
                (value / 256 % 256) as u8,
                (value % 256) as u8,
            ];
            &&& g.len() == 1 ==> decoded(g) == (if d[0] * 52200625 > u32::MAX {
                None
            } else {
                Some(Err::<Seq<u8>, Error>(Error::UnexpectedEof))
            })
            &&& g.len() >= 2 && value > u32::MAX ==> decoded(g) is None
            &&& g.len() >= 2 && value <= u32::MAX ==> decoded(g) == Some(
                Ok::<Seq<u8>, Error>(bytes.take(g.len() - 1)),
            )
        }),
{
    lemma_alphabet_digits();
    assert forall|k: int| 0 <= k < g.len() implies char85_value(#[trigger] g[k]) == Some(
        d[k] as u8,
    ) by {
        assert(g[k] == alphabet()[d[k]]);
    }
    let len = g.len() as int;
    let e0 = d[0];
    let e1 = if 1 < len { d[1] } else { 126int };
    let e2 = if 2 < len { d[2] } else { 126int };
    let e3 = if 3 < len { d[3] } else { 126int };
    let e4 = if 4 < len { d[4] } else { 126int };
    let grp = if len == 5 { g.take(5) } else { g };
    assert(grp =~= g);
    let value = e0 * 52200625 + e1 * 614125 + e2 * 7225 + e3 * 85 + e4;
    let p0 = e0 * 52200625;
    let p1 = p0 + e1 * 614125;
    let p2 = p1 + e2 * 7225;
    let p3 = p2 + e3 * 85;
    assert(crate::model::group_digit(g, 0) == Ok::<nat, Error>(e0 as nat));
    assert(len >= 2 ==> crate::model::group_digit(g, 1) == Ok::<nat, Error>(e1 as nat));
    assert(len == 1 ==> crate::model::group_digit(g, 1) == Err::<nat, Error>(Error::UnexpectedEof));
    assert(crate::model::group_digit(g, 2) == Ok::<nat, Error>(e2 as nat));
    assert(crate::model::group_digit(g, 3) == Ok::<nat, Error>(e3 as nat));
    assert(crate::model::group_digit(g, 4) == Ok::<nat, Error>(e4 as nat));
    assert(group_eval(g, 5, value as nat) == Some(Ok::<nat, Error>(value as nat)));
    assert(group_eval(g, 4, p3 as nat) == if value > u32::MAX {
        None
    } else {
        Some(Ok::<nat, Error>(value as nat))
    });
    assert(group_eval(g, 3, p2 as nat) == if value > u32::MAX {
        None
    } else {
        Some(Ok::<nat, Error>(value as nat))
    });
    assert(group_eval(g, 2, p1 as nat) == if value > u32::MAX {
        None
    } else {
        Some(Ok::<nat, Error>(value as nat))
    });
    if len >= 2 {
        assert(group_eval(g, 1, p0 as nat) == if value > u32::MAX {
            None
        } else {
            Some(Ok::<nat, Error>(value as nat))
        });
    } else {
        assert(group_eval(g, 1, p0 as nat) == Some(Err::<nat, Error>(Error::UnexpectedEof)));
    }
    assert(group_eval(g, 0, 0) == if p0 > u32::MAX {
        None
    } else {
        group_eval(g, 1, p0 as nat)
    });
    let bytes = crate::model::be_bytes(value as nat);
    if len == 5 {
        assert(g.skip(5) =~= Seq::<u8>::empty());
        assert(decoded(g.skip(5)) == Some(Ok::<Seq<u8>, Error>(Seq::<u8>::empty())));
        assert(bytes + Seq::<u8>::empty() =~= bytes.take(4));
    }
}

/// Decoding the empty text gives no bytes.
pub proof fn law_decode_empty()
    ensures
        decoded(Seq::<u8>::empty()) == Some(Ok::<Seq<u8>, Error>(Seq::<u8>::empty())),
{
}

/// Decoding goes group of five by group of five: a text of more than five
/// characters decodes to the bytes of its first five followed by those of
/// the rest, and fails as the first of the two that fails.
pub proof fn law_decode_group_by_group(s: Seq<u8>)
    requires
        s.len() > 5,
    ensures
        decoded(s) == match decoded(s.take(5)) {
            Some(Ok(first)) => match decoded(s.skip(5)) {
                Some(Ok(rest)) => Some(Ok::<Seq<u8>, Error>(first + rest)),
                other => other,
            },
            other => other,
        },
{
    let f = s.take(5);
    assert(f.take(5) =~= f);
    assert(f.skip(5) =~= Seq::<u8>::empty());
    assert(decoded(f.skip(5)) == Some(Ok::<Seq<u8>, Error>(Seq::<u8>::empty())));
    if let Some(Ok(v)) = group_eval(f, 0, 0) {
        assert(crate::model::be_bytes(v) + Seq::<u8>::empty() =~= crate::model::be_bytes(v));
    }
}

/// `c` is one of the 85 characters of the alphabet.
pub open spec fn in_alphabet(c: u8) -> bool {
    exists|x: int| 0 <= x < 85 && #[trigger] RFC1924_ALPHABET@[x] == c
}

/// The sum of the first `r` digit values `d`, weighted by `85^4` down.
pub open spec fn weighted_prefix(d: Seq<int>, r: int) -> int {
    (if r > 0 {
        d[0] * 52200625
    } else {
        0
    }) + (if r > 1 {
        d[1] * 614125
    } else {
        0
    }) + (if r > 2 {
        d[2] * 7225
    } else {
        0
    }) + (if r > 3 {
        d[3] * 85
    } else {
        0
    })
}

/// Membership in the alphabet is having a digit value.
proof fn lemma_in_alphabet_value(c: u8)
    ensures
        in_alphabet(c) <==> char85_value(c) is Some,
{
    lemma_alphabet_digits();
    if in_alphabet(c) {
        let x = choose|x: int| 0 <= x < 85 && #[trigger] RFC1924_ALPHABET@[x] == c;
        assert(char85_value(alphabet()[x]) == Some(x as u8));
    }
    if char85_value(c) is Some {
        let x = char85_value(c).unwrap() as int;
        assert(RFC1924_ALPHABET@[x] == c);
    }
}

/// A group whose characters before position `i` have the digit values `d`
/// and whose character at `i` is foreign stops there with that character,
/// unless the weighted sum before it overflows.
proof fn lemma_group_with_foreign(grp: Seq<u8>, i: int, d: Seq<int>)
    requires
        0 <= i < 5,
        i < grp.len(),
        d.len() == i,
        forall|m: int| 0 <= m < i ==> 0 <= #[trigger] d[m] < 85 && char85_value(grp[m]) == Some(
            d[m] as u8,
        ),
        char85_value(grp[i]) is None,
    ensures
        group_eval(grp, 0, 0) == if weighted_prefix(d, i) > u32::MAX {
            None
        } else {
            Some(Err::<nat, Error>(Error::InvalidCharacter(grp[i])))
        },
{
    reveal_with_fuel(group_eval, 6);
    let w0 = if i > 0 { d[0] * 52200625 } else { 0 };
    let w1 = w0 + if i > 1 { d[1] * 614125 } else { 0 };
    let w2 = w1 + if i > 2 { d[2] * 7225 } else { 0 };
    let w3 = w2 + if i > 3 { d[3] * 85 } else { 0 };
    assert(crate::model::group_digit(grp, i) == Err::<nat, Error>(
        Error::InvalidCharacter(grp[i]),
    ));
    if i == 0 {
    } else if i == 1 {
        assert(crate::model::group_digit(grp, 0) == Ok::<nat, Error>(d[0] as nat));
    } else if i == 2 {
        assert(crate::model::group_digit(grp, 0) == Ok::<nat, Error>(d[0] as nat));
        assert(crate::model::group_digit(grp, 1) == Ok::<nat, Error>(d[1] as nat));
    } else if i == 3 {
        assert(crate::model::group_digit(grp, 0) == Ok::<nat, Error>(d[0] as nat));
        assert(crate::model::group_digit(grp, 1) == Ok::<nat, Error>(d[1] as nat));
        assert(crate::model::group_digit(grp, 2) == Ok::<nat, Error>(d[2] as nat));
    } else {
        assert(crate::model::group_digit(grp, 0) == Ok::<nat, Error>(d[0] as nat));
        assert(crate::model::group_digit(grp, 1) == Ok::<nat, Error>(d[1] as nat));
        assert(crate::model::group_digit(grp, 2) == Ok::<nat, Error>(d[2] as nat));
        assert(crate::model::group_digit(grp, 3) == Ok::<nat, Error>(d[3] as nat));
    }
}

/// A group of five characters of the alphabet never fails: it gives a value
/// or overflows.
proof fn lemma_group_all_valid(grp: Seq<u8>)
    requires
        grp.len() == 5,
        forall|m: int| 0 <= m < 5 ==> #[trigger] char85_value(grp[m]) is Some,
    ensures
        group_eval(grp, 0, 0) is None || group_eval(grp, 0, 0) matches Some(Ok(_)),
{
    reveal_with_fuel(group_eval, 6);
    assert(char85_value(grp[0]) is Some);
    assert(char85_value(grp[1]) is Some);
    assert(char85_value(grp[2]) is Some);
    assert(char85_value(grp[3]) is Some);
    assert(char85_value(grp[4]) is Some);
}

/// Decoding rejects every byte outside the alphabet, wherever it stands in
/// its group: where the significant characters before position `i` are all
/// of the alphabet and the one at `i` is not, decoding fails with
/// `InvalidCharacter` of that byte; the only exception is an overflow of the
/// weighted sum of the earlier characters of the same group (digit values
/// `d`), or of an earlier group, which the decoders exclude.
pub proof fn law_decode_rejects_foreign_characters(s: Seq<u8>, i: int, d: Seq<int>)
    requires
        0 <= i < s.len(),
        !in_alphabet(s[i]),
        forall|k: int| 0 <= k < i ==> in_alphabet(#[trigger] s[k]),
        d.len() == i % 5,
        forall|m: int|
            0 <= m < i % 5 ==> 0 <= #[trigger] d[m] < 85 && RFC1924_ALPHABET@[d[m]] == s[i - i % 5
                + m],
    ensures
        decoded(s.take(i - i % 5)) is None || decoded(s.take(i - i % 5)) matches Some(Ok(_)),
        decoded(s) == match decoded(s.take(i - i % 5)) {
            Some(Ok(_)) => if weighted_prefix(d, i % 5) > u32::MAX {
                None
            } else {
                Some(Err::<Seq<u8>, Error>(Error::InvalidCharacter(s[i])))
            },
            other => other,
        },
    decreases i,
{
    lemma_alphabet_digits();
    lemma_in_alphabet_value(s[i]);
    let r = i % 5;
    let g0 = i - r;
    if i < 5 {
        assert(s.take(0) =~= Seq::<u8>::empty());
        let grp = if s.len() < 5 { s } else { s.take(5) };
        assert forall|m: int| 0 <= m < i implies 0 <= #[trigger] d[m] < 85 && char85_value(
            grp[m],
        ) == Some(d[m] as u8) by {
            assert(grp[m] == s[m]);
            assert(RFC1924_ALPHABET@[d[m]] == s[m]);
            assert(char85_value(alphabet()[d[m]]) == Some(d[m] as u8));
        }
        assert(grp[i] == s[i]);
        lemma_group_with_foreign(grp, i, d);
    } else {
        let f = s.take(5);
        assert forall|m: int| 0 <= m < 5 implies #[trigger] char85_value(f[m]) is Some by {
            assert(f[m] == s[m]);
            assert(in_alphabet(s[m]));
            lemma_in_alphabet_value(s[m]);
        }
        lemma_group_all_valid(f);
        let s2 = s.skip(5);
        assert forall|k: int| 0 <= k < i - 5 implies in_alphabet(#[trigger] s2[k]) by {
            assert(s2[k] == s[k + 5]);
        }
        assert forall|m: int| 0 <= m < r implies 0 <= #[trigger] d[m] < 85 && RFC1924_ALPHABET@[
            d[m]
        ] == s2[i - 5 - (i - 5) % 5 + m] by {
            assert((i - 5) % 5 == r);
        }
        assert((i - 5) % 5 == r);
        law_decode_rejects_foreign_characters(s2, i - 5, d);
        let t = s.take(g0);
        assert(t.take(5) =~= f);
        assert(t.skip(5) =~= s2.take(g0 - 5));
        if g0 == 5 {
            assert(s2.take(0) =~= Seq::<u8>::empty());
        }
    }
}

/// The significant characters of a text made of alphabet characters and
/// whitespace are all of the alphabet.
proof fn lemma_significant_in_alphabet(t: Seq<u8>)
    requires
        forall|k: int|
            0 <= k < t.len() ==> in_alphabet(#[trigger] t[k]) || t[k] == 9 || t[k] == 10 || t[k]
                == 13 || t[k] == 32,
    ensures
        forall|k: int| 0 <= k < significant(t).len() ==> in_alphabet(#[trigger] significant(t)[k]),
    decreases t.len(),
{
    reveal(Seq::filter);
    if t.len() > 0 {
        lemma_significant_in_alphabet(t.drop_last());
        assert forall|k: int| 0 <= k < significant(t).len() implies in_alphabet(
            #[trigger] significant(t)[k],
        ) by {
            if k < significant(t.drop_last()).len() {
                assert(significant(t)[k] == significant(t.drop_last())[k]);
            } else {
                assert(significant(t)[k] == t.last());
                assert(in_alphabet(t[t.len() - 1]) || t[t.len() - 1] == 9 || t[t.len() - 1] == 10
                    || t[t.len() - 1] == 13 || t[t.len() - 1] == 32);
            }
        }
    }
}

/// Decoding a text fails on its first byte that is neither a character of
/// the alphabet nor tab, line feed, carriage return or space, with
/// `InvalidCharacter` of that byte; it never succeeds on such a text (the
/// only other outcome is the overflow that the decoders exclude).
pub proof fn law_foreign_byte_in_text(text: Seq<u8>, i: int)
    requires
        0 <= i < text.len(),
        !in_alphabet(text[i]),
        !(text[i] == 9 || text[i] == 10 || text[i] == 13 || text[i] == 32),
        forall|k: int|
            0 <= k < i ==> in_alphabet(#[trigger] text[k]) || text[k] == 9 || text[k] == 10
                || text[k] == 13 || text[k] == 32,
    ensures
        !(decoded(significant(text)) matches Some(Ok(_))),
        decoded(significant(text)) is Some ==> decoded(significant(text)) == Some(
            Err::<Seq<u8>, Error>(Error::InvalidCharacter(text[i])),
        ),
{
    let before = text.take(i);
    let after = text.skip(i + 1);
    assert(before + seq![text[i]] + after =~= text);
    law_significant_characters(before, text[i], after);
    let sb = significant(before);
    let sig = significant(text);
    assert(sig == sb + seq![text[i]] + significant(after));
    lemma_significant_in_alphabet(before);
    let j = sb.len() as int;
    assert(sig[j] == text[i]);
    assert forall|k: int| 0 <= k < j implies in_alphabet(#[trigger] sig[k]) by {
        assert(sig[k] == sb[k]);
    }
    let r = j % 5;
    let d = Seq::new(r as nat, |m: int| char85_value(sig[j - r + m]).unwrap() as int);
    lemma_alphabet_digits();
    assert forall|m: int| 0 <= m < r implies 0 <= #[trigger] d[m] < 85 && RFC1924_ALPHABET@[d[m]]
        == sig[j - r + m] by {
        assert(in_alphabet(sig[j - r + m]));
        lemma_in_alphabet_value(sig[j - r + m]);
    }
    law_decode_rejects_foreign_characters(sig, j, d);
}

/// The digit value of a byte is its position in the alphabet constant, and
/// a byte has none exactly where it is not in the alphabet.
pub proof fn law_digit_value(c: u8)
    ensures
        char85_value(c) is None <==> !in_alphabet(c),
        char85_value(c) matches Some(x) ==> x < 85 && RFC1924_ALPHABET@[x as int] == c,
{
    lemma_in_alphabet_value(c);
    lemma_alphabet_digits();
}

/// `m` significant characters decode to four bytes per whole group of five
/// and one fewer than the characters of a last, shorter group; what decoding
/// gives has that length.
pub proof fn law_decoded_length(s: Seq<u8>)
    ensures
        decoded_len(s.len()) == 4 * (s.len() / 5) + if s.len() % 5 == 0 {
            0
        } else {
            s.len() % 5 - 1
        },
        decoded(s) matches Some(Ok(bytes)) ==> bytes.len() == decoded_len(s.len()),
{
    lemma_decoded_len(s);
}

/// What a failed decoding leaves written is the bytes of the groups before
/// the one that fails: group by group, the decoding of each group of five
/// that succeeds, and nothing from the first that does not.
pub proof fn law_written_before_failure(s: Seq<u8>)
    ensures
        s.len() <= 5 ==> decoded_prefix(s) == match decoded(s) {
            Some(Ok(bytes)) => bytes,
            _ => Seq::<u8>::empty(),
        },
        s.len() > 5 ==> decoded_prefix(s) == match decoded(s.take(5)) {
            Some(Ok(first)) => first + decoded_prefix(s.skip(5)),
            _ => Seq::<u8>::empty(),
        },
{
    if s.len() == 5 {
        assert(s.take(5) =~= s);
        assert(s.skip(5) =~= Seq::<u8>::empty());
        assert(decoded(s.skip(5)) == Some(Ok::<Seq<u8>, Error>(Seq::<u8>::empty())));
        assert(decoded_prefix(s.skip(5)) == Seq::<u8>::empty());
        if let Some(Ok(v)) = group_eval(s, 0, 0) {
            assert(crate::model::be_bytes(v) + Seq::<u8>::empty() =~= crate::model::be_bytes(v));
        }
    }
    if s.len() > 5 {
        let f = s.take(5);
        assert(f.take(5) =~= f);
        assert(f.skip(5) =~= Seq::<u8>::empty());
        assert(decoded(f.skip(5)) == Some(Ok::<Seq<u8>, Error>(Seq::<u8>::empty())));
        if let Some(Ok(v)) = group_eval(f, 0, 0) {
            assert(crate::model::be_bytes(v) + Seq::<u8>::empty() =~= crate::model::be_bytes(v));
        }
    }
}

} // verus!
