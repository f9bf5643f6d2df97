//! What holds of the encoding as a whole: decoding gives back what was
//! encoded, the sizes of both sides, and the characters that encoding uses.
use vstd::prelude::*;

use crate::alphabet::{alphabet, char85_value, lemma_alphabet_digits};
use crate::model::{
    be_bytes, byte_or_zero, decoded, decoded_len, digit, encoded, encoded_char, encoded_len,
    decodes_without_overflow, group_eval, group_value, is_whitespace, place, significant,
};

verus! {

/// The five characters that encode the group value `v`.
spec fn group_chars(v: nat) -> Seq<u8> {
    Seq::new(5, |k: int| alphabet()[digit(v, k) as int])
}

/// The value of the first `k + 1` digits of `v`, each at its place.
proof fn lemma_digit_sums(v: nat)
    requires
        v < 4294967296,
    ensures
        digit(v, 0) * 52200625 == v - v % 52200625,
        digit(v, 0) * 52200625 + digit(v, 1) * 614125 == v - v % 614125,
        digit(v, 0) * 52200625 + digit(v, 1) * 614125 + digit(v, 2) * 7225 == v - v % 7225,
        digit(v, 0) * 52200625 + digit(v, 1) * 614125 + digit(v, 2) * 7225 + digit(v, 3) * 85 == v
            - v % 85,
        digit(v, 0) * 52200625 + digit(v, 1) * 614125 + digit(v, 2) * 7225 + digit(v, 3) * 85
            + digit(v, 4) == v,
        forall|k: int| 0 <= k < 5 ==> #[trigger] digit(v, k) < 85,
        v % 614125 < 614125,
        v % 7225 < 7225,
        v % 85 < 85,
{
    let x = v as int;
    assert(x / 52200625 < 85);
    vstd::arithmetic::div_mod::lemma_fundamental_div_mod(x, 52200625);
    vstd::arithmetic::div_mod::lemma_mod_breakdown(x, 614125, 85);
    vstd::arithmetic::div_mod::lemma_mod_breakdown(x, 7225, 85);
    vstd::arithmetic::div_mod::lemma_mod_breakdown(x, 85, 85);
    vstd::arithmetic::div_mod::lemma_fundamental_div_mod(x, 85);
}

/// A group of the first `len` characters of the encoding of `v` evaluates,
/// with the missing characters counted as 126, to `v` less what its lower
/// places hold, plus the padding.
proof fn lemma_eval_group_chars(v: nat, len: int)
    requires
        v < 4294967296,
        2 <= len <= 5,
        len == 2 ==> v - v % 614125 + 921186 <= u32::MAX,
        len == 3 ==> v - v % 7225 + 10836 <= u32::MAX,
        len == 4 ==> v - v % 85 + 126 <= u32::MAX,
    ensures
        group_eval(group_chars(v).take(len), 0, 0) == Some(
            Ok::<nat, crate::error::Error>(
                if len == 2 {
                    (v - v % 614125 + 921186) as nat
                } else if len == 3 {
                    (v - v % 7225 + 10836) as nat
                } else if len == 4 {
                    (v - v % 85 + 126) as nat
                } else {
                    v
                },
            ),
        ),
{
    lemma_digit_sums(v);
    lemma_alphabet_digits();
    let g = group_chars(v).take(len);
    assert(forall|k: int| 0 <= k < len ==> #[trigger] g[k] == alphabet()[digit(v, k) as int]);
    assert(forall|k: int|
        0 <= k < len ==> char85_value(#[trigger] g[k]) == Some(digit(v, k) as u8));
    reveal_with_fuel(group_eval, 6);
}

/// The bytes of a group value that only its first `r` bytes make up come back
/// from any value at most the padding above it.
proof fn lemma_bytes_of_padded(b0: int, b1: int, b2: int, acc: int, r: int)
    requires
        0 <= b0,
        0 <= b1,
        0 <= b2,
        b0 < 256,
        b1 < 256,
        b2 < 256,
        1 <= r <= 3,
        r < 2 ==> b1 == 0,
        r < 3 ==> b2 == 0,
        b0 * 16777216 + b1 * 65536 + b2 * 256 <= acc,
        r == 1 ==> acc < b0 * 16777216 + 16777216,
        r == 2 ==> acc < b0 * 16777216 + b1 * 65536 + 65536,
        r == 3 ==> acc < b0 * 16777216 + b1 * 65536 + b2 * 256 + 256,
    ensures
        be_bytes(acc as nat)[0] == b0,
        r >= 2 ==> be_bytes(acc as nat)[1] == b1,
        r >= 3 ==> be_bytes(acc as nat)[2] == b2,
{
    if r == 1 {
        vstd::arithmetic::div_mod::lemma_fundamental_div_mod_converse_div(
            acc,
            16777216,
            b0,
            acc - b0 * 16777216,
        );
    } else if r == 2 {
        vstd::arithmetic::div_mod::lemma_fundamental_div_mod_converse_div(
            acc,
            16777216,
            b0,
            acc - b0 * 16777216,
        );
        vstd::arithmetic::div_mod::lemma_fundamental_div_mod_converse_div(
            acc,
            65536,
            b0 * 256 + b1,
            acc - b0 * 16777216 - b1 * 65536,
        );
        vstd::arithmetic::div_mod::lemma_fundamental_div_mod_converse_mod(
            b0 * 256 + b1,
            256,
            b0,
            b1,
        );
    } else {
        vstd::arithmetic::div_mod::lemma_fundamental_div_mod_converse_div(
            acc,
            16777216,
            b0,
            acc - b0 * 16777216,
        );
        vstd::arithmetic::div_mod::lemma_fundamental_div_mod_converse_div(
            acc,
            65536,
            b0 * 256 + b1,
            acc - b0 * 16777216 - b1 * 65536,
        );
        vstd::arithmetic::div_mod::lemma_fundamental_div_mod_converse_mod(
            b0 * 256 + b1,
            256,
            b0,
            b1,
        );
        vstd::arithmetic::div_mod::lemma_fundamental_div_mod_converse_div(
            acc,
            256,
            b0 * 65536 + b1 * 256 + b2,
            acc - b0 * 16777216 - b1 * 65536 - b2 * 256,
        );
        vstd::arithmetic::div_mod::lemma_fundamental_div_mod_converse_mod(
            b0 * 65536 + b1 * 256 + b2,
            256,
            b0 * 256 + b1,
            b2,
        );
    }
}

/// The four big-endian bytes of a full group value are the bytes it was made
/// of.
proof fn lemma_bytes_of_full(b0: nat, b1: nat, b2: nat, b3: nat)
    requires
        b0 < 256,
        b1 < 256,
        b2 < 256,
        b3 < 256,
    ensures
        be_bytes(b0 * 16777216 + b1 * 65536 + b2 * 256 + b3) == seq![
            b0 as u8,
            b1 as u8,
            b2 as u8,
            b3 as u8,
        ],
{
    let v = b0 * 16777216 + b1 * 65536 + b2 * 256 + b3;
    lemma_bytes_of_padded(b0 as int, b1 as int, b2 as int, v as int, 3);
    vstd::arithmetic::div_mod::lemma_fundamental_div_mod_converse_mod(
        v as int,
        256,
        (b0 * 65536 + b1 * 256 + b2) as int,
        b3 as int,
    );
    assert(be_bytes(v) =~= seq![b0 as u8, b1 as u8, b2 as u8, b3 as u8]);
}

/// The encoding of data of at least four bytes is the five characters of its
/// first group followed by the encoding of the rest.
proof fn lemma_encoded_split(data: Seq<u8>)
    requires
        data.len() >= 4,
    ensures
        encoded(data).len() >= 5,
        encoded(data).take(5) == group_chars(group_value(data, 0)),
        encoded(data).skip(5) == encoded(data.skip(4)),
{
    let e = encoded(data);
    let rest = data.skip(4);
    assert(encoded_len(rest.len()) + 5 == encoded_len(data.len()));
    assert forall|j: int| 0 <= j < encoded(rest).len() implies #[trigger] e.skip(5)[j]
        == encoded(rest)[j] by {
        assert((j + 5) / 5 == j / 5 + 1);
        assert((j + 5) % 5 == j % 5);
        let g = j / 5;
        assert(group_value(data, g + 1) == group_value(rest, g));
    }
    assert(e.skip(5) =~= encoded(rest));
    assert forall|k: int| 0 <= k < 5 implies #[trigger] e.take(5)[k] == group_chars(
        group_value(data, 0),
    )[k] by {
        assert(k / 5 == 0);
        assert(k % 5 == k);
    }
    assert(e.take(5) =~= group_chars(group_value(data, 0)));
}

/// The encoding of fewer than four bytes is the first characters of the
/// encoding of their zero-padded group.
proof fn lemma_encoded_short(data: Seq<u8>)
    requires
        0 < data.len() < 4,
    ensures
        encoded(data) == group_chars(group_value(data, 0)).take(data.len() + 1int),
{
    let e = encoded(data);
    let v = group_value(data, 0);
    assert(e.len() == data.len() + 1);
    assert forall|k: int| 0 <= k < data.len() + 1 implies #[trigger] e[k] == group_chars(
        v,
    ).take(data.len() + 1int)[k] by {
        assert(k / 5 == 0);
        assert(k % 5 == k);
    }
    assert(e =~= group_chars(v).take(data.len() + 1int));
}

/// Decoding the encoding of fewer than four bytes gives them back.
proof fn lemma_decoded_encoded_short(data: Seq<u8>)
    requires
        0 < data.len() < 4,
    ensures
        decoded(encoded(data)) == Some(Ok::<Seq<u8>, crate::error::Error>(data)),
{
    let n = data.len() as int;
    let v = group_value(data, 0);
    let b0 = byte_or_zero(data, 0);
    let b1 = byte_or_zero(data, 1);
    let b2 = byte_or_zero(data, 2);
    assert(byte_or_zero(data, 3) == 0);
    assert(v == b0 * 16777216 + b1 * 65536 + b2 * 256);
    lemma_digit_sums(v);
    lemma_encoded_short(data);
    lemma_eval_group_chars(v, n + 1);
    let acc: nat = if n == 1 {
        (v - v % 614125 + 921186) as nat
    } else if n == 2 {
        (v - v % 7225 + 10836) as nat
    } else {
        (v - v % 85 + 126) as nat
    };
    lemma_bytes_of_padded(b0 as int, b1 as int, b2 as int, acc as int, n);
    assert(be_bytes(acc).take(n) =~= data);
}

/// Decoding a text whose first five characters evaluate to `v` and whose
/// rest decodes to `tail` gives the bytes of `v` followed by `tail`.
proof fn lemma_decoded_first_group(text: Seq<u8>, v: nat, tail: Seq<u8>)
    requires
        text.len() >= 5,
        group_eval(text.take(5), 0, 0) == Some(Ok::<nat, crate::error::Error>(v)),
        decoded(text.skip(5)) == Some(Ok::<Seq<u8>, crate::error::Error>(tail)),
    ensures
        decoded(text) == Some(Ok::<Seq<u8>, crate::error::Error>(be_bytes(v) + tail)),
{
}

/// The first group of at least four bytes decodes back from its encoding.
proof fn lemma_first_group(data: Seq<u8>)
    requires
        data.len() >= 4,
    ensures
        group_eval(encoded(data).take(5), 0, 0) == Some(
            Ok::<nat, crate::error::Error>(group_value(data, 0)),
        ),
        be_bytes(group_value(data, 0)) == data.take(4),
        encoded(data).len() >= 5,
        encoded(data).skip(5) == encoded(data.skip(4)),
{
    lemma_encoded_split(data);
    let v = group_value(data, 0);
    assert(group_chars(v).take(5) =~= group_chars(v));
    lemma_eval_group_chars(v, 5);
    lemma_bytes_of_full(data[0] as nat, data[1] as nat, data[2] as nat, data[3] as nat);
    assert(data.take(4) =~= seq![data[0], data[1], data[2], data[3]]);
}

/// Decoding the encoding of any data gives the data back.
proof fn lemma_decoded_encoded(data: Seq<u8>)
    ensures
        decoded(encoded(data)) == Some(Ok::<Seq<u8>, crate::error::Error>(data)),
    decreases data.len(),
{
    if data.len() == 0 {
        assert(encoded(data) =~= Seq::<u8>::empty());
        assert(data =~= Seq::<u8>::empty());
    } else if data.len() < 4 {
        lemma_decoded_encoded_short(data);
    } else {
        lemma_first_group(data);
        lemma_decoded_encoded(data.skip(4));
        lemma_decoded_first_group(encoded(data), group_value(data, 0), data.skip(4));
        assert(data.take(4) + data.skip(4) =~= data);
    }
}

/// A text without whitespace is all significant.
proof fn lemma_significant_of_no_whitespace(text: Seq<u8>)
    requires
        forall|i: int| 0 <= i < text.len() ==> !is_whitespace(#[trigger] text[i]),
    ensures
        significant(text) == text,
    decreases text.len(),
{
    reveal(Seq::filter);
    if text.len() > 0 {
        lemma_significant_of_no_whitespace(text.drop_last());
        assert(text.drop_last().push(text.last()) =~= text);
    }
}

/// Every character of an encoding is a character of the alphabet, printable
/// ASCII; so an encoding holds no whitespace and decoding reads all of it.
pub proof fn lemma_encoding_uses_alphabet(data: Seq<u8>)
    ensures
        forall|j: int|
            0 <= j < encoded(data).len() ==> char85_value(#[trigger] encoded(data)[j]) is Some
                && 33 <= encoded(data)[j] <= 126,
        significant(encoded(data)) == encoded(data),
{
    lemma_alphabet_digits();
    assert forall|j: int| 0 <= j < encoded(data).len() implies char85_value(
        #[trigger] encoded(data)[j],
    ) is Some && 33 <= encoded(data)[j] <= 126 by {
        lemma_digit_sums(group_value(data, j / 5));
        assert(digit(group_value(data, j / 5), j % 5) < 85);
    }
    lemma_significant_of_no_whitespace(encoded(data));
}

/// Decoding what encoding gives returns the original bytes, for every byte
/// sequence, and without overflow.
pub proof fn lemma_decode_encode_roundtrip(data: Seq<u8>)
    ensures
        decodes_without_overflow(significant(encoded(data))),
        decoded(significant(encoded(data))) == Some(Ok::<Seq<u8>, crate::error::Error>(data)),
{
    lemma_encoding_uses_alphabet(data);
    lemma_decoded_encoded(data);
}

/// An encoding is 25% larger than its data, rounded up, and the size that
/// decoding computes for it is the size of the data.
pub proof fn lemma_encoded_len_ratio(n: nat)
    ensures
        encoded_len(n) == (5 * n + 3) / 4,
        decoded_len(encoded_len(n)) == n,
{
}

/// Decoding ignores whitespace: a whitespace byte put anywhere in a text
/// leaves its significant characters, and so what it decodes to, unchanged.
pub proof fn lemma_whitespace_ignored(before: Seq<u8>, after: Seq<u8>, w: u8)
    requires
        is_whitespace(w),
    ensures
        significant(before + seq![w] + after) == significant(before + after),
{
    let p = |c: u8| !is_whitespace(c);
    Seq::filter_distributes_over_add(before + seq![w], after, p);
    Seq::filter_distributes_over_add(before, seq![w], p);
    Seq::filter_distributes_over_add(before, after, p);
    reveal_with_fuel(Seq::filter, 2);
    assert(seq![w].drop_last() =~= Seq::<u8>::empty());
    assert(significant(seq![w]) =~= Seq::<u8>::empty());
    assert(significant(before) + significant(seq![w]) =~= significant(before));
}

/// Encoding works group by group: where the first part of the data is made
/// of whole groups of four bytes, the encoding of the whole is the encoding
/// of the first part followed by the encoding of the rest.
pub proof fn lemma_encoding_splits_at_groups(x: Seq<u8>, y: Seq<u8>)
    requires
        x.len() % 4 == 0,
    ensures
        encoded(x + y) == encoded(x) + encoded(y),
{
    let k = x.len() / 4;
    let xy = x + y;
    assert(encoded_len(xy.len()) == encoded_len(x.len()) + encoded_len(y.len()));
    assert(encoded_len(x.len()) == 5 * k);
    assert forall|j: int| 0 <= j < encoded(xy).len() implies #[trigger] encoded(xy)[j] == (
    encoded(x) + encoded(y))[j] by {
        if j < 5 * k {
            let g = j / 5;
            assert(g < k);
            assert(group_value(xy, g) == group_value(x, g));
        } else {
            let jj = j - 5 * k;
            assert(j / 5 == jj / 5 + k);
            assert(j % 5 == jj % 5);
            let g = jj / 5;
            assert(group_value(xy, g + k) == group_value(y, g));
        }
    }
    assert(encoded(xy) =~= encoded(x) + encoded(y));
}

/// A text into which whitespace has been put anywhere: `gaps[i]` stands
/// before `text[i]`, and the last gap after the end of `text`.
pub open spec fn with_whitespace(text: Seq<u8>, gaps: Seq<Seq<u8>>) -> Seq<u8>
    decreases text.len(),
{
    if text.len() == 0 || gaps.len() == 0 {
        if gaps.len() == 0 {
            text
        } else {
            gaps[0]
        }
    } else {
        with_whitespace(text.drop_last(), gaps.drop_last()) + seq![text.last()] + gaps.last()
    }
}

/// `w` holds only whitespace.
pub open spec fn all_whitespace(w: Seq<u8>) -> bool {
    forall|i: int| 0 <= i < w.len() ==> is_whitespace(#[trigger] w[i])
}

/// Whitespace alone has no significant characters.
proof fn lemma_significant_of_whitespace(w: Seq<u8>)
    requires
        all_whitespace(w),
    ensures
        significant(w) =~= Seq::<u8>::empty(),
    decreases w.len(),
{
    reveal(Seq::filter);
    if w.len() > 0 {
        lemma_significant_of_whitespace(w.drop_last());
    }
}

/// Decoding ignores whitespace put anywhere, in any amount: the text with
/// whitespace has the significant characters, and so the decoding, of the
/// text without it.
pub proof fn lemma_whitespace_ignored_anywhere(text: Seq<u8>, gaps: Seq<Seq<u8>>)
    requires
        gaps.len() == text.len() + 1,
        forall|i: int| 0 <= i < gaps.len() ==> all_whitespace(#[trigger] gaps[i]),
    ensures
        significant(with_whitespace(text, gaps)) == significant(text),
    decreases text.len(),
{
    let p = |c: u8| !is_whitespace(c);
    if text.len() == 0 {
        lemma_significant_of_whitespace(gaps[0]);
        reveal(Seq::filter);
        assert(significant(text) =~= Seq::<u8>::empty());
    } else {
        let front = with_whitespace(text.drop_last(), gaps.drop_last());
        let last = seq![text.last()];
        assert(gaps.drop_last()[text.len() - 1] == gaps[text.len() - 1]);
        lemma_whitespace_ignored_anywhere(text.drop_last(), gaps.drop_last());
        assert(all_whitespace(gaps[text.len() as int]));
        lemma_significant_of_whitespace(gaps.last());
        Seq::filter_distributes_over_add(front + last, gaps.last(), p);
        Seq::filter_distributes_over_add(front, last, p);
        Seq::filter_distributes_over_add(text.drop_last(), last, p);
        assert(text.drop_last() + last =~= text);
        assert(significant(front + last) + significant(gaps.last()) =~= significant(
            front + last,
        ));
    }
}

/// `decoded_len` grows with the number of characters.
pub proof fn lemma_decoded_len_monotonic(m1: nat, m2: nat)
    requires
        m1 <= m2,
    ensures
        decoded_len(m1) <= decoded_len(m2),
{
}

/// A buffer sized by the whole length of a text, whitespace included, holds
/// what its significant characters decode to: so `decode`, which sizes its
/// buffer by the significant characters, gives what `decode_noalloc` gives
/// into such a buffer, with every error reported as `UnexpectedEof`.
pub proof fn lemma_text_sized_buffer_suffices(text: Seq<u8>)
    ensures
        decoded_len(significant(text).len()) <= decoded_len(text.len()),
{
    text.lemma_filter_len(|c: u8| !is_whitespace(c));
    lemma_decoded_len_monotonic(significant(text).len(), text.len());
}

} // verus!
