//! Decoding RFC 1924 base85 text into bytes.
use vstd::prelude::*;

use crate::alphabet::char85_to_byte;
use crate::error::Error;
use crate::lengths::calc_decode_len;
use crate::model::{
    be_bytes, decoded, decoded_len, decoded_prefix, decodes_without_overflow, group_eval, is_whitespace,
    lemma_decoded_len, significant,
};
use crate::text::prefix_mut;

verus! {

/// `bytes` in front of what `rest` decodes to, or the failure of `rest`.
spec fn prepend(
    bytes: Seq<u8>,
    rest: Option<Result<Seq<u8>, Error>>,
) -> Option<Result<Seq<u8>, Error>> {
    match rest {
        Some(Ok(tail)) => Some(Ok(bytes + tail)),
        other => other,
    }
}

/// The significant characters of a text are those of any prefix followed by
/// those of the rest.
proof fn lemma_significant_split(text: Seq<u8>, i: int)
    requires
        0 <= i <= text.len(),
    ensures
        significant(text) == significant(text.take(i)) + significant(text.skip(i)),
{
    assert(text.take(i) + text.skip(i) =~= text);
    Seq::filter_distributes_over_add(text.take(i), text.skip(i), |c: u8| !is_whitespace(c));
}

/// Taking one more character of a text adds it to the significant
/// characters, unless it is whitespace.
proof fn lemma_significant_step(text: Seq<u8>, i: int)
    requires
        0 <= i < text.len(),
    ensures
        significant(text.take(i + 1)) == if is_whitespace(text[i]) {
            significant(text.take(i))
        } else {
            significant(text.take(i)).push(text[i])
        },
{
    reveal(Seq::filter);
    assert(text.take(i + 1).drop_last() =~= text.take(i));
}

/// When the first group of `rest` decodes to `v`, `rest` decodes to the
/// bytes of `v` in front of what the remaining groups decode to.
proof fn lemma_first_group_ok(rest: Seq<u8>, v: nat)
    requires
        rest.len() >= 5,
        group_eval(rest.take(5), 0, 0) == Some(Ok::<nat, Error>(v)),
    ensures
        decoded(rest) == prepend(be_bytes(v), decoded(rest.skip(5))),
        decoded_prefix(rest) == be_bytes(v) + decoded_prefix(rest.skip(5)),
{
}

/// When the first group of `rest` fails, decoding `rest` fails with its
/// error and writes nothing.
proof fn lemma_first_group_err(rest: Seq<u8>, e: Error)
    requires
        rest.len() >= 5 ==> group_eval(rest.take(5), 0, 0) == Some(Err::<nat, Error>(e)),
        1 <= rest.len() < 5 ==> group_eval(rest, 0, 0) == Some(Err::<nat, Error>(e)),
        rest.len() >= 1,
    ensures
        decoded(rest) == Some(Err::<Seq<u8>, Error>(e)),
        decoded_prefix(rest) =~= Seq::<u8>::empty(),
{
}

/// When the first group of `rest` overflows, so does decoding `rest`.
proof fn lemma_first_group_overflows(rest: Seq<u8>)
    requires
        rest.len() >= 5 ==> group_eval(rest.take(5), 0, 0) is None,
        1 <= rest.len() < 5 ==> group_eval(rest, 0, 0) is None,
        rest.len() >= 1,
    ensures
        decoded(rest) is None,
{
}

/// Putting bytes in front, twice, is putting their concatenation in front.
proof fn lemma_prepend_twice(
    p: Seq<u8>,
    q: Seq<u8>,
    r: Option<Result<Seq<u8>, Error>>,
    s: Seq<u8>,
)
    ensures
        prepend(p, prepend(q, r)) == prepend(p + q, r),
        p + (q + s) == (p + q) + s,
{
    if let Some(Ok(t)) = r {
        assert(p + (q + t) =~= (p + q) + t);
    }
    assert(p + (q + s) =~= (p + q) + s);
}

/// A buffer whose first `written` bytes are `prefix` and whose other bytes
/// are those of `before` is `prefix` followed by the rest of `before`.
proof fn lemma_written_then_old(now: Seq<u8>, before: Seq<u8>, written: int, prefix: Seq<u8>)
    requires
        0 <= written <= now.len(),
        now.len() == before.len(),
        now.take(written) == prefix,
        forall|j: int| written <= j < now.len() ==> #[trigger] now[j] == before[j],
    ensures
        now == prefix + before.skip(written),
{
    assert(now =~= prefix + before.skip(written));
}

/// The number of significant (non-whitespace) characters of `indata`.
fn count_significant(indata: &[u8]) -> (n: usize)
    ensures
        n == significant(indata@).len(),
{
    let mut n: usize = 0;
    let mut i: usize = 0;
    while i < indata.len()
        invariant
            i <= indata@.len(),
            n == significant(indata@.take(i as int)).len(),
            n <= i,
        decreases indata@.len() - i,
    {
        proof {
            lemma_significant_step(indata@, i as int);
        }
        let c = indata[i];
        if !(c == 9 || c == 10 || c == 13 || c == 32) {
            n = n + 1;
        }
        i = i + 1;
    }
    assert(indata@.take(i as int) =~= indata@);
    n
}

/// The value of a group of `glen` significant characters, evaluated as the
/// model's `group_eval` does, in the same order.
fn decode_group(group: &[u8; 5], glen: usize) -> (res: Result<u32, Error>)
    requires
        1 <= glen <= 5,
        group_eval(group@.take(glen as int), 0, 0) is Some,
    ensures
        match res {
            Ok(v) => group_eval(group@.take(glen as int), 0, 0) == Some(
                Ok::<nat, Error>(v as nat),
            ),
            Err(e) => group_eval(group@.take(glen as int), 0, 0) == Some(Err::<nat, Error>(e)),
        },
{
    let ghost g = group@.take(glen as int);
    proof {
        reveal_with_fuel(group_eval, 6);
    }
    let a = char85_to_byte(group[0])?;
    let mut acc: u32 = (a as u32) * 52200625;
    let b = if glen > 1 {
        char85_to_byte(group[1])?
    } else {
        return Err(Error::UnexpectedEof);
    };
    acc = acc + (b as u32) * 614125;
    let c: u8 = if glen > 2 {
        char85_to_byte(group[2])?
    } else {
        126
    };
    acc = acc + (c as u32) * 7225;
    let d: u8 = if glen > 3 {
        char85_to_byte(group[3])?
    } else {
        126
    };
    acc = acc + (d as u32) * 85;
    let e: u8 = if glen > 4 {
        char85_to_byte(group[4])?
    } else {
        126
    };
    acc = acc + e as u32;
    Ok(acc)
}

/// Writes the first `count` big-endian bytes of `v` at `pos` in `out`.
fn write_bytes(v: u32, out: &mut [u8], pos: usize, count: usize)
    requires
        pos + count <= old(out)@.len(),
        count <= 4,
    ensures
        final(out)@.len() == old(out)@.len(),
        forall|j: int|
            0 <= j < old(out)@.len() ==> #[trigger] final(out)@[j] == if pos <= j < pos + count {
                be_bytes(v as nat)[j - pos]
            } else {
                old(out)@[j]
            },
{
    if count > 0 {
        out[pos] = (v / 16777216) as u8;
    }
    if count > 1 {
        out[pos + 1] = (v / 65536 % 256) as u8;
    }
    if count > 2 {
        out[pos + 2] = (v / 256 % 256) as u8;
    }
    if count > 3 {
        out[pos + 3] = (v % 256) as u8;
    }
}

/// Decodes the significant characters of `indata` into the first
/// `final_decoded_len` bytes of `out`.
fn decode_noalloc_inner<'a>(indata: &[u8], final_decoded_len: usize, out: &'a mut [u8]) -> (res:
    Result<&'a mut [u8], Error>)
    requires
        final_decoded_len == decoded_len(significant(indata@).len()),
        old(out)@.len() >= final_decoded_len ==> decodes_without_overflow(significant(indata@)),
    ensures
        final(out)@.len() == old(out)@.len(),
        old(out)@.len() < final_decoded_len ==> (res matches Err(e) && e
            == Error::OutputBufferTooSmall && final(out)@ == old(out)@),
        old(out)@.len() >= final_decoded_len ==> match decoded(significant(indata@)) {
            Some(Ok(bytes)) => match res {
                Ok(r) => r@ == bytes && final(out)@ == final(r)@ + old(out)@.skip(
                    final_decoded_len as int,
                ),
                Err(_) => false,
            },
            Some(Err(e)) => (res matches Err(e2) && e2 == e && final(out)@ == decoded_prefix(
                significant(indata@),
            ) + old(out)@.skip(decoded_prefix(significant(indata@)).len() as int)),
            None => false,
        },
{
    if out.len() < final_decoded_len {
        return Err(Error::OutputBufferTooSmall);
    }
    let ghost sig = significant(indata@);
    let mut group: [u8; 5] = [0u8; 5];
    let mut glen: usize = 0;
    let mut written: usize = 0;
    let mut i: usize = 0;
    let ghost mut ng: int = 0;
    proof {
        assert(indata@.take(0) =~= Seq::<u8>::empty());
        reveal(Seq::filter);
        assert(sig.skip(0) =~= sig);
        assert(sig.take(0) + group@.take(0) =~= Seq::<u8>::empty());
    }
    while i < indata.len()
        invariant
            i <= indata@.len(),
            sig == significant(indata@),
            final_decoded_len == decoded_len(sig.len()),
            final_decoded_len <= out@.len(),
            decoded(sig) is Some,
            out@.len() == old(out)@.len(),
            glen < 5,
            ng >= 0,
            written == 4 * ng,
            significant(indata@.take(i as int)) == sig.take(5 * ng) + group@.take(glen as int),
            5 * ng + glen <= sig.len(),
            decoded(sig) == prepend(out@.take(written as int), decoded(sig.skip(5 * ng))),
            decoded_prefix(sig) == out@.take(written as int) + decoded_prefix(sig.skip(5 * ng)),
            forall|j: int| written <= j < out@.len() ==> #[trigger] out@[j] == old(out)@[j],
        decreases indata@.len() - i,
    {
        proof {
            lemma_significant_step(indata@, i as int);
            lemma_significant_split(indata@, i as int + 1);
        }
        let c = indata[i];
        if !(c == 9 || c == 10 || c == 13 || c == 32) {
            group[glen] = c;
            glen = glen + 1;
            proof {
                assert(significant(indata@.take(i + 1)) =~= sig.take(5 * ng) + group@.take(
                    glen as int,
                ));
                assert(sig.take(5 * ng + glen) =~= significant(indata@.take(i + 1)));
            }
            if glen == 5 {
                let ghost rest = sig.skip(5 * ng);
                proof {
                    assert(rest.take(5) =~= group@.take(5));
                    assert(rest.skip(5) =~= sig.skip(5 * ng + 5));
                }
                let v = match decode_group(&group, 5) {
                    Ok(v) => v,
                    Err(e) => {
                        proof {
                            lemma_first_group_err(rest, e);
                            lemma_written_then_old(
                                out@,
                                old(out)@,
                                written as int,
                                decoded_prefix(sig),
                            );
                        }
                        return Err(e);
                    },
                };
                assert(4 * ng + 4 <= decoded_len(sig.len()));
                let ghost before = out@;
                proof {
                    lemma_first_group_ok(rest, v as nat);
                    lemma_prepend_twice(
                        before.take(written as int),
                        be_bytes(v as nat),
                        decoded(rest.skip(5)),
                        decoded_prefix(rest.skip(5)),
                    );
                }
                write_bytes(v, out, written, 4);
                proof {
                    assert(out@.take(written + 4) =~= before.take(written as int) + be_bytes(
                        v as nat,
                    ));
                    ng = ng + 1;
                }
                written = written + 4;
                glen = 0;
                proof {
                    assert(significant(indata@.take(i + 1)) =~= sig.take(5 * ng) + group@.take(
                        glen as int,
                    ));
                }
            }
        }
        i = i + 1;
    }
    proof {
        assert(indata@.take(i as int) =~= indata@);
        assert(sig.skip(5 * ng) =~= group@.take(glen as int));
    }
    if glen > 0 {
        let v = match decode_group(&group, glen) {
            Ok(v) => v,
            Err(e) => {
                proof {
                    lemma_first_group_err(sig.skip(5 * ng), e);
                    lemma_written_then_old(out@, old(out)@, written as int, decoded_prefix(sig));
                }
                return Err(e);
            },
        };
        let ghost before = out@;
        write_bytes(v, out, written, glen - 1);
        proof {
            assert(out@.take(written + glen - 1) =~= before.take(written as int) + be_bytes(
                v as nat,
            ).take(glen - 1));
        }
        written = written + glen - 1;
    } else {
        assert(sig.skip(5 * ng) =~= Seq::<u8>::empty());
    }
    assert(written == final_decoded_len);
    let r = prefix_mut(out, final_decoded_len);
    Ok(r)
}

/// The value of a group of `glen` significant characters as `group_eval`
/// computes it, with `None` where a partial sum exceeds `u32::MAX`.
fn eval_group_checked(group: &[u8; 5], glen: usize) -> (res: Option<Result<u32, Error>>)
    requires
        1 <= glen <= 5,
    ensures
        match res {
            None => group_eval(group@.take(glen as int), 0, 0) is None,
            Some(Ok(v)) => group_eval(group@.take(glen as int), 0, 0) == Some(
                Ok::<nat, Error>(v as nat),
            ),
            Some(Err(e)) => group_eval(group@.take(glen as int), 0, 0) == Some(
                Err::<nat, Error>(e),
            ),
        },
{
    let ghost g = group@.take(glen as int);
    proof {
        reveal_with_fuel(group_eval, 6);
    }
    let a = match char85_to_byte(group[0]) {
        Ok(d) => d,
        Err(e) => {
            return Some(Err(e));
        },
    };
    let mut acc: u64 = (a as u64) * 52200625;
    if acc > 4294967295 {
        return None;
    }
    let b = if glen > 1 {
        match char85_to_byte(group[1]) {
            Ok(d) => d,
            Err(e) => {
                return Some(Err(e));
            },
        }
    } else {
        return Some(Err(Error::UnexpectedEof));
    };
    acc = acc + (b as u64) * 614125;
    if acc > 4294967295 {
        return None;
    }
    let c: u8 = if glen > 2 {
        match char85_to_byte(group[2]) {
            Ok(d) => d,
            Err(e) => {
                return Some(Err(e));
            },
        }
    } else {
        126
    };
    acc = acc + (c as u64) * 7225;
    if acc > 4294967295 {
        return None;
    }
    let d: u8 = if glen > 3 {
        match char85_to_byte(group[3]) {
            Ok(d) => d,
            Err(e) => {
                return Some(Err(e));
            },
        }
    } else {
        126
    };
    acc = acc + (d as u64) * 85;
    if acc > 4294967295 {
        return None;
    }
    let e: u8 = if glen > 4 {
        match char85_to_byte(group[4]) {
            Ok(d) => d,
            Err(err) => {
                return Some(Err(err));
            },
        }
    } else {
        126
    };
    acc = acc + e as u64;
    if acc > 4294967295 {
        return None;
    }
    Some(Ok(acc as u32))
}

/// Whether decoding `indata` stays within 32-bit arithmetic: whether it
/// fails or succeeds without a group sum above `u32::MAX`, which is what
/// `decode` and `decode_noalloc` require. Whitespace is skipped as they skip
/// it.
pub fn can_decode_without_overflow(indata: &[u8]) -> (b: bool)
    ensures
        b == decodes_without_overflow(significant(indata@)),
{
    let ghost sig = significant(indata@);
    let mut group: [u8; 5] = [0u8; 5];
    let mut glen: usize = 0;
    let mut i: usize = 0;
    let ghost mut ng: int = 0;
    proof {
        assert(indata@.take(0) =~= Seq::<u8>::empty());
        reveal(Seq::filter);
        assert(sig.skip(0) =~= sig);
        assert(sig.take(0) + group@.take(0) =~= Seq::<u8>::empty());
    }
    while i < indata.len()
        invariant
            i <= indata@.len(),
            sig == significant(indata@),
            glen < 5,
            ng >= 0,
            significant(indata@.take(i as int)) == sig.take(5 * ng) + group@.take(glen as int),
            5 * ng + glen <= sig.len(),
            (decoded(sig) is Some) == (decoded(sig.skip(5 * ng)) is Some),
        decreases indata@.len() - i,
    {
        proof {
            lemma_significant_step(indata@, i as int);
            lemma_significant_split(indata@, i as int + 1);
        }
        let c = indata[i];
        if !(c == 9 || c == 10 || c == 13 || c == 32) {
            group[glen] = c;
            glen = glen + 1;
            proof {
                assert(significant(indata@.take(i + 1)) =~= sig.take(5 * ng) + group@.take(
                    glen as int,
                ));
                assert(sig.take(5 * ng + glen) =~= significant(indata@.take(i + 1)));
            }
            if glen == 5 {
                let ghost rest = sig.skip(5 * ng);
                proof {
                    assert(rest.take(5) =~= group@.take(5));
                    assert(rest.skip(5) =~= sig.skip(5 * ng + 5));
                }
                match eval_group_checked(&group, 5) {
                    None => {
                        proof {
                            lemma_first_group_overflows(rest);
                        }
                        return false;
                    },
                    Some(Err(e)) => {
                        proof {
                            lemma_first_group_err(rest, e);
                        }
                        return true;
                    },
                    Some(Ok(v)) => {
                        proof {
                            lemma_first_group_ok(rest, v as nat);
                            ng = ng + 1;
                        }
                    },
                }
                glen = 0;
                proof {
                    assert(significant(indata@.take(i + 1)) =~= sig.take(5 * ng) + group@.take(
                        glen as int,
                    ));
                }
            }
        }
        i = i + 1;
    }
    proof {
        assert(indata@.take(i as int) =~= indata@);
        assert(sig.skip(5 * ng) =~= group@.take(glen as int));
    }
    if glen == 0 {
        assert(sig.skip(5 * ng) =~= Seq::<u8>::empty());
        return true;
    }
    match eval_group_checked(&group, glen) {
        None => {
            proof {
                lemma_first_group_overflows(sig.skip(5 * ng));
            }
            false
        },
        Some(_) => true,
    }
}

/// Decodes `indata` into `out` without allocating; whitespace in `indata` is
/// skipped. The first `calc_decode_len(n)` bytes of `out`, `n` the number of
/// significant characters, receive the bytes, and the returned slice is that
/// part of `out`. Where `out` is shorter, nothing is written and
/// `OutputBufferTooSmall` is returned.
pub fn decode_noalloc<'a>(indata: &[u8], out: &'a mut [u8]) -> (res: Result<&'a mut [u8], Error>)
    requires
        old(out)@.len() >= decoded_len(significant(indata@).len()) ==> decodes_without_overflow(
            significant(indata@),
        ),
    ensures
        final(out)@.len() == old(out)@.len(),
        old(out)@.len() < decoded_len(significant(indata@).len()) ==> (res matches Err(e) && e
            == Error::OutputBufferTooSmall && final(out)@ == old(out)@),
        old(out)@.len() >= decoded_len(significant(indata@).len()) ==> match decoded(
            significant(indata@),
        ) {
            Some(Ok(bytes)) => match res {
                Ok(r) => r@ == bytes && final(out)@ == final(r)@ + old(out)@.skip(
                    bytes.len() as int,
                ),
                Err(_) => false,
            },
            Some(Err(e)) => (res matches Err(e2) && e2 == e && final(out)@ == decoded_prefix(
                significant(indata@),
            ) + old(out)@.skip(decoded_prefix(significant(indata@)).len() as int)),
            None => false,
        },
{
    let n = count_significant(indata);
    let final_decoded_len = calc_decode_len(n);
    proof {
        lemma_decoded_len(significant(indata@));
    }
    decode_noalloc_inner(indata, final_decoded_len, out)
}

/// Decodes `indata`, skipping whitespace, into a newly allocated vector. Any
/// failure is reported as `UnexpectedEof`.
pub fn decode(indata: &[u8]) -> (res: Result<Vec<u8>, Error>)
    requires
        decodes_without_overflow(significant(indata@)),
    ensures
        match decoded(significant(indata@)) {
            Some(Ok(bytes)) => (res matches Ok(v) && v@ == bytes),
            Some(Err(_)) => res == Err::<Vec<u8>, Error>(Error::UnexpectedEof),
            None => false,
        },
{
    let n = count_significant(indata);
    let final_decoded_len = calc_decode_len(n);
    let mut out: Vec<u8> = vec![0u8; final_decoded_len];
    match decode_noalloc_inner(indata, final_decoded_len, out.as_mut_slice()) {
        Ok(_) => {},
        Err(_) => {
            return Err(Error::UnexpectedEof);
        },
    }
    Ok(out)
}

} // verus!
