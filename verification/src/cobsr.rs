//! Consistent Overhead Byte Stuffing, Reduced (COBS/R).
//!
//! COBS/R is basic COBS except that, when the final data byte's value is at
//! least the final length code, that byte serves as the length code and is
//! dropped from the tail, saving one byte.

use vstd::prelude::*;
use crate::codec::{decode_in_place_into, decode_into, encode_into, xor_prefix};
use crate::model::{
    cobs_encode, cobsr_encode, decode_blocks, decode_fill, decode_outcome, decode_run,
    lemma_decode_encode, lemma_decode_len, lemma_encode_len_bound, lemma_encode_zero_free,
    lemma_reduced_len, lemma_decode_errors, lemma_xor_avoids, lemma_xor_twice, lemma_xor_zero,
    lemma_zeros_encode_to_ones, lemma_nonzero_prefix, nonzero_prefix_len, repeat_byte, xor_all, zero_free,
    code_block, final_data, lemma_final_data_split, lemma_reduced_is_final_block, reduced_block,
};
use crate::{spec_max_encoded_len, DecodeError};

verus! {

/// Encodes `src` with COBS/R into `dst`, returning the number of bytes
/// written. The output never contains a zero byte and is never longer than
/// the basic COBS encoding; `dst` must hold `max_encoded_len(src.len())`
/// bytes, and only the first `cobs_encode(src).len()` of them are written.
pub fn encode(src: &[u8], dst: &mut [u8]) -> (n: usize)
    requires
        old(dst)@.len() >= spec_max_encoded_len(src@.len()),
    ensures
        n == cobsr_encode(src@).len(),
        final(dst)@.len() == old(dst)@.len(),
        final(dst)@.take(n as int) == cobsr_encode(src@),
        forall|i: int| cobs_encode(src@).len() <= i < old(dst)@.len() ==> final(dst)@[i] == old(dst)@[i],
{
    encode_into(src, dst, true)
}

/// Encodes `src` with COBS/R into `dst` using `sentinel` in place of the zero
/// byte: the output never contains `sentinel`. `sentinel == 0` is identical
/// to [`encode`].
pub fn encode_with_sentinel(src: &[u8], dst: &mut [u8], sentinel: u8) -> (n: usize)
    requires
        old(dst)@.len() >= spec_max_encoded_len(src@.len()),
    ensures
        n == cobsr_encode(src@).len(),
        final(dst)@.len() == old(dst)@.len(),
        final(dst)@.take(n as int) == xor_all(cobsr_encode(src@), sentinel),
        forall|i: int| cobs_encode(src@).len() <= i < old(dst)@.len() ==> final(dst)@[i] == old(dst)@[i],
{
    proof {
        lemma_encode_len_bound(src@);
        lemma_reduced_len(src@);
    }
    let n = encode(src, dst);
    let ghost mid = dst@;
    xor_prefix(dst, n, sentinel);
    assert(dst@.take(n as int) =~= xor_all(cobsr_encode(src@), sentinel));
    assert forall|i: int| cobs_encode(src@).len() <= i < old(dst)@.len() implies final(dst)@[i] == old(dst)@[i] by {
        assert(dst@[i] == mid.skip(n as int)[i - n]);
    }
    n
}

/// Decodes COBS/R `src` into `dst`, returning the number of bytes written.
/// The empty input decodes to nothing. A length code that points past the end
/// of the input is the reduced final block, not an error; fails with
/// `ZeroByte` at the first zero byte, or `OutputTooSmall`.
pub fn decode(src: &[u8], dst: &mut [u8]) -> (r: Result<usize, DecodeError>)
    ensures
        r == decode_outcome(decode_blocks(src@, 0, true), old(dst)@.len() as nat),
        final(dst)@ == decode_fill(decode_blocks(src@, 0, true), old(dst)@),
{
    proof {
        lemma_xor_zero(src@);
    }
    decode_with_sentinel(src, dst, 0)
}

/// Decodes COBS/R `src` that was encoded with `sentinel` into `dst`.
/// `sentinel == 0` is identical to [`decode`].
pub fn decode_with_sentinel(src: &[u8], dst: &mut [u8], sentinel: u8) -> (r: Result<usize, DecodeError>)
    ensures
        r == decode_outcome(decode_run(src@, sentinel, true), old(dst)@.len() as nat),
        final(dst)@ == decode_fill(decode_run(src@, sentinel, true), old(dst)@),
{
    decode_into(src, dst, sentinel, true)
}

/// Decodes COBS/R in place, overwriting the front of `buf` with the decoded
/// bytes and returning their number. `OutputTooSmall` never comes.
pub fn decode_in_place(buf: &mut [u8]) -> (r: Result<usize, DecodeError>)
    ensures
        r == decode_outcome(decode_blocks(old(buf)@, 0, true), old(buf)@.len() as nat),
        final(buf)@ == decode_fill(decode_blocks(old(buf)@, 0, true), old(buf)@),
        r != Err::<usize, DecodeError>(DecodeError::OutputTooSmall),
{
    proof {
        lemma_xor_zero(old(buf)@);
    }
    decode_in_place_with_sentinel(buf, 0)
}

/// Decodes COBS/R encoded with `sentinel` in place. `sentinel == 0` is
/// identical to [`decode_in_place`].
pub fn decode_in_place_with_sentinel(buf: &mut [u8], sentinel: u8) -> (r: Result<usize, DecodeError>)
    ensures
        r == decode_outcome(decode_run(old(buf)@, sentinel, true), old(buf)@.len() as nat),
        final(buf)@ == decode_fill(decode_run(old(buf)@, sentinel, true), old(buf)@),
        r != Err::<usize, DecodeError>(DecodeError::OutputTooSmall),
{
    decode_in_place_into(buf, sentinel, true)
}

/// Encodes `src` with COBS/R, returning a new vector.
pub fn encode_to_vec(src: &[u8]) -> (v: Vec<u8>)
    requires
        spec_max_encoded_len(src@.len()) <= usize::MAX,
    ensures
        v@ == cobsr_encode(src@),
{
    proof {
        lemma_encode_len_bound(src@);
        lemma_reduced_len(src@);
    }
    let mut dst = vec![0u8; crate::max_encoded_len(src.len())];
    let n = encode(src, dst.as_mut_slice());
    dst.truncate(n);
    assert(dst@ =~= cobsr_encode(src@));
    dst
}

/// Encodes `src` with COBS/R and `sentinel`, returning a new vector.
pub fn encode_to_vec_with_sentinel(src: &[u8], sentinel: u8) -> (v: Vec<u8>)
    requires
        spec_max_encoded_len(src@.len()) <= usize::MAX,
    ensures
        v@ == xor_all(cobsr_encode(src@), sentinel),
{
    proof {
        lemma_encode_len_bound(src@);
        lemma_reduced_len(src@);
    }
    let mut dst = vec![0u8; crate::max_encoded_len(src.len())];
    let n = encode_with_sentinel(src, dst.as_mut_slice(), sentinel);
    dst.truncate(n);
    assert(dst@ =~= xor_all(cobsr_encode(src@), sentinel));
    dst
}

/// Decodes COBS/R `src`, returning a new vector; fails exactly when `src`
/// holds a zero byte, with `ZeroByte` at the first one.
pub fn decode_to_vec(src: &[u8]) -> (r: Result<Vec<u8>, DecodeError>)
    ensures
        match decode_blocks(src@, 0, true) {
            (out, None) => r matches Ok(v) && v@ == out,
            (_, Some(e)) => r == Err::<Vec<u8>, DecodeError>(e),
        },
{
    proof {
        lemma_xor_zero(src@);
    }
    decode_to_vec_with_sentinel(src, 0)
}

/// Decodes COBS/R `src` encoded with `sentinel`, returning a new vector.
pub fn decode_to_vec_with_sentinel(src: &[u8], sentinel: u8) -> (r: Result<Vec<u8>, DecodeError>)
    ensures
        match decode_run(src@, sentinel, true) {
            (out, None) => r matches Ok(v) && v@ == out,
            (_, Some(e)) => r == Err::<Vec<u8>, DecodeError>(e),
        },
{
    let mut dst = vec![0u8; src.len()];
    proof {
        lemma_decode_len(xor_all(src@, sentinel), 0, true);
    }
    let r = decode_with_sentinel(src, dst.as_mut_slice(), sentinel);
    match r {
        Ok(n) => {
            dst.truncate(n);
            assert(dst@ =~= decode_run(src@, sentinel, true).0);
            Ok(dst)
        },
        Err(e) => Err(e),
    }
}

// ---------------------------------------------------------------------------
// Laws
// ---------------------------------------------------------------------------

/// The COBS/R encoding of any message contains no zero byte, and with a
/// sentinel no sentinel byte.
pub proof fn encoding_avoids_sentinel(s: Seq<u8>, sentinel: u8)
    ensures
        zero_free(cobsr_encode(s)),
        forall|i: int| 0 <= i < cobsr_encode(s).len() ==> #[trigger] xor_all(cobsr_encode(s), sentinel)[i] != sentinel,
{
    lemma_encode_zero_free(s, true);
    lemma_xor_avoids(cobsr_encode(s), sentinel);
}

/// Decoding the COBS/R encoding of any message, with any sentinel, gives the
/// message back without error.
pub proof fn decode_inverts_encode(s: Seq<u8>, sentinel: u8)
    ensures
        decode_blocks(cobsr_encode(s), 0, true) == (s, None::<DecodeError>),
        decode_run(xor_all(cobsr_encode(s), sentinel), sentinel, true) == (s, None::<DecodeError>),
{
    lemma_decode_encode(s, 0, true);
    lemma_xor_twice(cobsr_encode(s), sentinel);
}

/// The COBS/R encoding is never longer than the basic COBS encoding, and at
/// most one byte shorter.
pub proof fn never_longer_than_cobs(s: Seq<u8>)
    ensures
        cobsr_encode(s).len() <= cobs_encode(s).len(),
        cobsr_encode(s).len() + 1 >= cobs_encode(s).len(),
        cobsr_encode(s).len() <= spec_max_encoded_len(s.len()),
{
    lemma_reduced_len(s);
    lemma_encode_len_bound(s);
}

/// A COBS/R decoder fails exactly when its input holds a zero byte (after
/// removing the sentinel), and reports the first one; it never writes more
/// bytes than its input holds.
pub proof fn decode_fails_only_on_zero(src: Seq<u8>, sentinel: u8)
    ensures
        decode_run(src, sentinel, true).1 == (if nonzero_prefix_len(xor_all(src, sentinel)) < src.len() {
            Some(DecodeError::ZeroByte { index: nonzero_prefix_len(xor_all(src, sentinel)) as usize })
        } else {
            None
        }),
        decode_run(src, sentinel, true).0.len() <= src.len(),
{
    lemma_decode_errors(xor_all(src, sentinel), 0, true);
    lemma_nonzero_prefix(xor_all(src, sentinel));
    lemma_decode_len(xor_all(src, sentinel), 0, true);
}

/// COBS/R encodes a message of `n` zero bytes as basic COBS does: `n + 1`
/// bytes of value one.
pub proof fn zeros_encode_as_in_cobs(n: nat)
    ensures
        cobsr_encode(repeat_byte(0, n)) == repeat_byte(1, n + 1),
        cobsr_encode(repeat_byte(0, n)) == cobs_encode(repeat_byte(0, n)),
{
    lemma_zeros_encode_to_ones(n, true);
    lemma_zeros_encode_to_ones(n, false);
}

/// COBS/R is basic COBS with the final block reduced: both encodings share
/// every block but the last. The basic encoding ends with the code byte
/// `d.len() + 1` and the final data `d` (what follows the last zero byte or
/// the last full run of 254 bytes). When `d` is non-empty and its last byte
/// is at least that code, COBS/R writes the last byte in place of the code
/// and drops it from the tail, one byte shorter; otherwise both encodings are
/// the same.
pub proof fn basic_cobs_with_final_block_reduced(s: Seq<u8>)
    ensures
        ({
            let d = final_data(s);
            let head = cobs_encode(s).take(cobs_encode(s).len() - (d.len() + 1));
            &&& cobs_encode(s) == head + code_block(d)
            &&& cobsr_encode(s) == head + reduced_block(d)
            &&& cobs_encode(s) == head + seq![(d.len() + 1) as u8] + d
            &&& if d.len() > 0 && d.last() as int >= d.len() + 1 {
                &&& cobsr_encode(s) == head + seq![d.last()] + d.drop_last()
                &&& cobsr_encode(s).len() + 1 == cobs_encode(s).len()
            } else {
                cobsr_encode(s) == cobs_encode(s)
            }
        }),
{
    lemma_reduced_is_final_block(s);
    let d = final_data(s);
    let head = cobs_encode(s).take(cobs_encode(s).len() - (d.len() + 1));
    assert(head + code_block(d) =~= head + seq![(d.len() + 1) as u8] + d);
    if d.len() > 0 && d.last() as int >= d.len() + 1 {
        assert(head + reduced_block(d) =~= head + seq![d.last()] + d.drop_last());
    }
}

/// The final data of a message, which COBS/R may reduce, is its last run of
/// non-zero bytes less whole runs of 254: the message is `p + d` with `d`
/// zero-free and at most 254 bytes long, and `p` ends with a zero byte (or is
/// empty) followed by a multiple of 254 non-zero bytes, none of them when `d`
/// is empty.
pub proof fn final_data_is_last_run(s: Seq<u8>)
    ensures
        ({
            let d = final_data(s);
            let p = s.take(s.len() - d.len());
            &&& d.len() <= s.len()
            &&& s == p + d
            &&& zero_free(d)
            &&& d.len() <= 254
            &&& exists|m: int| #![trigger p.skip(m)]
                0 <= m <= p.len() && (m == 0 || p[m - 1] == 0) && zero_free(p.skip(m)) && (p.len() - m) % 254 == 0
                    && (d.len() == 0 ==> m == p.len())
        }),
{
    let m = lemma_final_data_split(s);
    let p = s.take(s.len() - final_data(s).len());
    assert(zero_free(p.skip(m)));
}

} // verus!
