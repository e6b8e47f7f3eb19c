//! Basic Consistent Overhead Byte Stuffing (COBS).

use vstd::prelude::*;
use crate::codec::{decode_in_place_into, decode_into, encode_into, xor_prefix};
use crate::model::{
    cobs_encode, decode_blocks, decode_fill, decode_outcome, decode_run, lemma_decode_encode,
    lemma_decode_len, lemma_encode_len_bound, lemma_encode_len_lower, lemma_encode_zero_free,
    lemma_encoding_is_shortest,
    lemma_xor_avoids, lemma_xor_twice, lemma_xor_zero, lemma_zeros_encode_to_ones, repeat_byte,
    lemma_zero_free_encodes_in_runs, runs_of_254,
    xor_all, zero_free, lemma_decode_errors, lemma_decode_shrinks, lemma_nonzero_prefix,
    nonzero_prefix_len,
};
use crate::{spec_max_encoded_len, DecodeError};

verus! {

/// Encodes `src` with basic COBS into `dst`, returning the number of bytes
/// written. The output never contains a zero byte; the empty input encodes
/// to `[0x01]`. `dst` must hold at least `max_encoded_len(src.len())` bytes.
pub fn encode(src: &[u8], dst: &mut [u8]) -> (n: usize)
    requires
        old(dst)@.len() >= spec_max_encoded_len(src@.len()),
    ensures
        n == cobs_encode(src@).len(),
        final(dst)@.len() == old(dst)@.len(),
        final(dst)@.take(n as int) == cobs_encode(src@),
        final(dst)@.skip(n as int) == old(dst)@.skip(n as int),
{
    proof {
        lemma_encode_len_bound(src@);
    }
    let n = encode_into(src, dst, false);
    assert forall|i: int| 0 <= i < dst@.len() - n implies #[trigger] dst@.skip(n as int)[i] == old(dst)@.skip(n as int)[i] by {
        assert(dst@[n + i] == old(dst)@[n + i]);
    }
    assert(dst@.skip(n as int) =~= old(dst)@.skip(n as int));
    n
}

/// Encodes `src` with basic COBS into `dst` using `sentinel` in place of the
/// zero byte: the output never contains `sentinel`. `sentinel == 0` is
/// identical to [`encode`].
pub fn encode_with_sentinel(src: &[u8], dst: &mut [u8], sentinel: u8) -> (n: usize)
    requires
        old(dst)@.len() >= spec_max_encoded_len(src@.len()),
    ensures
        n == cobs_encode(src@).len(),
        final(dst)@.len() == old(dst)@.len(),
        final(dst)@.take(n as int) == xor_all(cobs_encode(src@), sentinel),
        final(dst)@.skip(n as int) == old(dst)@.skip(n as int),
{
    proof {
        lemma_encode_len_bound(src@);
    }
    let n = encode(src, dst);
    xor_prefix(dst, n, sentinel);
    assert(dst@.take(n as int) =~= xor_all(cobs_encode(src@), sentinel));
    assert(dst@.skip(n as int) =~= old(dst)@.skip(n as int));
    n
}

/// Decodes basic-COBS `src` (a single packet, without delimiters) into `dst`,
/// returning the number of bytes written. The empty input decodes to nothing.
/// Fails with `ZeroByte` or `Truncated` on invalid input, at the first fault
/// met, and with `OutputTooSmall` when `dst` cannot hold the output.
pub fn decode(src: &[u8], dst: &mut [u8]) -> (r: Result<usize, DecodeError>)
    ensures
        r == decode_outcome(decode_blocks(src@, 0, false), old(dst)@.len() as nat),
        final(dst)@ == decode_fill(decode_blocks(src@, 0, false), old(dst)@),
{
    proof {
        lemma_xor_zero(src@);
    }
    decode_into(src, dst, 0, false)
}

/// Decodes basic-COBS `src` that was encoded with `sentinel` (see
/// [`encode_with_sentinel`]) into `dst`. `sentinel == 0` is identical to
/// [`decode`].
pub fn decode_with_sentinel(src: &[u8], dst: &mut [u8], sentinel: u8) -> (r: Result<usize, DecodeError>)
    ensures
        r == decode_outcome(decode_run(src@, sentinel, false), old(dst)@.len() as nat),
        final(dst)@ == decode_fill(decode_run(src@, sentinel, false), old(dst)@),
{
    decode_into(src, dst, sentinel, false)
}

/// Decodes basic COBS in place: the decoded bytes overwrite the front of
/// `buf`, and their number is returned. Decoding never expands, so
/// `OutputTooSmall` never comes; otherwise the result is that of [`decode`].
pub fn decode_in_place(buf: &mut [u8]) -> (r: Result<usize, DecodeError>)
    ensures
        r == decode_outcome(decode_blocks(old(buf)@, 0, false), old(buf)@.len() as nat),
        final(buf)@ == decode_fill(decode_blocks(old(buf)@, 0, false), old(buf)@),
        r != Err::<usize, DecodeError>(DecodeError::OutputTooSmall),
{
    proof {
        lemma_xor_zero(old(buf)@);
    }
    decode_in_place_into(buf, 0, false)
}

/// Decodes basic COBS encoded with `sentinel` in place. `sentinel == 0` is
/// identical to [`decode_in_place`].
pub fn decode_in_place_with_sentinel(buf: &mut [u8], sentinel: u8) -> (r: Result<usize, DecodeError>)
    ensures
        r == decode_outcome(decode_run(old(buf)@, sentinel, false), old(buf)@.len() as nat),
        final(buf)@ == decode_fill(decode_run(old(buf)@, sentinel, false), old(buf)@),
        r != Err::<usize, DecodeError>(DecodeError::OutputTooSmall),
{
    decode_in_place_into(buf, sentinel, false)
}

/// Encodes `src` with basic COBS, returning a new vector.
pub fn encode_to_vec(src: &[u8]) -> (v: Vec<u8>)
    requires
        spec_max_encoded_len(src@.len()) <= usize::MAX,
    ensures
        v@ == cobs_encode(src@),
{
    let mut dst = vec![0u8; crate::max_encoded_len(src.len())];
    proof {
        lemma_encode_len_bound(src@);
    }
    let n = encode(src, dst.as_mut_slice());
    dst.truncate(n);
    assert(dst@ =~= cobs_encode(src@));
    dst
}

/// Encodes `src` with basic COBS and `sentinel`, returning a new vector.
pub fn encode_to_vec_with_sentinel(src: &[u8], sentinel: u8) -> (v: Vec<u8>)
    requires
        spec_max_encoded_len(src@.len()) <= usize::MAX,
    ensures
        v@ == xor_all(cobs_encode(src@), sentinel),
{
    let mut dst = vec![0u8; crate::max_encoded_len(src.len())];
    proof {
        lemma_encode_len_bound(src@);
    }
    let n = encode_with_sentinel(src, dst.as_mut_slice(), sentinel);
    dst.truncate(n);
    assert(dst@ =~= xor_all(cobs_encode(src@), sentinel));
    dst
}

/// Decodes basic-COBS `src`, returning a new vector. Fails with `ZeroByte`
/// or `Truncated` exactly when [`decode`] does; never with `OutputTooSmall`.
pub fn decode_to_vec(src: &[u8]) -> (r: Result<Vec<u8>, DecodeError>)
    ensures
        match decode_blocks(src@, 0, false) {
            (out, None) => r matches Ok(v) && v@ == out,
            (_, Some(e)) => r == Err::<Vec<u8>, DecodeError>(e),
        },
{
    proof {
        lemma_xor_zero(src@);
    }
    decode_to_vec_with_sentinel(src, 0)
}

/// Decodes basic-COBS `src` encoded with `sentinel`, returning a new vector.
pub fn decode_to_vec_with_sentinel(src: &[u8], sentinel: u8) -> (r: Result<Vec<u8>, DecodeError>)
    ensures
        match decode_run(src@, sentinel, false) {
            (out, None) => r matches Ok(v) && v@ == out,
            (_, Some(e)) => r == Err::<Vec<u8>, DecodeError>(e),
        },
{
    let mut dst = vec![0u8; src.len()];
    proof {
        lemma_decode_len(xor_all(src@, sentinel), 0, false);
    }
    let r = decode_with_sentinel(src, dst.as_mut_slice(), sentinel);
    match r {
        Ok(n) => {
            dst.truncate(n);
            assert(dst@ =~= decode_run(src@, sentinel, false).0);
            Ok(dst)
        },
        Err(e) => Err(e),
    }
}

// ---------------------------------------------------------------------------
// Laws
// ---------------------------------------------------------------------------

/// The COBS encoding of any message contains no zero byte, and with a sentinel
/// it contains no sentinel byte.
pub proof fn encoding_avoids_sentinel(s: Seq<u8>, sentinel: u8)
    ensures
        zero_free(cobs_encode(s)),
        forall|i: int| 0 <= i < cobs_encode(s).len() ==> #[trigger] xor_all(cobs_encode(s), sentinel)[i] != sentinel,
{
    lemma_encode_zero_free(s, false);
    lemma_xor_avoids(cobs_encode(s), sentinel);
}

/// Decoding the COBS encoding of any message, with any sentinel, gives the
/// message back without error.
pub proof fn decode_inverts_encode(s: Seq<u8>, sentinel: u8)
    ensures
        decode_blocks(cobs_encode(s), 0, false) == (s, None::<DecodeError>),
        decode_run(xor_all(cobs_encode(s), sentinel), sentinel, false) == (s, None::<DecodeError>),
{
    lemma_decode_encode(s, 0, false);
    lemma_xor_twice(cobs_encode(s), sentinel);
}

/// The encoding is the shortest non-empty input that decodes to the message,
/// and the only one of its length: a non-empty input that decodes without
/// error, with any sentinel, is at least as long as the encoding of what it
/// decodes to, and as long only when it is that encoding (so a final run of
/// 254 bytes gets no trailing empty block).
pub proof fn encoding_is_shortest(src: Seq<u8>, sentinel: u8)
    requires
        src.len() > 0,
        decode_run(src, sentinel, false).1 is None,
    ensures
        cobs_encode(decode_run(src, sentinel, false).0).len() <= src.len(),
        cobs_encode(decode_run(src, sentinel, false).0).len() == src.len() ==> src == xor_all(
            cobs_encode(decode_run(src, sentinel, false).0),
            sentinel,
        ),
{
    let x = xor_all(src, sentinel);
    lemma_encoding_is_shortest(x, 0);
    lemma_xor_twice(src, sentinel);
}

/// The encoding of an `n`-byte message is at most `max_encoded_len(n)`
/// bytes long, and at least `n + 1`.
pub proof fn encoded_len_bounds(s: Seq<u8>)
    ensures
        cobs_encode(s).len() <= spec_max_encoded_len(s.len()),
        cobs_encode(s).len() >= s.len() + 1,
{
    lemma_encode_len_bound(s);
    lemma_encode_len_lower(s);
}

/// The decoder writes no more bytes than its input holds, so a buffer of
/// `src.len()` bytes never overflows and in-place decoding agrees with
/// decoding into any buffer at least that long.
pub proof fn decode_never_expands(src: Seq<u8>, sentinel: u8, cap: nat)
    requires
        cap >= src.len(),
    ensures
        decode_run(src, sentinel, false).0.len() <= src.len(),
        decode_outcome(decode_run(src, sentinel, false), cap) == decode_outcome(decode_run(src, sentinel, false), src.len()),
        decode_outcome(decode_run(src, sentinel, false), cap) != Err::<usize, DecodeError>(DecodeError::OutputTooSmall),
{
    lemma_decode_len(xor_all(src, sentinel), 0, false);
}

/// A zero sentinel gives the plain codec.
pub proof fn zero_sentinel_is_plain(s: Seq<u8>, src: Seq<u8>)
    ensures
        xor_all(cobs_encode(s), 0) == cobs_encode(s),
        decode_run(src, 0, false) == decode_blocks(src, 0, false),
{
    lemma_xor_zero(cobs_encode(s));
    lemma_xor_zero(src);
}

/// A message of `n` zero bytes encodes as `n + 1` bytes of value one.
pub proof fn zeros_encode_to_ones(n: nat)
    ensures
        cobs_encode(repeat_byte(0, n)) == repeat_byte(1, n + 1),
{
    lemma_zeros_encode_to_ones(n, false);
}

/// A message without zero bytes encodes as its runs of 254 bytes, each
/// preceded by its length plus one.
pub proof fn zero_free_message_encodes_in_runs(s: Seq<u8>)
    requires
        zero_free(s),
    ensures
        cobs_encode(s) == runs_of_254(s),
{
    lemma_zero_free_encodes_in_runs(s);
}

/// A COBS decoder stops with `ZeroByte` at the first zero byte of its input
/// (after removing the sentinel); on input without one it succeeds or stops
/// with `Truncated`, and a successful decode of a non-empty input is shorter
/// than the input.
pub proof fn decode_fails_at_first_zero(src: Seq<u8>, sentinel: u8)
    ensures
        nonzero_prefix_len(xor_all(src, sentinel)) < src.len() ==> decode_run(src, sentinel, false).1 == Some(
            DecodeError::ZeroByte { index: nonzero_prefix_len(xor_all(src, sentinel)) as usize },
        ),
        nonzero_prefix_len(xor_all(src, sentinel)) >= src.len() ==> decode_run(src, sentinel, false).1 is None
            || decode_run(src, sentinel, false).1 matches Some(DecodeError::Truncated { .. }),
        src.len() > 0 && decode_run(src, sentinel, false).1 is None ==> decode_run(src, sentinel, false).0.len() < src.len(),
{
    let x = xor_all(src, sentinel);
    lemma_nonzero_prefix(x);
    lemma_decode_errors(x, 0, false);
    if src.len() > 0 && decode_run(src, sentinel, false).1 is None {
        lemma_decode_shrinks(x, 0);
    }
}

} // verus!
