//! The mathematical model of COBS and COBS/R: what an encoding is, what a
//! decoder produces on any input, and the facts the executable code rests on.

use vstd::prelude::*;
use crate::DecodeError;
use crate::spec_encoding_overhead;

verus! {

/// Number of leading non-zero bytes of `s`.
pub open spec fn nonzero_prefix_len(s: Seq<u8>) -> nat
    decreases s.len(),
{
    if s.len() == 0 || s[0] == 0 {
        0
    } else {
        1 + nonzero_prefix_len(s.drop_first())
    }
}

/// `s` holds no zero byte.
pub open spec fn zero_free(s: Seq<u8>) -> bool {
    forall|i: int| 0 <= i < s.len() ==> #[trigger] s[i] != 0
}

/// Number of source bytes the first code block of `s` carries before its
/// terminating zero (or before the 254-byte limit).
pub open spec fn run_len(s: Seq<u8>) -> nat {
    let z = nonzero_prefix_len(s);
    if z < 254 {
        z
    } else {
        254
    }
}

/// A code block: the code byte `d.len() + 1`, then the data bytes `d`.
pub open spec fn code_block(d: Seq<u8>) -> Seq<u8> {
    seq![(d.len() + 1) as u8] + d
}

/// The COBS/R final block: when the last data byte is at least the code
/// byte, it replaces the code byte and is dropped from the tail.
pub open spec fn reduced_block(d: Seq<u8>) -> Seq<u8> {
    if d.len() > 0 && d.last() as int >= d.len() + 1 {
        seq![d.last()] + d.drop_last()
    } else {
        code_block(d)
    }
}

/// The encoding of `s` as a sequence of code blocks; with `reduced`, the final
/// block is written in COBS/R form.
pub open spec fn encode_blocks(s: Seq<u8>, reduced: bool) -> Seq<u8>
    decreases s.len(),
{
    let r = run_len(s);
    if r == 254 && s.len() > 254 {
        code_block(s.take(254)) + encode_blocks(s.skip(254), reduced)
    } else if r < s.len() {
        code_block(s.take(r as int)) + encode_blocks(s.skip(r + 1 as int), reduced)
    } else if reduced {
        reduced_block(s)
    } else {
        code_block(s)
    }
}

/// The basic COBS encoding of `s`.
pub open spec fn cobs_encode(s: Seq<u8>) -> Seq<u8> {
    encode_blocks(s, false)
}

/// The COBS/R encoding of `s`.
pub open spec fn cobsr_encode(s: Seq<u8>) -> Seq<u8> {
    encode_blocks(s, true)
}

/// Every byte of `s` combined with `k` by exclusive or.
pub open spec fn xor_all(s: Seq<u8>, k: u8) -> Seq<u8> {
    Seq::new(s.len(), |i: int| s[i] ^ k)
}

/// The zero byte that a code below 255 stands for after its data.
pub open spec fn separator(code: u8) -> Seq<u8> {
    if code < 255 {
        seq![0u8]
    } else {
        seq![]
    }
}

/// The data bytes of the block whose code byte is `s[0]`, as far as the input
/// reaches.
pub open spec fn block_data(s: Seq<u8>) -> Seq<u8> {
    s.subrange(1, if s[0] < s.len() { s[0] as int } else { s.len() as int })
}

/// What a decoder does with the input `s`, whose first byte sits at input
/// position `base`: the bytes it writes, in order, and the error it stops
/// with, if any, given unlimited room for its output. With `reduced`, a code
/// that points past the end of the input is the COBS/R final block.
pub open spec fn decode_blocks(s: Seq<u8>, base: nat, reduced: bool) -> (Seq<u8>, Option<DecodeError>)
    decreases s.len(),
{
    if s.len() == 0 {
        (seq![], None)
    } else if s[0] == 0 {
        (seq![], Some(DecodeError::ZeroByte { index: base as usize }))
    } else {
        let code = s[0];
        let data = block_data(s);
        let z = nonzero_prefix_len(data);
        if z < data.len() {
            (data.take(z as int), Some(DecodeError::ZeroByte { index: (base + 1 + z) as usize }))
        } else if code > s.len() {
            if reduced {
                (data.push(code), None)
            } else {
                (data, Some(DecodeError::Truncated { index: base as usize }))
            }
        } else if code < s.len() {
            let rest = decode_blocks(s.skip(code as int), (base + code) as nat, reduced);
            (data + separator(code) + rest.0, rest.1)
        } else {
            (data, None)
        }
    }
}

/// What decoding `src` with the given sentinel does, given unlimited room.
pub open spec fn decode_run(src: Seq<u8>, sentinel: u8, reduced: bool) -> (Seq<u8>, Option<DecodeError>) {
    decode_blocks(xor_all(src, sentinel), 0, reduced)
}

/// The result a decoder returns when its output buffer holds `cap` bytes.
pub open spec fn decode_outcome(run: (Seq<u8>, Option<DecodeError>), cap: nat) -> Result<usize, DecodeError> {
    if run.0.len() > cap {
        Err(DecodeError::OutputTooSmall)
    } else {
        match run.1 {
            Some(e) => Err(e),
            None => Ok(run.0.len() as usize),
        }
    }
}

/// The output buffer after decoding: the bytes written, as many as fit, over
/// the buffer's previous contents.
pub open spec fn decode_fill(run: (Seq<u8>, Option<DecodeError>), old_dst: Seq<u8>) -> Seq<u8> {
    let k = if run.0.len() < old_dst.len() { run.0.len() } else { old_dst.len() };
    run.0.take(k as int) + old_dst.skip(k as int)
}

// ---------------------------------------------------------------------------
// Facts about the leading non-zero run
// ---------------------------------------------------------------------------

pub proof fn lemma_nonzero_prefix(s: Seq<u8>)
    ensures
        nonzero_prefix_len(s) <= s.len(),
        forall|i: int| 0 <= i < nonzero_prefix_len(s) ==> #[trigger] s[i] != 0,
        nonzero_prefix_len(s) < s.len() ==> s[nonzero_prefix_len(s) as int] == 0,
    decreases s.len(),
{
    if s.len() > 0 && s[0] != 0 {
        lemma_nonzero_prefix(s.drop_first());
        assert forall|i: int| 0 <= i < nonzero_prefix_len(s) implies #[trigger] s[i] != 0 by {
            if i > 0 {
                assert(s[i] == s.drop_first()[i - 1]);
            }
        }
    }
}

/// The leading non-zero run has length `m` when its first `m` bytes are
/// non-zero and byte `m` is zero or absent.
pub proof fn lemma_nonzero_prefix_is(s: Seq<u8>, m: nat)
    requires
        m <= s.len(),
        forall|i: int| 0 <= i < m ==> #[trigger] s[i] != 0,
        m == s.len() || s[m as int] == 0,
    ensures
        nonzero_prefix_len(s) == m,
{
    lemma_nonzero_prefix(s);
    let z = nonzero_prefix_len(s);
    if z < m {
        assert(s[z as int] != 0);
    } else if z > m {
        assert(s[m as int] != 0);
    }
}

/// The leading non-zero run is at least `m` long when the first `m` bytes are
/// non-zero.
pub proof fn lemma_nonzero_prefix_at_least(s: Seq<u8>, m: nat)
    requires
        m <= s.len(),
        forall|i: int| 0 <= i < m ==> #[trigger] s[i] != 0,
    ensures
        nonzero_prefix_len(s) >= m,
{
    lemma_nonzero_prefix(s);
    let z = nonzero_prefix_len(s);
    if z < m {
        assert(s[z as int] != 0);
    }
}

// ---------------------------------------------------------------------------
// Unfolding the encoder one block at a time
// ---------------------------------------------------------------------------

/// A block that ends at a zero byte at position `k < 254`.
pub proof fn lemma_encode_zero_step(s: Seq<u8>, k: nat, reduced: bool)
    requires
        k < 254,
        k < s.len(),
        forall|i: int| 0 <= i < k ==> #[trigger] s[i] != 0,
        s[k as int] == 0,
    ensures
        encode_blocks(s, reduced) == code_block(s.take(k as int)) + encode_blocks(s.skip(k + 1 as int), reduced),
{
    lemma_nonzero_prefix_is(s, k);
}

/// A full block of 254 non-zero bytes with more input after it.
pub proof fn lemma_encode_split_step(s: Seq<u8>, reduced: bool)
    requires
        s.len() > 254,
        forall|i: int| 0 <= i < 254 ==> #[trigger] s[i] != 0,
    ensures
        encode_blocks(s, reduced) == code_block(s.take(254)) + encode_blocks(s.skip(254), reduced),
{
    lemma_nonzero_prefix_at_least(s, 254);
}

/// The final block: at most 254 bytes, none of them zero.
pub proof fn lemma_encode_final_step(s: Seq<u8>, reduced: bool)
    requires
        s.len() <= 254,
        zero_free(s),
    ensures
        encode_blocks(s, reduced) == (if reduced { reduced_block(s) } else { code_block(s) }),
{
    lemma_nonzero_prefix_is(s, s.len());
}

/// The encoding's first block holds at least the leading non-zero bytes, up
/// to 254 of them.
pub proof fn lemma_encode_first_block_len(s: Seq<u8>, m: nat)
    requires
        m <= s.len(),
        m <= 254,
        forall|i: int| 0 <= i < m ==> #[trigger] s[i] != 0,
    ensures
        encode_blocks(s, false).len() >= m + 1,
{
    lemma_nonzero_prefix_at_least(s, m);
    lemma_nonzero_prefix(s);
    reveal_with_fuel(encode_blocks, 1);
}

/// Every encoding is at least one byte long.
pub proof fn lemma_encode_nonempty(s: Seq<u8>, reduced: bool)
    ensures
        encode_blocks(s, reduced).len() >= 1,
{
    lemma_nonzero_prefix(s);
}

/// The encoding of an `n`-byte message is at most `n + ceil(n / 254)` bytes
/// long (one byte for the empty message).
pub proof fn lemma_encode_len_bound(s: Seq<u8>)
    ensures
        encode_blocks(s, false).len() <= s.len() + spec_encoding_overhead(s.len()),
    decreases s.len(),
{
    lemma_nonzero_prefix(s);
    let r = run_len(s);
    if r == 254 && s.len() > 254 {
        lemma_encode_len_bound(s.skip(254));
    } else if r < s.len() {
        let m = (s.len() - r - 1) as nat;
        lemma_encode_len_bound(s.skip(r + 1 as int));
        if m > 0 {
            assert((m - 1) / 254 <= (s.len() - 1) / 254) by (nonlinear_arith)
                requires m <= s.len(), m >= 1;
        }
    }
}

/// The COBS/R encoding is the basic encoding, or one byte shorter.
pub proof fn lemma_reduced_len(s: Seq<u8>)
    ensures
        encode_blocks(s, true).len() <= encode_blocks(s, false).len(),
        encode_blocks(s, true).len() + 1 >= encode_blocks(s, false).len(),
    decreases s.len(),
{
    lemma_nonzero_prefix(s);
    let r = run_len(s);
    if r == 254 && s.len() > 254 {
        lemma_reduced_len(s.skip(254));
    } else if r < s.len() {
        lemma_reduced_len(s.skip(r + 1 as int));
    }
}

// ---------------------------------------------------------------------------
// What decoding does with an encoding, and other facts about the model
// ---------------------------------------------------------------------------

/// No encoding holds a zero byte.
pub proof fn lemma_encode_zero_free(s: Seq<u8>, reduced: bool)
    ensures
        zero_free(encode_blocks(s, reduced)),
    decreases s.len(),
{
    lemma_nonzero_prefix(s);
    let r = run_len(s);
    let e = encode_blocks(s, reduced);
    if r == 254 && s.len() > 254 {
        lemma_encode_zero_free(s.skip(254), reduced);
        let t = s.take(254);
        let rest = encode_blocks(s.skip(254), reduced);
        assert forall|i: int| 0 <= i < e.len() implies #[trigger] e[i] != 0 by {
            if i == 0 {
            } else if i < 255 {
                assert(e[i] == t[i - 1]);
            } else {
                assert(e[i] == rest[i - 255]);
            }
        }
    } else if r < s.len() {
        lemma_encode_zero_free(s.skip(r + 1 as int), reduced);
        let t = s.take(r as int);
        let rest = encode_blocks(s.skip(r + 1 as int), reduced);
        assert forall|i: int| 0 <= i < e.len() implies #[trigger] e[i] != 0 by {
            if i == 0 {
            } else if i < r + 1 {
                assert(e[i] == t[i - 1]);
            } else {
                assert(e[i] == rest[i - r - 1]);
            }
        }
    } else {
        assert forall|i: int| 0 <= i < e.len() implies #[trigger] e[i] != 0 by {
            if i > 0 {
                assert(e[i] == s[i - 1]);
            }
        }
    }
}

/// Decoding an encoding gives back the message, without error.
pub proof fn lemma_decode_encode(s: Seq<u8>, base: nat, reduced: bool)
    ensures
        decode_blocks(encode_blocks(s, reduced), base, reduced) == (s, None::<DecodeError>),
    decreases s.len(),
{
    lemma_nonzero_prefix(s);
    let r = run_len(s);
    let e = encode_blocks(s, reduced);
    if r == 254 && s.len() > 254 {
        let t = s.take(254);
        let rest = encode_blocks(s.skip(254), reduced);
        lemma_encode_nonempty(s.skip(254), reduced);
        lemma_decode_encode(s.skip(254), base + 255, reduced);
        assert(block_data(e) =~= t);
        lemma_nonzero_prefix_is(t, 254);
        assert(e.skip(255) =~= rest);
        assert(t + separator(255) + s.skip(254) =~= s);
    } else if r < s.len() {
        let t = s.take(r as int);
        let rest = encode_blocks(s.skip(r + 1 as int), reduced);
        lemma_encode_nonempty(s.skip(r + 1 as int), reduced);
        lemma_decode_encode(s.skip(r + 1 as int), base + r + 1, reduced);
        assert(block_data(e) =~= t);
        lemma_nonzero_prefix_is(t, r);
        assert(e.skip(r + 1 as int) =~= rest);
        assert(t + separator((r + 1) as u8) + s.skip(r + 1 as int) =~= s);
    } else if reduced && s.len() > 0 && s.last() as int >= s.len() + 1 {
        let t = s.drop_last();
        assert(block_data(e) =~= t);
        lemma_nonzero_prefix_is(t, t.len());
        assert(t.push(s.last()) =~= s);
    } else {
        assert(block_data(e) =~= s);
        lemma_nonzero_prefix_is(s, s.len());
    }
}

/// A non-empty input that a basic decoder accepts is at least as long as the
/// encoding of what it decodes to, and exactly as long only when it is that
/// encoding.
pub proof fn lemma_encoding_is_shortest(y: Seq<u8>, base: nat)
    requires
        y.len() > 0,
        decode_blocks(y, base, false).1 is None,
    ensures
        encode_blocks(decode_blocks(y, base, false).0, false).len() <= y.len(),
        encode_blocks(decode_blocks(y, base, false).0, false).len() == y.len() ==> y == encode_blocks(
            decode_blocks(y, base, false).0,
            false,
        ),
    decreases y.len(),
{
    let c = y[0];
    let data = block_data(y);
    let s = decode_blocks(y, base, false).0;
    lemma_nonzero_prefix(data);
    assert(nonzero_prefix_len(data) == data.len());
    assert(c <= y.len());
    assert(data.len() == c - 1);
    assert(zero_free(data));
    if c == y.len() {
        assert(s == data);
        lemma_encode_final_step(s, false);
        assert(y =~= code_block(s));
    } else {
        let y2 = y.skip(c as int);
        let base2 = (base + c) as nat;
        let s2 = decode_blocks(y2, base2, false).0;
        lemma_encoding_is_shortest(y2, base2);
        let e2 = encode_blocks(s2, false);
        if c < 255 {
            assert(s == data + seq![0u8] + s2);
            assert(s.take(data.len() as int) =~= data);
            assert(s.skip(data.len() + 1 as int) =~= s2);
            lemma_encode_zero_step(s, data.len(), false);
            if e2.len() == y2.len() {
                assert(y =~= code_block(data) + y2);
            }
        } else {
            assert(s == data + s2);
            if s2.len() == 0 {
                assert(s =~= data);
                lemma_encode_final_step(s, false);
            } else {
                assert(s.take(254) =~= data);
                assert(s.skip(254) =~= s2);
                lemma_encode_split_step(s, false);
                if e2.len() == y2.len() {
                    assert(y =~= code_block(data) + y2);
                }
            }
        }
    }
}

/// A decoder never writes more bytes than its input holds.
pub proof fn lemma_decode_len(s: Seq<u8>, base: nat, reduced: bool)
    ensures
        decode_blocks(s, base, reduced).0.len() <= s.len(),
        decode_blocks(s, base, reduced).1 != Some(DecodeError::OutputTooSmall),
    decreases s.len(),
{
    if s.len() > 0 && s[0] != 0 {
        let code = s[0];
        let data = block_data(s);
        lemma_nonzero_prefix(data);
        if nonzero_prefix_len(data) == data.len() && code < s.len() {
            lemma_decode_len(s.skip(code as int), (base + code) as nat, reduced);
        }
    }
}

/// Combining with the zero byte changes nothing.
pub proof fn lemma_xor_zero(s: Seq<u8>)
    ensures
        xor_all(s, 0) == s,
{
    assert forall|i: int| 0 <= i < s.len() implies #[trigger] xor_all(s, 0)[i] == s[i] by {
        let b = s[i];
        assert(b ^ 0 == b) by (bit_vector);
    }
    assert(xor_all(s, 0) =~= s);
}

/// Combining with the same byte twice changes nothing.
pub proof fn lemma_xor_twice(s: Seq<u8>, k: u8)
    ensures
        xor_all(xor_all(s, k), k) == s,
{
    assert forall|i: int| 0 <= i < s.len() implies #[trigger] xor_all(xor_all(s, k), k)[i] == s[i] by {
        let b = s[i];
        assert((b ^ k) ^ k == b) by (bit_vector);
    }
    assert(xor_all(xor_all(s, k), k) =~= s);
}

/// A sequence without zero bytes, combined with `k`, holds no byte `k`.
pub proof fn lemma_xor_avoids(s: Seq<u8>, k: u8)
    requires
        zero_free(s),
    ensures
        forall|i: int| 0 <= i < s.len() ==> #[trigger] xor_all(s, k)[i] != k,
{
    assert forall|i: int| 0 <= i < s.len() implies #[trigger] xor_all(s, k)[i] != k by {
        let b = s[i];
        assert(b != 0 ==> b ^ k != k) by (bit_vector);
    }
}

/// The basic encoding of an `n`-byte message is at least `n + 1` bytes long.
pub proof fn lemma_encode_len_lower(s: Seq<u8>)
    ensures
        encode_blocks(s, false).len() >= s.len() + 1,
    decreases s.len(),
{
    lemma_nonzero_prefix(s);
    let r = run_len(s);
    if r == 254 && s.len() > 254 {
        lemma_encode_len_lower(s.skip(254));
    } else if r < s.len() {
        lemma_encode_len_lower(s.skip(r + 1 as int));
    }
}

/// Skipping `m` leading non-zero bytes shortens the leading non-zero run by `m`.
pub proof fn lemma_nonzero_prefix_skip(s: Seq<u8>, m: nat)
    requires
        m <= s.len(),
        forall|i: int| 0 <= i < m ==> #[trigger] s[i] != 0,
    ensures
        nonzero_prefix_len(s) == m + nonzero_prefix_len(s.skip(m as int)),
    decreases m,
{
    if m > 0 {
        assert(s[0] != 0);
        assert forall|i: int| 0 <= i < m - 1 implies #[trigger] s.drop_first()[i] != 0 by {
            assert(s.drop_first()[i] == s[i + 1]);
        }
        lemma_nonzero_prefix_skip(s.drop_first(), (m - 1) as nat);
        assert(s.drop_first().skip(m - 1) =~= s.skip(m as int));
    } else {
        assert(s.skip(0) =~= s);
    }
}

/// A decoder stops at the first zero byte of its input with `ZeroByte`; on
/// input without a zero byte, COBS/R decoding succeeds and basic COBS
/// decoding succeeds or stops with `Truncated`.
pub proof fn lemma_decode_errors(s: Seq<u8>, base: nat, reduced: bool)
    ensures
        nonzero_prefix_len(s) < s.len() ==> decode_blocks(s, base, reduced).1 == Some(
            DecodeError::ZeroByte { index: (base + nonzero_prefix_len(s)) as usize },
        ),
        nonzero_prefix_len(s) == s.len() && reduced ==> decode_blocks(s, base, reduced).1 is None,
        nonzero_prefix_len(s) == s.len() && !reduced ==> decode_blocks(s, base, reduced).1 is None
            || decode_blocks(s, base, reduced).1 matches Some(DecodeError::Truncated { .. }),
    decreases s.len(),
{
    lemma_nonzero_prefix(s);
    if s.len() > 0 && s[0] != 0 {
        let code = s[0];
        let data = block_data(s);
        lemma_nonzero_prefix(data);
        let z = nonzero_prefix_len(data);
        assert forall|i: int| 0 <= i < z + 1 implies #[trigger] s[i] != 0 by {
            if i > 0 {
                assert(s[i] == data[i - 1]);
            }
        }
        if z < data.len() {
            assert(s[z + 1 as int] == data[z as int]);
            lemma_nonzero_prefix_is(s, z + 1);
        } else if code > s.len() {
            lemma_nonzero_prefix_is(s, s.len());
        } else if code < s.len() {
            lemma_decode_errors(s.skip(code as int), (base + code) as nat, reduced);
            lemma_nonzero_prefix_skip(s, code as nat);
            lemma_nonzero_prefix(s.skip(code as int));
        } else {
            lemma_nonzero_prefix_is(s, s.len());
        }
    }
}

/// A successful basic-COBS decode of a non-empty input is shorter than the
/// input.
pub proof fn lemma_decode_shrinks(s: Seq<u8>, base: nat)
    requires
        s.len() > 0,
        decode_blocks(s, base, false).1 is None,
    ensures
        decode_blocks(s, base, false).0.len() < s.len(),
    decreases s.len(),
{
    let code = s[0];
    let data = block_data(s);
    lemma_nonzero_prefix(data);
    if code < s.len() {
        lemma_decode_shrinks(s.skip(code as int), (base + code) as nat);
    }
}

/// `n` copies of the byte `b`.
pub open spec fn repeat_byte(b: u8, n: nat) -> Seq<u8> {
    Seq::new(n, |i: int| b)
}

/// A message of `n` zero bytes encodes, in COBS and in COBS/R alike, as
/// `n + 1` bytes of value one.
pub proof fn lemma_zeros_encode_to_ones(n: nat, reduced: bool)
    ensures
        encode_blocks(repeat_byte(0, n), reduced) == repeat_byte(1, n + 1),
    decreases n,
{
    let s = repeat_byte(0, n);
    if n == 0 {
        assert(code_block(s) =~= repeat_byte(1, 1));
    } else {
        lemma_nonzero_prefix_is(s, 0);
        assert(s.skip(1) =~= repeat_byte(0, (n - 1) as nat));
        lemma_zeros_encode_to_ones((n - 1) as nat, reduced);
        assert(code_block(s.take(0)) + repeat_byte(1, n) =~= repeat_byte(1, n + 1));
    }
}

/// A message cut into runs of 254 bytes (the last one shorter), each written
/// as a code block.
pub open spec fn runs_of_254(s: Seq<u8>) -> Seq<u8>
    decreases s.len(),
{
    if s.len() <= 254 {
        code_block(s)
    } else {
        code_block(s.take(254)) + runs_of_254(s.skip(254))
    }
}

/// A message without zero bytes encodes as its runs of 254 bytes.
pub proof fn lemma_zero_free_encodes_in_runs(s: Seq<u8>)
    requires
        zero_free(s),
    ensures
        encode_blocks(s, false) == runs_of_254(s),
    decreases s.len(),
{
    lemma_nonzero_prefix_is(s, s.len());
    if s.len() > 254 {
        let t = s.skip(254);
        assert forall|i: int| 0 <= i < t.len() implies #[trigger] t[i] != 0 by {
            assert(t[i] == s[i + 254]);
        }
        lemma_zero_free_encodes_in_runs(t);
    }
}

/// The data of the final block of the encoding of `s`: what follows the last
/// zero byte, or the last full run of 254 bytes.
pub open spec fn final_data(s: Seq<u8>) -> Seq<u8>
    decreases s.len(),
{
    let r = run_len(s);
    if r == 254 && s.len() > 254 {
        final_data(s.skip(254))
    } else if r < s.len() {
        final_data(s.skip(r + 1 as int))
    } else {
        s
    }
}

/// The final data is the tail of the message after its last zero byte, less
/// the full runs of 254 bytes before it: `s` is `p + d` with `d` zero-free
/// and at most 254 bytes long, and `p` ends with a zero byte (or is empty)
/// followed by a multiple of 254 non-zero bytes, none of them when `d` is
/// empty. Returns where that zero-free part of `p` starts.
pub proof fn lemma_final_data_split(s: Seq<u8>) -> (m: int)
    ensures
        final_data(s).len() <= s.len(),
        s == s.take(s.len() - final_data(s).len()) + final_data(s),
        zero_free(final_data(s)),
        final_data(s).len() <= 254,
        ({
            let p = s.take(s.len() - final_data(s).len());
            &&& 0 <= m <= p.len()
            &&& m == 0 || p[m - 1] == 0
            &&& zero_free(p.skip(m))
            &&& (p.len() - m) % 254 == 0
            &&& final_data(s).len() == 0 ==> m == p.len()
        }),
    decreases s.len(),
{
    lemma_nonzero_prefix(s);
    let r = run_len(s);
    let d = final_data(s);
    if r == 254 && s.len() > 254 {
        let t = s.skip(254);
        let mt = lemma_final_data_split(t);
        let pt = t.take(t.len() - d.len());
        let p = s.take(s.len() - d.len());
        assert(p =~= s.take(254) + pt);
        assert(s =~= s.take(254) + t);
        if mt == 0 {
            assert(pt.len() > 0 || d.len() > 0);
            assert(p.skip(0) =~= s.take(254) + pt.skip(0));
            assert forall|i: int| 0 <= i < p.len() implies #[trigger] p.skip(0)[i] != 0 by {
                if i >= 254 {
                    assert(p[i] == pt.skip(0)[i - 254]);
                }
            }
            assert((p.len() - 0) % 254 == 0) by {
                assert(p.len() == 254 + pt.len());
            }
            0
        } else {
            let m = mt + 254;
            assert(p[m - 1] == pt[mt - 1]);
            assert(p.skip(m) =~= pt.skip(mt));
            m
        }
    } else if r < s.len() {
        let r = r as int;
        let t = s.skip(r + 1);
        let mt = lemma_final_data_split(t);
        let pt = t.take(t.len() - d.len());
        let p = s.take(s.len() - d.len());
        assert(p =~= s.take(r + 1) + pt);
        assert(s =~= s.take(r + 1) + t);
        if mt == 0 {
            let m = r + 1;
            assert(p[m - 1] == s[r as int]);
            assert(p.skip(m) =~= pt.skip(0));
            m
        } else {
            let m = mt + r + 1;
            assert(p[m - 1] == pt[mt - 1]);
            assert(p.skip(m) =~= pt.skip(mt));
            m
        }
    } else {
        assert(d == s);
        assert(s.take(0) + s =~= s);
        assert(zero_free(s));
        assert(s.take(0).skip(0) =~= seq![]);
        0
    }
}

/// The COBS/R encoding is the basic encoding with its final block written in
/// reduced form.
pub proof fn lemma_reduced_is_final_block(s: Seq<u8>)
    ensures
        ({
            let d = final_data(s);
            let e = encode_blocks(s, false);
            let head = e.take(e.len() - (d.len() + 1));
            &&& e.len() >= d.len() + 1
            &&& e == head + code_block(d)
            &&& encode_blocks(s, true) == head + reduced_block(d)
        }),
    decreases s.len(),
{
    lemma_nonzero_prefix(s);
    let r = run_len(s);
    let d = final_data(s);
    if r == 254 && s.len() > 254 {
        let t = s.skip(254);
        lemma_reduced_is_final_block(t);
        let cb = code_block(s.take(254));
        let e2 = encode_blocks(t, false);
        let h2 = e2.take(e2.len() - (d.len() + 1));
        assert(encode_blocks(s, false).take(encode_blocks(s, false).len() - (d.len() + 1)) =~= cb + h2);
        assert(cb + (h2 + code_block(d)) =~= (cb + h2) + code_block(d));
        assert(cb + (h2 + reduced_block(d)) =~= (cb + h2) + reduced_block(d));
    } else if r < s.len() {
        let t = s.skip(r + 1 as int);
        lemma_reduced_is_final_block(t);
        let cb = code_block(s.take(r as int));
        let e2 = encode_blocks(t, false);
        let h2 = e2.take(e2.len() - (d.len() + 1));
        assert(encode_blocks(s, false).take(encode_blocks(s, false).len() - (d.len() + 1)) =~= cb + h2);
        assert(cb + (h2 + code_block(d)) =~= (cb + h2) + code_block(d));
        assert(cb + (h2 + reduced_block(d)) =~= (cb + h2) + reduced_block(d));
    } else {
        assert(code_block(s).take(0) =~= seq![]);
        assert(seq![] + code_block(s) =~= code_block(s));
        assert(seq![] + reduced_block(s) =~= reduced_block(s));
    }
}

} // verus!
