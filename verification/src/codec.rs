//! The block encoder and decoders that the `cobs` and `cobsr` modules share:
//! the two codecs differ only in how the final block is written and read.

use vstd::prelude::*;
use crate::model::{
    cobs_encode, code_block, encode_blocks, lemma_encode_final_step, lemma_encode_first_block_len,
    lemma_encode_len_bound, lemma_encode_nonempty, lemma_encode_split_step, lemma_encode_zero_step,
    reduced_block, zero_free, block_data, decode_blocks, decode_fill, decode_outcome, decode_run,
    lemma_nonzero_prefix, lemma_nonzero_prefix_at_least, lemma_nonzero_prefix_is, nonzero_prefix_len,
    separator, xor_all, lemma_xor_zero,
};
use crate::DecodeError;
use crate::spec_max_encoded_len;

verus! {

/// Splitting a buffer after a completed block: what precedes the block, its
/// code byte, and its data.
proof fn lemma_take_block(a: Seq<u8>, ci: int, wi: int, head: Seq<u8>, c: u8, d: Seq<u8>)
    requires
        0 <= ci < wi <= a.len(),
        a.take(ci) == head,
        a.subrange(ci + 1, wi) == d,
    ensures
        a.update(ci, c).take(wi) == head + seq![c] + d,
{
    assert(a.update(ci, c).take(wi) =~= head + seq![c] + d);
}

/// The open block of `src[bs..]` ends at the zero byte `src[zi]`.
proof fn lemma_block_ends_at_zero(src: Seq<u8>, bs: int, zi: int, done: Seq<u8>, reduced: bool)
    requires
        0 <= bs <= zi < src.len(),
        zi - bs < 254,
        zero_free(src.subrange(bs, zi)),
        src[zi] == 0,
        encode_blocks(src, false) == done + encode_blocks(src.skip(bs), false),
        encode_blocks(src, reduced) == done + encode_blocks(src.skip(bs), reduced),
    ensures
        encode_blocks(src, false) == (done + code_block(src.subrange(bs, zi))) + encode_blocks(src.skip(zi + 1), false),
        encode_blocks(src, reduced) == (done + code_block(src.subrange(bs, zi))) + encode_blocks(src.skip(zi + 1), reduced),
{
    let rest = src.skip(bs);
    let d = src.subrange(bs, zi);
    let k = (zi - bs) as nat;
    assert forall|i: int| 0 <= i < k implies #[trigger] rest[i] != 0 by {
        assert(rest[i] == d[i]);
    }
    lemma_encode_zero_step(rest, k, false);
    lemma_encode_zero_step(rest, k, reduced);
    assert(rest.take(k as int) =~= d);
    assert(rest.skip(k + 1 as int) =~= src.skip(zi + 1));
    assert(done + (code_block(d) + encode_blocks(src.skip(zi + 1), false)) =~= (done + code_block(d)) + encode_blocks(src.skip(zi + 1), false));
    assert(done + (code_block(d) + encode_blocks(src.skip(zi + 1), reduced)) =~= (done + code_block(d)) + encode_blocks(src.skip(zi + 1), reduced));
}

/// The open block of `src[bs..]` is a full run of 254 non-zero bytes and
/// more input follows.
proof fn lemma_block_full(src: Seq<u8>, bs: int, done: Seq<u8>, reduced: bool)
    requires
        0 <= bs,
        bs + 254 < src.len(),
        zero_free(src.subrange(bs, bs + 254)),
        encode_blocks(src, false) == done + encode_blocks(src.skip(bs), false),
        encode_blocks(src, reduced) == done + encode_blocks(src.skip(bs), reduced),
    ensures
        encode_blocks(src, false) == (done + code_block(src.subrange(bs, bs + 254))) + encode_blocks(src.skip(bs + 254), false),
        encode_blocks(src, reduced) == (done + code_block(src.subrange(bs, bs + 254))) + encode_blocks(src.skip(bs + 254), reduced),
{
    let rest = src.skip(bs);
    let d = src.subrange(bs, bs + 254);
    assert forall|i: int| 0 <= i < 254 implies #[trigger] rest[i] != 0 by {
        assert(rest[i] == d[i]);
    }
    lemma_encode_split_step(rest, false);
    lemma_encode_split_step(rest, reduced);
    assert(rest.take(254) =~= d);
    assert(rest.skip(254) =~= src.skip(bs + 254));
    assert(done + (code_block(d) + encode_blocks(src.skip(bs + 254), false)) =~= (done + code_block(d)) + encode_blocks(src.skip(bs + 254), false));
    assert(done + (code_block(d) + encode_blocks(src.skip(bs + 254), reduced)) =~= (done + code_block(d)) + encode_blocks(src.skip(bs + 254), reduced));
}

/// The open block of `src[bs..ri]` can take one more non-zero byte: the
/// encoding is longer than the block so far.
proof fn lemma_block_grows(src: Seq<u8>, bs: int, ri: int, done: Seq<u8>)
    requires
        0 <= bs < ri <= src.len(),
        ri - bs <= 254,
        zero_free(src.subrange(bs, ri)),
        encode_blocks(src, false) == done + encode_blocks(src.skip(bs), false),
    ensures
        encode_blocks(src, false).len() >= done.len() + 1 + (ri - bs),
{
    let rest = src.skip(bs);
    let m = (ri - bs) as nat;
    assert forall|i: int| 0 <= i < m implies #[trigger] rest[i] != 0 by {
        assert(rest[i] == src.subrange(bs, ri)[i]);
    }
    lemma_encode_first_block_len(rest, m);
}

/// Encodes `src` into `dst` as code blocks, the final one in COBS/R form when
/// `reduced`, and returns the encoding's length. Only the first
/// `cobs_encode(src).len()` bytes of `dst` are written.
pub(crate) fn encode_into(src: &[u8], dst: &mut [u8], reduced: bool) -> (n: usize)
    requires
        old(dst)@.len() >= spec_max_encoded_len(src@.len()),
    ensures
        n == encode_blocks(src@, reduced).len(),
        final(dst)@.len() == old(dst)@.len(),
        final(dst)@.take(n as int) == encode_blocks(src@, reduced),
        forall|i: int| cobs_encode(src@).len() <= i < old(dst)@.len() ==> final(dst)@[i] == old(dst)@[i],
{
    let src_len = src.len();
    let mut code_index: usize = 0;
    let mut write_index: usize = 1;
    let mut code: u8 = 1;
    let mut last_byte: u8 = 0;
    let mut read_index: usize = 0;
    // The encoding of src[..block_start] is complete in dst[..code_index]; the
    // data of the open block, src[block_start..read_index], follows the slot
    // of its code byte at code_index.
    let ghost mut block_start: int = 0;
    let ghost mut done: Seq<u8> = seq![];
    let ghost total = cobs_encode(src@).len();
    proof {
        lemma_encode_len_bound(src@);
        lemma_encode_nonempty(src@, false);
        assert(src@.skip(0) =~= src@);
    }
    while read_index < src_len
        invariant
            src_len == src@.len(),
            0 <= block_start <= read_index <= src_len,
            total == cobs_encode(src@).len(),
            total <= dst@.len(),
            dst@.len() == old(dst)@.len(),
            code as int == read_index - block_start + 1,
            code <= 255,
            code == 255 ==> read_index == src_len,
            zero_free(src@.subrange(block_start, read_index as int)),
            code_index + code == write_index,
            write_index <= total,
            done.len() == code_index,
            dst@.take(code_index as int) == done,
            dst@.subrange(code_index + 1, write_index as int) == src@.subrange(block_start, read_index as int),
            forall|i: int| write_index <= i < old(dst)@.len() ==> dst@[i] == old(dst)@[i],
            encode_blocks(src@, false) == done + encode_blocks(src@.skip(block_start), false),
            encode_blocks(src@, reduced) == done + encode_blocks(src@.skip(block_start), reduced),
            read_index > 0 ==> last_byte == src@[read_index - 1],
            block_start == read_index ==> (last_byte == 0 || read_index < src_len),
        decreases src_len - read_index,
    {
        let ghost d = src@.subrange(block_start, read_index as int);
        let byte = src[read_index];
        read_index += 1;
        last_byte = byte;
        if byte == 0 {
            proof {
                lemma_block_ends_at_zero(src@, block_start, read_index - 1, done, reduced);
                lemma_encode_nonempty(src@.skip(read_index as int), false);
            }
            proof {
                lemma_take_block(dst@, code_index as int, write_index as int, done, code, d);
            }
            dst[code_index] = code;
            proof {
                done = done + code_block(d);
                block_start = read_index as int;
            }
            code_index = write_index;
            write_index += 1;
            code = 1;
            proof {
                assert(src@.subrange(block_start, read_index as int) =~= seq![]);
                assert(dst@.subrange(code_index + 1, write_index as int) =~= seq![]);
            }
        } else {
            proof {
                assert(src@.subrange(block_start, read_index as int) =~= d.push(byte));
                lemma_block_grows(src@, block_start, read_index as int, done);
            }
            dst[write_index] = byte;
            write_index += 1;
            code += 1;
            proof {
                assert(dst@.subrange(code_index + 1, write_index as int) =~= src@.subrange(block_start, read_index as int));
                assert(dst@.take(code_index as int) =~= done);
            }
            if code == 0xFF && read_index < src_len {
                let ghost d2 = src@.subrange(block_start, read_index as int);
                proof {
                    lemma_block_full(src@, block_start, done, reduced);
                    lemma_encode_nonempty(src@.skip(read_index as int), false);
                }
                proof {
                    lemma_take_block(dst@, code_index as int, write_index as int, done, code, d2);
                }
                dst[code_index] = code;
                proof {
                    done = done + code_block(d2);
                    block_start = read_index as int;
                }
                code_index = write_index;
                write_index += 1;
                code = 1;
                proof {
                    assert(src@.subrange(block_start, read_index as int) =~= seq![]);
                    assert(dst@.subrange(code_index + 1, write_index as int) =~= seq![]);
                }
            }
        }
    }
    let ghost d = src@.subrange(block_start, read_index as int);
    proof {
        assert(src@.skip(block_start) =~= d);
        lemma_encode_final_step(d, false);
        lemma_encode_final_step(d, reduced);
    }
    if reduced && last_byte >= code {
        proof {
            assert(d.len() > 0);
            assert(d.last() == last_byte);
        }
        dst[code_index] = last_byte;
        write_index -= 1;
        proof {
            assert(dst@.take(write_index as int) =~= done + reduced_block(d));
        }
    } else {
        proof {
            lemma_take_block(dst@, code_index as int, write_index as int, done, code, d);
        }
        dst[code_index] = code;
    }
    write_index
}

/// While the decoder copies the data of the block starting `s`, the first `k`
/// bytes it writes for the block are the first `k` data bytes, and it writes
/// more than `k` bytes when data byte `k` is not zero.
proof fn lemma_block_output_prefix(s: Seq<u8>, base: nat, reduced: bool, k: nat)
    requires
        s.len() > 0,
        s[0] != 0,
        k < nonzero_prefix_len(block_data(s)),
    ensures
        decode_blocks(s, base, reduced).0.len() > k,
        decode_blocks(s, base, reduced).0.take(k as int) == block_data(s).take(k as int),
{
    let data = block_data(s);
    lemma_nonzero_prefix(data);
    let w = decode_blocks(s, base, reduced).0;
    assert(w.take(k as int) =~= data.take(k as int));
}

/// After a block's data is copied, the decoder writes past the data when it
/// writes the separator or the reduced final byte.
proof fn lemma_block_output_full(s: Seq<u8>, base: nat, reduced: bool)
    requires
        s.len() > 0,
        s[0] != 0,
        nonzero_prefix_len(block_data(s)) == block_data(s).len(),
    ensures
        decode_blocks(s, base, reduced).0.take(block_data(s).len() as int) == block_data(s),
        (s[0] < s.len() && s[0] < 255) || (s[0] > s.len() && reduced) ==> decode_blocks(s, base, reduced).0.len() > block_data(s).len(),
{
    let data = block_data(s);
    let w = decode_blocks(s, base, reduced).0;
    assert(w.take(data.len() as int) =~= data);
}

/// The buffer holds the first `cap`-bounded part of the output over its old
/// contents.
proof fn lemma_fill(now: Seq<u8>, old_dst: Seq<u8>, run: (Seq<u8>, Option<DecodeError>), n: nat)
    requires
        now.len() == old_dst.len(),
        n <= old_dst.len(),
        n <= run.0.len(),
        n == run.0.len() || n == old_dst.len(),
        now.take(n as int) == run.0.take(n as int),
        forall|i: int| n <= i < old_dst.len() ==> now[i] == old_dst[i],
    ensures
        now == decode_fill(run, old_dst),
{
    assert(now =~= decode_fill(run, old_dst));
}

/// Data byte `k` of the block that starts `s` is zero: the decoder stops
/// there, with what it wrote before that byte.
proof fn lemma_data_zero(s: Seq<u8>, base: nat, reduced: bool, out: Seq<u8>, run: (Seq<u8>, Option<DecodeError>), k: nat)
    requires
        s.len() > 0,
        s[0] != 0,
        k < block_data(s).len(),
        zero_free(block_data(s).take(k as int)),
        block_data(s)[k as int] == 0,
        run.0 == out + decode_blocks(s, base, reduced).0,
        run.1 == decode_blocks(s, base, reduced).1,
    ensures
        run.0 == out + block_data(s).take(k as int),
        run.1 == Some(DecodeError::ZeroByte { index: (base + 1 + k) as usize }),
        run.0.take(out.len() + k as int) == run.0,
{
    let data = block_data(s);
    assert forall|i: int| 0 <= i < k implies #[trigger] data[i] != 0 by {
        assert(data.take(k as int)[i] == data[i]);
    }
    lemma_nonzero_prefix_is(data, k);
    assert(run.0.take(out.len() + k as int) =~= run.0);
}

/// Data byte `k` of the block that starts `s` is not zero: the decoder
/// writes it, after the first `k` data bytes.
proof fn lemma_data_nonzero(s: Seq<u8>, base: nat, reduced: bool, out: Seq<u8>, run: (Seq<u8>, Option<DecodeError>), k: nat)
    requires
        s.len() > 0,
        s[0] != 0,
        k < block_data(s).len(),
        zero_free(block_data(s).take(k as int)),
        block_data(s)[k as int] != 0,
        run.0 == out + decode_blocks(s, base, reduced).0,
    ensures
        run.0.len() > out.len() + k,
        run.0.take(out.len() + k as int) == out + block_data(s).take(k as int),
        block_data(s).take(k + 1 as int) == block_data(s).take(k as int).push(block_data(s)[k as int]),
        zero_free(block_data(s).take(k + 1 as int)),
{
    let data = block_data(s);
    assert forall|i: int| 0 <= i < k + 1 implies #[trigger] data[i] != 0 by {
        if i < k {
            assert(data.take(k as int)[i] == data[i]);
        }
    }
    lemma_nonzero_prefix_at_least(data, k + 1);
    lemma_block_output_prefix(s, base, reduced, k);
    assert(run.0.take(out.len() + k as int) =~= out + data.take(k as int));
    assert(data.take(k + 1 as int) =~= data.take(k as int).push(data[k as int]));
    assert forall|i: int| 0 <= i < data.take(k + 1 as int).len() implies #[trigger] data.take(k + 1 as int)[i] != 0 by {
        assert(data.take(k + 1 as int)[i] == data[i]);
    }
}

/// All data bytes of the block that starts `s` are copied, none of them
/// zero: the output so far is what precedes the block and its data.
proof fn lemma_data_done(s: Seq<u8>, base: nat, reduced: bool, out: Seq<u8>, run: (Seq<u8>, Option<DecodeError>))
    requires
        s.len() > 0,
        s[0] != 0,
        zero_free(block_data(s).take(block_data(s).len() as int)),
        run.0 == out + decode_blocks(s, base, reduced).0,
    ensures
        block_data(s).take(block_data(s).len() as int) == block_data(s),
        nonzero_prefix_len(block_data(s)) == block_data(s).len(),
        run.0.take(out.len() + block_data(s).len() as int) == out + block_data(s),
        (s[0] < s.len() && s[0] < 255) || (s[0] > s.len() && reduced) ==> run.0.len() > out.len() + block_data(s).len(),
{
    let data = block_data(s);
    assert(data.take(data.len() as int) =~= data);
    assert forall|i: int| 0 <= i < data.len() implies #[trigger] data[i] != 0 by {
        assert(data.take(data.len() as int)[i] == data[i]);
    }
    lemma_nonzero_prefix_is(data, data.len());
    lemma_block_output_full(s, base, reduced);
    assert(run.0.take(out.len() + data.len() as int) =~= out + data);
}

/// Writing byte `b` at `wi` extends the prefix before it.
proof fn lemma_write_next(before: Seq<u8>, wi: int, b: u8)
    requires
        0 <= wi < before.len(),
    ensures
        before.update(wi, b).take(wi + 1) == before.take(wi).push(b),
{
    assert(before.update(wi, b).take(wi + 1) =~= before.take(wi).push(b));
}

/// Decodes `src`, whose bytes are combined with `sentinel` first, into `dst`,
/// reading a code that points past the end of the input as the COBS/R final
/// block when `reduced`. Returns the decoded length.
#[verifier::rlimit(40)]
pub(crate) fn decode_into(src: &[u8], dst: &mut [u8], sentinel: u8, reduced: bool) -> (r: Result<usize, DecodeError>)
    ensures
        r == decode_outcome(decode_run(src@, sentinel, reduced), old(dst)@.len() as nat),
        final(dst)@ == decode_fill(decode_run(src@, sentinel, reduced), old(dst)@),
{
    let ghost x = xor_all(src@, sentinel);
    let ghost run = decode_blocks(x, 0, reduced);
    let src_len = src.len();
    if src_len == 0 {
        proof {
            assert(dst@ =~= decode_fill(run, old(dst)@));
        }
        return Ok(0);
    }
    let mut write_index: usize = 0;
    let mut index: usize = 0;
    let ghost mut out: Seq<u8> = seq![];
    proof {
        assert(x.skip(0) =~= x);
    }
    loop
        invariant
            src_len == src@.len(),
            index < src_len,
            x == xor_all(src@, sentinel),
            run == decode_blocks(x, 0, reduced),
            run.0 == out + decode_blocks(x.skip(index as int), index as nat, reduced).0,
            run.1 == decode_blocks(x.skip(index as int), index as nat, reduced).1,
            write_index == out.len(),
            write_index <= dst@.len(),
            dst@.len() == old(dst)@.len(),
            dst@.take(write_index as int) == out,
            forall|i: int| write_index <= i < old(dst)@.len() ==> dst@[i] == old(dst)@[i],
        decreases src_len - index,
    {
        let ghost s = x.skip(index as int);
        let ghost local = decode_blocks(s, index as nat, reduced);
        let block_start = index;
        let code = src[index] ^ sentinel;
        proof {
            assert(s[0] == x[index as int]);
        }
        if code == 0 {
            proof {
                assert(run.0 =~= out);
                assert(run.0.take(write_index as int) =~= out);
                lemma_fill(dst@, old(dst)@, run, write_index as nat);
            }
            return Err(DecodeError::ZeroByte { index });
        }
        let ghost data = block_data(s);
        index += 1;
        let avail = src_len - index;
        let want = (code - 1) as usize;
        let copy_end = if want < avail { index + want } else { src_len };
        proof {
            assert(data.len() == copy_end - index);
            assert(data.take(0) =~= seq![]);
            assert(out + data.take(0) =~= out);
        }
        while index < copy_end
            invariant
                src_len == src@.len(),
                x == xor_all(src@, sentinel),
                s == x.skip(block_start as int),
                block_start < index <= copy_end <= src_len,
                s.len() > 0,
                s[0] == code,
                code != 0,
                data == block_data(s),
                data.len() == copy_end - block_start - 1,
                local == decode_blocks(s, block_start as nat, reduced),
                run == decode_blocks(x, 0, reduced),
                run.0 == out + local.0,
                run.1 == local.1,
                zero_free(data.take(index - block_start - 1)),
                write_index == out.len() + (index - block_start - 1),
                write_index <= dst@.len(),
                dst@.len() == old(dst)@.len(),
                dst@.take(write_index as int) == out + data.take(index - block_start - 1),
                forall|i: int| write_index <= i < old(dst)@.len() ==> dst@[i] == old(dst)@[i],
            decreases copy_end - index,
        {
            let ghost k = (index - block_start - 1) as nat;
            let byte = src[index] ^ sentinel;
            proof {
                assert(data[k as int] == x[index as int]);
            }
            if byte == 0 {
                proof {
                    lemma_data_zero(s, block_start as nat, reduced, out, run, k);
                    lemma_fill(dst@, old(dst)@, run, write_index as nat);
                }
                return Err(DecodeError::ZeroByte { index });
            }
            proof {
                lemma_data_nonzero(s, block_start as nat, reduced, out, run, k);
            }
            if write_index >= dst.len() {
                proof {
                    lemma_fill(dst@, old(dst)@, run, write_index as nat);
                }
                return Err(DecodeError::OutputTooSmall);
            }
            proof {
                lemma_write_next(dst@, write_index as int, byte);
            }
            dst[write_index] = byte;
            write_index += 1;
            index += 1;
            proof {
                assert(dst@.take(write_index as int) =~= out + data.take(k + 1 as int));
            }
        }
        proof {
            lemma_data_done(s, block_start as nat, reduced, out, run);
        }
        if want > avail {
            if reduced {
                if write_index >= dst.len() {
                    proof {
                        assert(run.0.take(write_index as int) =~= out + data);
                        lemma_fill(dst@, old(dst)@, run, write_index as nat);
                    }
                    return Err(DecodeError::OutputTooSmall);
                }
                proof {
                    lemma_write_next(dst@, write_index as int, code);
                }
                dst[write_index] = code;
                write_index += 1;
                proof {
                    assert(run.0 =~= out + data.push(code));
                    assert(dst@.take(write_index as int) =~= run.0);
                    assert(run.0.take(write_index as int) =~= run.0);
                    lemma_fill(dst@, old(dst)@, run, write_index as nat);
                }
                return Ok(write_index);
            } else {
                proof {
                    assert(run.0 =~= out + data);
                    assert(run.0.take(write_index as int) =~= run.0);
                    lemma_fill(dst@, old(dst)@, run, write_index as nat);
                }
                return Err(DecodeError::Truncated { index: block_start });
            }
        }
        if want < avail {
            let ghost next = decode_blocks(s.skip(code as int), (block_start + code) as nat, reduced);
            proof {
                assert(s.skip(code as int) =~= x.skip(index as int));
            }
            if code < 0xFF {
                if write_index >= dst.len() {
                    proof {
                        assert(run.0.take(write_index as int) =~= out + data);
                        lemma_fill(dst@, old(dst)@, run, write_index as nat);
                    }
                    return Err(DecodeError::OutputTooSmall);
                }
                proof {
                    lemma_write_next(dst@, write_index as int, 0);
                }
                dst[write_index] = 0;
                write_index += 1;
                proof {
                    assert(dst@.take(write_index as int) =~= out + data + separator(code));
                }
            } else {
                proof {
                    assert(out + data + separator(code) =~= out + data);
                }
            }
            proof {
                assert(run.0 =~= (out + data + separator(code)) + next.0);
                out = out + data + separator(code);
            }
        } else {
            proof {
                assert(run.0 =~= out + data);
                assert(run.0.take(write_index as int) =~= run.0);
                lemma_fill(dst@, old(dst)@, run, write_index as nat);
            }
            return Ok(write_index);
        }
    }
}

/// Decodes `buf` as `decode_into` would, writing the output over the input:
/// every byte is written at or before the position it was read from.
#[verifier::rlimit(40)]
pub(crate) fn decode_in_place_into(buf: &mut [u8], sentinel: u8, reduced: bool) -> (r: Result<usize, DecodeError>)
    ensures
        r == decode_outcome(decode_run(old(buf)@, sentinel, reduced), old(buf)@.len() as nat),
        final(buf)@ == decode_fill(decode_run(old(buf)@, sentinel, reduced), old(buf)@),
        r != Err::<usize, DecodeError>(DecodeError::OutputTooSmall),
{
    let ghost src = old(buf)@;
    let ghost x = xor_all(src, sentinel);
    let ghost run = decode_blocks(x, 0, reduced);
    let src_len = buf.len();
    if src_len == 0 {
        proof {
            assert(buf@ =~= decode_fill(run, old(buf)@));
        }
        return Ok(0);
    }
    let mut write_index: usize = 0;
    let mut index: usize = 0;
    let ghost mut out: Seq<u8> = seq![];
    proof {
        assert(x.skip(0) =~= x);
    }
    loop
        invariant
            src_len == src.len(),
            src == old(buf)@,
            buf@.len() == src.len(),
            index < src_len,
            write_index <= index,
            x == xor_all(src, sentinel),
            run == decode_blocks(x, 0, reduced),
            run.0 == out + decode_blocks(x.skip(index as int), index as nat, reduced).0,
            run.1 == decode_blocks(x.skip(index as int), index as nat, reduced).1,
            write_index == out.len(),
            write_index <= buf@.len(),
            buf@.len() == old(buf)@.len(),
            buf@.take(write_index as int) == out,
            forall|i: int| write_index <= i < old(buf)@.len() ==> buf@[i] == old(buf)@[i],
        decreases src_len - index,
    {
        let ghost s = x.skip(index as int);
        let ghost local = decode_blocks(s, index as nat, reduced);
        let block_start = index;
        let code = buf[index] ^ sentinel;
        proof {
            assert(buf@[index as int] == src[index as int]);
            assert(s[0] == x[index as int]);
        }
        if code == 0 {
            proof {
                assert(run.0 =~= out);
                assert(run.0.take(write_index as int) =~= out);
                lemma_fill(buf@, old(buf)@, run, write_index as nat);
            }
            return Err(DecodeError::ZeroByte { index });
        }
        let ghost data = block_data(s);
        index += 1;
        let avail = src_len - index;
        let want = (code - 1) as usize;
        let copy_end = if want < avail { index + want } else { src_len };
        proof {
            assert(data.len() == copy_end - index);
            assert(data.take(0) =~= seq![]);
            assert(out + data.take(0) =~= out);
        }
        while index < copy_end
            invariant
                src_len == src.len(),
                src == old(buf)@,
                buf@.len() == src.len(),
                out.len() <= block_start,
                x == xor_all(src, sentinel),
                s == x.skip(block_start as int),
                block_start < index <= copy_end <= src_len,
                s.len() > 0,
                s[0] == code,
                code != 0,
                data == block_data(s),
                data.len() == copy_end - block_start - 1,
                local == decode_blocks(s, block_start as nat, reduced),
                run == decode_blocks(x, 0, reduced),
                run.0 == out + local.0,
                run.1 == local.1,
                zero_free(data.take(index - block_start - 1)),
                write_index == out.len() + (index - block_start - 1),
                write_index <= buf@.len(),
                buf@.len() == old(buf)@.len(),
                buf@.take(write_index as int) == out + data.take(index - block_start - 1),
                forall|i: int| write_index <= i < old(buf)@.len() ==> buf@[i] == old(buf)@[i],
            decreases copy_end - index,
        {
            let ghost k = (index - block_start - 1) as nat;
            let byte = buf[index] ^ sentinel;
            proof {
                assert(buf@[index as int] == src[index as int]);
                assert(data[k as int] == x[index as int]);
            }
            if byte == 0 {
                proof {
                    lemma_data_zero(s, block_start as nat, reduced, out, run, k);
                    lemma_fill(buf@, old(buf)@, run, write_index as nat);
                }
                return Err(DecodeError::ZeroByte { index });
            }
            proof {
                lemma_data_nonzero(s, block_start as nat, reduced, out, run, k);
            }
            proof {
                lemma_write_next(buf@, write_index as int, byte);
            }
            buf[write_index] = byte;
            write_index += 1;
            index += 1;
            proof {
                assert(buf@.take(write_index as int) =~= out + data.take(k + 1 as int));
            }
        }
        proof {
            lemma_data_done(s, block_start as nat, reduced, out, run);
        }
        if want > avail {
            if reduced {
                proof {
                    lemma_write_next(buf@, write_index as int, code);
                }
                buf[write_index] = code;
                write_index += 1;
                proof {
                    assert(run.0 =~= out + data.push(code));
                    assert(buf@.take(write_index as int) =~= run.0);
                    assert(run.0.take(write_index as int) =~= run.0);
                    lemma_fill(buf@, old(buf)@, run, write_index as nat);
                }
                return Ok(write_index);
            } else {
                proof {
                    assert(run.0 =~= out + data);
                    assert(run.0.take(write_index as int) =~= run.0);
                    lemma_fill(buf@, old(buf)@, run, write_index as nat);
                }
                return Err(DecodeError::Truncated { index: block_start });
            }
        }
        if want < avail {
            let ghost next = decode_blocks(s.skip(code as int), (block_start + code) as nat, reduced);
            proof {
                assert(s.skip(code as int) =~= x.skip(index as int));
            }
            if code < 0xFF {
                proof {
                    lemma_write_next(buf@, write_index as int, 0);
                }
                buf[write_index] = 0;
                write_index += 1;
                proof {
                    assert(buf@.take(write_index as int) =~= out + data + separator(code));
                }
            } else {
                proof {
                    assert(out + data + separator(code) =~= out + data);
                }
            }
            proof {
                assert(run.0 =~= (out + data + separator(code)) + next.0);
                out = out + data + separator(code);
            }
        } else {
            proof {
                assert(run.0 =~= out + data);
                assert(run.0.take(write_index as int) =~= run.0);
                lemma_fill(buf@, old(buf)@, run, write_index as nat);
            }
            return Ok(write_index);
        }
    }
}

/// Combines the first `n` bytes of `dst` with `sentinel`, so that an encoding
/// avoids the sentinel byte instead of zero.
pub(crate) fn xor_prefix(dst: &mut [u8], n: usize, sentinel: u8)
    requires
        n <= old(dst)@.len(),
    ensures
        final(dst)@ == xor_all(old(dst)@.take(n as int), sentinel) + old(dst)@.skip(n as int),
{
    if sentinel != 0 {
        let mut i: usize = 0;
        while i < n
            invariant
                n <= dst@.len(),
                i <= n,
                dst@.len() == old(dst)@.len(),
                forall|j: int| 0 <= j < i ==> dst@[j] == old(dst)@[j] ^ sentinel,
                forall|j: int| i <= j < dst@.len() ==> dst@[j] == old(dst)@[j],
            decreases n - i,
        {
            dst[i] = dst[i] ^ sentinel;
            i += 1;
        }
        assert(dst@ =~= xor_all(old(dst)@.take(n as int), sentinel) + old(dst)@.skip(n as int));
    } else {
        proof {
            lemma_xor_zero(old(dst)@.take(n as int));
        }
        assert(dst@ =~= xor_all(old(dst)@.take(n as int), sentinel) + old(dst)@.skip(n as int));
    }
}

} // verus!
