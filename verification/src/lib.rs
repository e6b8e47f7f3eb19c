//! Consistent Overhead Byte Stuffing (COBS) and COBS/R, with verified
//! encoders, decoders and stream framing.
//!
//! COBS turns any byte sequence into one without a zero byte, at a cost of at
//! most one byte per 254 bytes (plus one), so a single zero byte can delimit
//! packets on a byte stream.

use vstd::prelude::*;

pub mod model;
mod codec;
pub mod cobs;
pub mod cobsr;
pub mod framing;

mod error;
pub use error::DecodeError;

verus! {

/// The byte value used to delimit COBS-encoded frames on the wire.
pub const DELIMITER: u8 = 0x00;

/// The largest number of source bytes a single COBS code block can carry
/// without emitting an overhead byte.
pub const MAX_BLOCK_LEN: usize = 254;

/// Worst-case overhead for a message of `n` bytes: one code byte per started
/// block of 254 bytes, and one for the empty message.
pub open spec fn spec_encoding_overhead(n: nat) -> nat {
    if n == 0 {
        1
    } else {
        (1 + (n - 1) / 254) as nat
    }
}

/// Worst-case length of the encoding of a message of `n` bytes.
pub open spec fn spec_max_encoded_len(n: nat) -> nat {
    n + spec_encoding_overhead(n)
}

/// Returns the maximum encoding overhead, in bytes, that COBS or COBS/R can add
/// when encoding a message of `source_len` bytes: `ceil(n / 254)` for a
/// non-empty message and `1` for the empty one.
pub fn encoding_overhead(source_len: usize) -> (r: usize)
    ensures
        r == spec_encoding_overhead(source_len as nat),
        source_len > 0 ==> r * 254 >= source_len && (r - 1) * 254 < source_len,
{
    if source_len == 0 {
        1
    } else {
        1 + (source_len - 1) / MAX_BLOCK_LEN
    }
}

/// Returns the maximum possible length of the COBS (or COBS/R) encoding of a
/// message of `source_len` bytes, `n + ceil(n / 254)` (and `1` when `n == 0`).
pub fn max_encoded_len(source_len: usize) -> (r: usize)
    requires
        source_len + spec_encoding_overhead(source_len as nat) <= usize::MAX,
    ensures
        r == spec_max_encoded_len(source_len as nat),
{
    source_len + encoding_overhead(source_len)
}

} // verus!
